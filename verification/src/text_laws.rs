//! Normalising a text twice gives what normalising it once gives.
use vstd::prelude::*;
use crate::chars::{
    lemma_trim_end_take, lemma_trim_start_skip, leading_ws, spec_is_ascii_alphanumeric, spec_is_cjk,
    spec_is_whitespace, trailing_ws, trim, trim_end, trim_start,
};
use crate::text::{
    cjk_spacing, collapse_newlines, collapse_newlines_from, crlf_to_lf, needs_cjk_space, normalized,
    space_after_close_paren,
};

verus! {

/// `out` is `s` with single spaces inserted, each right after a character
/// of `s` that is not its last.
pub open spec fn spaced(out: Seq<char>, s: Seq<char>) -> bool
    decreases s.len(),
{
    if s.len() == 0 {
        out.len() == 0
    } else {
        &&& out.len() > 0
        &&& out[0] == s[0]
        &&& (spaced(out.skip(1), s.skip(1)) || (s.len() >= 2 && out.len() >= 2 && out[1] == ' ' && spaced(
            out.skip(2),
            s.skip(1),
        )))
    }
}

pub open spec fn lacks_cr(s: Seq<char>) -> bool {
    forall|i: int| 0 <= i < s.len() ==> s[i] != '\r'
}

/// No three newlines in a row.
pub open spec fn no_triple_newline(s: Seq<char>) -> bool {
    forall|i: int| #![trigger s[i]] 0 <= i < s.len() - 2 ==> !(s[i] == '\n' && s[i + 1] == '\n' && s[i + 2] == '\n')
}

/// No `)` directly followed by a CJK character.
pub open spec fn no_paren_cjk(s: Seq<char>) -> bool {
    forall|i: int| #![trigger s[i]] 0 <= i < s.len() - 1 ==> !(s[i] == ')' && spec_is_cjk(s[i + 1]))
}

/// No CJK character next to an ASCII letter or digit.
pub open spec fn no_cjk_pair(s: Seq<char>) -> bool {
    forall|i: int| #![trigger s[i]] 0 <= i < s.len() - 1 ==> !needs_cjk_space(s[i], s[i + 1])
}

/// Empty, or starting and ending with a character that is no white space.
pub open spec fn trimmed(s: Seq<char>) -> bool {
    s.len() > 0 ==> !spec_is_whitespace(s[0]) && !spec_is_whitespace(s.last())
}

// ---------------------------------------------------------------------------
// Inserting spaces.
// ---------------------------------------------------------------------------

proof fn lemma_space_after_spaced(s: Seq<char>)
    ensures
        spaced(space_after_close_paren(s), s),
    decreases s.len(),
{
    if s.len() > 0 {
        lemma_space_after_spaced(s.skip(1));
        let out = space_after_close_paren(s);
        if s[0] == ')' && s.len() >= 2 && spec_is_cjk(s[1]) {
            assert(out.skip(2) =~= space_after_close_paren(s.skip(1)));
        } else {
            assert(out.skip(1) =~= space_after_close_paren(s.skip(1)));
        }
    }
}

proof fn lemma_cjk_spacing_spaced(s: Seq<char>)
    ensures
        spaced(cjk_spacing(s), s),
    decreases s.len(),
{
    if s.len() > 0 {
        lemma_cjk_spacing_spaced(s.skip(1));
        let out = cjk_spacing(s);
        if s.len() >= 2 && needs_cjk_space(s[0], s[1]) {
            assert(out.skip(2) =~= cjk_spacing(s.skip(1)));
        } else {
            assert(out.skip(1) =~= cjk_spacing(s.skip(1)));
        }
    }
}

/// Inserted spaces keep the first and last characters and the absence of
/// any character other than a space.
proof fn lemma_spaced_ends(out: Seq<char>, s: Seq<char>)
    requires
        spaced(out, s),
    ensures
        s.len() > 0 ==> out.len() > 0 && out[0] == s[0] && out.last() == s.last(),
        s.len() == 0 ==> out.len() == 0,
        lacks_cr(s) ==> lacks_cr(out),
    decreases s.len(),
{
    if s.len() > 0 {
        if spaced(out.skip(1), s.skip(1)) {
            lemma_spaced_ends(out.skip(1), s.skip(1));
            if s.len() > 1 {
                assert(out.last() == out.skip(1).last());
                assert(s.last() == s.skip(1).last());
            }
            if lacks_cr(s) {
                assert(lacks_cr(s.skip(1)));
                assert forall|i: int| 0 <= i < out.len() implies out[i] != '\r' by {
                    if i > 0 {
                        assert(out[i] == out.skip(1)[i - 1]);
                    }
                }
            }
        } else {
            lemma_spaced_ends(out.skip(2), s.skip(1));
            assert(out.last() == out.skip(2).last());
            assert(s.last() == s.skip(1).last());
            if lacks_cr(s) {
                assert(lacks_cr(s.skip(1)));
                assert forall|i: int| 0 <= i < out.len() implies out[i] != '\r' by {
                    if i > 1 {
                        assert(out[i] == out.skip(2)[i - 2]);
                    }
                }
            }
        }
    }
}

/// Inserted spaces make no new run of newlines, no new `)`-CJK pair.
proof fn lemma_spaced_windows(out: Seq<char>, s: Seq<char>)
    requires
        spaced(out, s),
    ensures
        no_triple_newline(s) ==> no_triple_newline(out),
        no_paren_cjk(s) ==> no_paren_cjk(out),
    decreases s.len(),
{
    if s.len() > 0 {
        let rest = s.skip(1);
        assert(spec_is_cjk(' ') == false);
        if spaced(out.skip(1), rest) {
            let o1 = out.skip(1);
            lemma_spaced_windows(o1, rest);
            lemma_spaced_ends(o1, rest);
            if no_triple_newline(s) {
                assert(no_triple_newline(rest)) by {
                    assert forall|i: int| #![trigger rest[i]] 0 <= i < rest.len() - 2 implies !(rest[i] == '\n' && rest[i + 1] == '\n'
                        && rest[i + 2] == '\n') by {
                        assert(rest[i] == s[i + 1] && rest[i + 1] == s[i + 2] && rest[i + 2] == s[i + 3]);
                    }
                }
                assert forall|i: int| #![trigger out[i]] 0 <= i < out.len() - 2 implies !(out[i] == '\n' && out[i + 1] == '\n'
                    && out[i + 2] == '\n') by {
                    if i > 0 {
                        assert(out[i] == o1[i - 1] && out[i + 1] == o1[i] && out[i + 2] == o1[i + 1]);
                    } else {
                        // out[1] == s[1]; out[2] is s[2] or an inserted space
                        assert(out[1] == o1[0] && o1[0] == rest[0]);
                        assert(out[0] == s[0]);
                        if rest.len() > 1 {
                            if spaced(o1.skip(1), rest.skip(1)) {
                                lemma_spaced_ends(o1.skip(1), rest.skip(1));
                                assert(out[2] == o1.skip(1)[0]);
                                assert(rest.skip(1)[0] == s[2]);
                                assert(rest[0] == s[1]);
                                assert(!(s[0] == '\n' && s[1] == '\n' && s[2] == '\n'));
                            } else {
                                assert(out[2] == o1[1]);
                            }
                        } else {
                            lemma_spaced_ends(o1.skip(1), rest.skip(1));
                            if spaced(o1.skip(1), rest.skip(1)) {
                                assert(o1.len() == 1);
                            }
                        }
                    }
                }
            }
            if no_paren_cjk(s) {
                assert(no_paren_cjk(rest)) by {
                    assert forall|i: int| #![trigger rest[i]] 0 <= i < rest.len() - 1 implies !(rest[i] == ')' && spec_is_cjk(
                        rest[i + 1],
                    )) by {
                        assert(rest[i] == s[i + 1] && rest[i + 1] == s[i + 2]);
                    }
                }
                assert forall|i: int| #![trigger out[i]] 0 <= i < out.len() - 1 implies !(out[i] == ')' && spec_is_cjk(
                    out[i + 1],
                )) by {
                    if i > 0 {
                        assert(out[i] == o1[i - 1] && out[i + 1] == o1[i]);
                    } else {
                        assert(out[1] == o1[0] && o1[0] == rest[0] && rest[0] == s[1]);
                    }
                }
            }
        } else {
            let o2 = out.skip(2);
            lemma_spaced_windows(o2, rest);
            if no_triple_newline(s) {
                assert(no_triple_newline(rest)) by {
                    assert forall|i: int| #![trigger rest[i]] 0 <= i < rest.len() - 2 implies !(rest[i] == '\n' && rest[i + 1] == '\n'
                        && rest[i + 2] == '\n') by {
                        assert(rest[i] == s[i + 1] && rest[i + 1] == s[i + 2] && rest[i + 2] == s[i + 3]);
                    }
                }
                assert forall|i: int| #![trigger out[i]] 0 <= i < out.len() - 2 implies !(out[i] == '\n' && out[i + 1] == '\n'
                    && out[i + 2] == '\n') by {
                    if i > 1 {
                        assert(out[i] == o2[i - 2] && out[i + 1] == o2[i - 1] && out[i + 2] == o2[i]);
                    } else if i == 1 {
                        assert(out[1] == ' ');
                    } else {
                        assert(out[1] == ' ');
                    }
                }
            }
            if no_paren_cjk(s) {
                assert(no_paren_cjk(rest)) by {
                    assert forall|i: int| #![trigger rest[i]] 0 <= i < rest.len() - 1 implies !(rest[i] == ')' && spec_is_cjk(
                        rest[i + 1],
                    )) by {
                        assert(rest[i] == s[i + 1] && rest[i + 1] == s[i + 2]);
                    }
                }
                assert forall|i: int| #![trigger out[i]] 0 <= i < out.len() - 1 implies !(out[i] == ')' && spec_is_cjk(
                    out[i + 1],
                )) by {
                    if i > 1 {
                        assert(out[i] == o2[i - 2] && out[i + 1] == o2[i - 1]);
                    } else if i == 1 {
                        assert(out[1] == ' ');
                    } else {
                        assert(out[1] == ' ');
                    }
                }
            }
        }
    }
}


// ---------------------------------------------------------------------------
// Pieces of a text keep what holds of every window of it.
// ---------------------------------------------------------------------------

proof fn lemma_subrange_keeps(x: Seq<char>, a: int, b: int)
    requires
        0 <= a <= b <= x.len(),
    ensures
        lacks_cr(x) ==> lacks_cr(x.subrange(a, b)),
        no_triple_newline(x) ==> no_triple_newline(x.subrange(a, b)),
        no_paren_cjk(x) ==> no_paren_cjk(x.subrange(a, b)),
        no_cjk_pair(x) ==> no_cjk_pair(x.subrange(a, b)),
{
    let y = x.subrange(a, b);
    if lacks_cr(x) {
        assert forall|i: int| 0 <= i < y.len() implies y[i] != '\r' by {
            assert(y[i] == x[a + i]);
        }
    }
    if no_triple_newline(x) {
        assert forall|i: int| #![trigger y[i]] 0 <= i < y.len() - 2 implies !(y[i] == '\n' && y[i + 1]
            == '\n' && y[i + 2] == '\n') by {
            assert(y[i] == x[a + i] && y[i + 1] == x[a + i + 1] && y[i + 2] == x[a + i + 2]);
        }
    }
    if no_paren_cjk(x) {
        assert forall|i: int| #![trigger y[i]] 0 <= i < y.len() - 1 implies !(y[i] == ')'
            && spec_is_cjk(y[i + 1])) by {
            assert(y[i] == x[a + i] && y[i + 1] == x[a + i + 1]);
        }
    }
    if no_cjk_pair(x) {
        assert forall|i: int| #![trigger y[i]] 0 <= i < y.len() - 1 implies !needs_cjk_space(
            y[i],
            y[i + 1],
        ) by {
            assert(y[i] == x[a + i] && y[i + 1] == x[a + i + 1]);
        }
    }
}

proof fn lemma_tail_keeps(x: Seq<char>)
    requires
        x.len() > 0,
    ensures
        lacks_cr(x) ==> lacks_cr(x.skip(1)),
        no_triple_newline(x) ==> no_triple_newline(x.skip(1)),
        no_paren_cjk(x) ==> no_paren_cjk(x.skip(1)),
        no_cjk_pair(x) ==> no_cjk_pair(x.skip(1)),
{
    lemma_subrange_keeps(x, 1, x.len() as int);
    assert(x.skip(1) =~= x.subrange(1, x.len() as int));
}

// ---------------------------------------------------------------------------
// Carriage returns.
// ---------------------------------------------------------------------------

proof fn lemma_crlf_identity(s: Seq<char>)
    requires
        lacks_cr(s),
    ensures
        crlf_to_lf(s) == s,
    decreases s.len(),
{
    if s.len() > 0 {
        assert(s[0] != '\r');
        lemma_tail_keeps(s);
        lemma_crlf_identity(s.skip(1));
        assert(seq![s[0]] + s.skip(1) =~= s);
    }
}

// ---------------------------------------------------------------------------
// Runs of newlines.
// ---------------------------------------------------------------------------

spec fn newlines(n: nat) -> Seq<char> {
    Seq::new(n, |i: int| '\n')
}

spec fn at_most_two(run: nat) -> nat {
    if run >= 2 {
        2
    } else {
        run
    }
}

proof fn lemma_collapse_identity(s: Seq<char>, run: nat)
    requires
        run <= 2,
        no_triple_newline(newlines(run) + s),
    ensures
        collapse_newlines_from(s, run) == s,
    decreases s.len(),
{
    if s.len() > 0 {
        let p = newlines(run) + s;
        if s[0] == '\n' {
            if run == 2 {
                assert(p[0] == '\n' && p[1] == '\n' && p[2] == '\n');
            }
            assert(newlines(run + 1) + s.skip(1) =~= p);
            lemma_collapse_identity(s.skip(1), run + 1);
            assert(seq!['\n'] + s.skip(1) =~= s);
        } else {
            lemma_subrange_keeps(p, (run + 1) as int, p.len() as int);
            assert(newlines(0) + s.skip(1) =~= p.subrange((run + 1) as int, p.len() as int));
            lemma_collapse_identity(s.skip(1), 0);
            assert(seq![s[0]] + s.skip(1) =~= s);
        }
    }
}

proof fn lemma_collapse_no_triple(s: Seq<char>, run: nat)
    ensures
        no_triple_newline(newlines(at_most_two(run)) + collapse_newlines_from(s, run)),
    decreases s.len(),
{
    let r = at_most_two(run);
    let out = collapse_newlines_from(s, run);
    let p = newlines(r) + out;
    if s.len() == 0 {
        assert(p.len() <= 2);
    } else if s[0] == '\n' {
        lemma_collapse_no_triple(s.skip(1), run + 1);
        if run < 2 {
            assert(p =~= newlines(at_most_two(run + 1)) + collapse_newlines_from(s.skip(1), run + 1));
        }
    } else {
        let x = collapse_newlines_from(s.skip(1), 0);
        lemma_collapse_no_triple(s.skip(1), 0);
        assert(newlines(0) + x =~= x);
        assert(out =~= seq![s[0]] + x);
        assert(p[r as int] == s[0]);
        assert forall|i: int| #![trigger p[i]] 0 <= i < p.len() - 2 implies !(p[i] == '\n' && p[i + 1]
            == '\n' && p[i + 2] == '\n') by {
            if i > r {
                assert(p[i] == x[i - r - 1] && p[i + 1] == x[i - r] && p[i + 2] == x[i - r + 1]);
            } else {
                assert(p[r as int] != '\n');
            }
        }
    }
}

proof fn lemma_collapse_lacks_cr(s: Seq<char>, run: nat)
    requires
        lacks_cr(s),
    ensures
        lacks_cr(collapse_newlines_from(s, run)),
    decreases s.len(),
{
    if s.len() > 0 {
        lemma_tail_keeps(s);
        let next: nat = if s[0] == '\n' {
            run + 1
        } else {
            0
        };
        lemma_collapse_lacks_cr(s.skip(1), next);
        let x = collapse_newlines_from(s.skip(1), next);
        let out = collapse_newlines_from(s, run);
        if s[0] == '\n' && run >= 2 {
            assert(out == x);
        } else {
            assert(out =~= seq![s[0]] + x);
            assert(s[0] != '\r');
            assert forall|i: int| 0 <= i < out.len() implies out[i] != '\r' by {
                if i > 0 {
                    assert(out[i] == x[i - 1]);
                }
            }
        }
    }
}

// ---------------------------------------------------------------------------
// Inserted spaces: what the output has, and when nothing is inserted.
// ---------------------------------------------------------------------------

proof fn lemma_space_after_identity(s: Seq<char>)
    requires
        no_paren_cjk(s),
    ensures
        space_after_close_paren(s) == s,
    decreases s.len(),
{
    if s.len() > 0 {
        if s.len() >= 2 {
            assert(!(s[0] == ')' && spec_is_cjk(s[1])));
        }
        lemma_tail_keeps(s);
        lemma_space_after_identity(s.skip(1));
        assert(seq![s[0]] + s.skip(1) =~= s);
    }
}

proof fn lemma_space_after_no_paren_cjk(s: Seq<char>)
    ensures
        no_paren_cjk(space_after_close_paren(s)),
    decreases s.len(),
{
    if s.len() > 0 {
        let rest = s.skip(1);
        let x = space_after_close_paren(rest);
        lemma_space_after_no_paren_cjk(rest);
        lemma_space_after_spaced(rest);
        lemma_spaced_ends(x, rest);
        let out = space_after_close_paren(s);
        assert(!spec_is_cjk(' '));
        if s[0] == ')' && s.len() >= 2 && spec_is_cjk(s[1]) {
            assert(out =~= seq![s[0], ' '] + x);
            assert forall|i: int| #![trigger out[i]] 0 <= i < out.len() - 1 implies !(out[i] == ')'
                && spec_is_cjk(out[i + 1])) by {
                if i >= 2 {
                    assert(out[i] == x[i - 2] && out[i + 1] == x[i - 1]);
                } else {
                    assert(out[1] == ' ');
                }
            }
        } else {
            assert(out =~= seq![s[0]] + x);
            assert forall|i: int| #![trigger out[i]] 0 <= i < out.len() - 1 implies !(out[i] == ')'
                && spec_is_cjk(out[i + 1])) by {
                if i >= 1 {
                    assert(out[i] == x[i - 1] && out[i + 1] == x[i]);
                } else {
                    assert(out[1] == x[0] && x[0] == rest[0] && rest[0] == s[1]);
                }
            }
        }
    }
}

proof fn lemma_cjk_identity(s: Seq<char>)
    requires
        no_cjk_pair(s),
    ensures
        cjk_spacing(s) == s,
    decreases s.len(),
{
    if s.len() > 0 {
        if s.len() >= 2 {
            assert(!needs_cjk_space(s[0], s[1]));
        }
        lemma_tail_keeps(s);
        lemma_cjk_identity(s.skip(1));
        assert(seq![s[0]] + s.skip(1) =~= s);
    }
}

proof fn lemma_cjk_no_pair(s: Seq<char>)
    ensures
        no_cjk_pair(cjk_spacing(s)),
    decreases s.len(),
{
    if s.len() > 0 {
        let rest = s.skip(1);
        let x = cjk_spacing(rest);
        lemma_cjk_no_pair(rest);
        lemma_cjk_spacing_spaced(rest);
        lemma_spaced_ends(x, rest);
        let out = cjk_spacing(s);
        assert(!spec_is_cjk(' ') && !spec_is_ascii_alphanumeric(' '));
        if s.len() >= 2 && needs_cjk_space(s[0], s[1]) {
            assert(out =~= seq![s[0], ' '] + x);
            assert forall|i: int| #![trigger out[i]] 0 <= i < out.len() - 1 implies !needs_cjk_space(
                out[i],
                out[i + 1],
            ) by {
                if i >= 2 {
                    assert(out[i] == x[i - 2] && out[i + 1] == x[i - 1]);
                } else {
                    assert(out[1] == ' ');
                }
            }
        } else {
            assert(out =~= seq![s[0]] + x);
            assert forall|i: int| #![trigger out[i]] 0 <= i < out.len() - 1 implies !needs_cjk_space(
                out[i],
                out[i + 1],
            ) by {
                if i >= 1 {
                    assert(out[i] == x[i - 1] && out[i + 1] == x[i]);
                } else {
                    assert(out[1] == x[0] && x[0] == rest[0] && rest[0] == s[1]);
                }
            }
        }
    }
}

// ---------------------------------------------------------------------------
// Trimming.
// ---------------------------------------------------------------------------

proof fn lemma_trim_props(x: Seq<char>)
    ensures
        trimmed(trim(x)),
        lacks_cr(x) ==> lacks_cr(trim(x)),
        no_triple_newline(x) ==> no_triple_newline(trim(x)),
        no_paren_cjk(x) ==> no_paren_cjk(trim(x)),
{
    lemma_trim_start_skip(x);
    let k = leading_ws(x) as int;
    let y = trim_start(x);
    assert(y =~= x.subrange(k, x.len() as int));
    lemma_trim_end_take(y);
    let m = y.len() - trailing_ws(y);
    assert(trim(x) =~= x.subrange(k, k + m));
    lemma_subrange_keeps(x, k, k + m);
    if m > 0 {
        assert(trim(x)[0] == y[0] && y[0] == x[k]);
        assert(trim(x).last() == y[m - 1]);
    }
}

proof fn lemma_trim_identity(t: Seq<char>)
    requires
        trimmed(t),
    ensures
        trim(t) == t,
{
    assert(trim_start(t) == t);
    assert(trim_end(t) == t);
}

// ---------------------------------------------------------------------------
// The law.
// ---------------------------------------------------------------------------

/// Normalising a text that holds no carriage return a second time changes
/// nothing: the result has no `'\r'`, no run of three newlines, no `)`
/// directly before a CJK character, no CJK character next to an ASCII
/// letter or digit, and no white space at either end, so that every stage
/// leaves it as it is.
pub proof fn normalize_text_is_idempotent(s: Seq<char>)
    requires
        lacks_cr(s),
    ensures
        normalized(normalized(s, false), false) == normalized(s, false),
{
    lemma_crlf_identity(s);
    let c = collapse_newlines(s);
    lemma_collapse_no_triple(s, 0);
    assert(newlines(0) + c =~= c);
    lemma_collapse_lacks_cr(s, 0);
    let p = space_after_close_paren(c);
    lemma_space_after_spaced(c);
    lemma_spaced_ends(p, c);
    lemma_spaced_windows(p, c);
    lemma_space_after_no_paren_cjk(c);
    let u = trim(p);
    lemma_trim_props(p);
    let t = cjk_spacing(u);
    assert(t == normalized(s, false));
    lemma_cjk_spacing_spaced(u);
    lemma_spaced_ends(t, u);
    lemma_spaced_windows(t, u);
    lemma_cjk_no_pair(u);
    assert(trimmed(t));
    lemma_crlf_identity(t);
    assert(newlines(0) + t =~= t);
    lemma_collapse_identity(t, 0);
    lemma_space_after_identity(t);
    lemma_trim_identity(t);
    lemma_cjk_identity(t);
}

} // verus!

//! Normalisation of the text fields stored for a paper (titles, summaries,
//! insights, reviews).
use vstd::prelude::*;
use crate::chars::{
    extend_chars, is_ascii_alphanumeric, is_cjk, is_whitespace, lemma_trim_start_skip,
    leading_ws, slice_chars, spec_is_ascii_alphanumeric, spec_is_cjk, spec_is_whitespace,
    trim_end, starts_with, string_from_chars, to_chars, trim, trim_chars, trim_start, chars_eq,
    chars_start_with,
};

verus! {

// ---------------------------------------------------------------------------
// Specification of each normalisation stage, read from the front of the text.
// ---------------------------------------------------------------------------

/// Replaces every `"\r\n"` by `"\n"`, scanning left to right without overlap
/// (as `str::replace` does).
pub open spec fn crlf_to_lf(s: Seq<char>) -> Seq<char>
    decreases s.len(),
{
    if s.len() == 0 {
        s
    } else if s.len() >= 2 && s[0] == '\r' && s[1] == '\n' {
        seq!['\n'] + crlf_to_lf(s.skip(2))
    } else {
        seq![s[0]] + crlf_to_lf(s.skip(1))
    }
}

/// Shortens every run of three or more `'\n'` to exactly two; `run` is the
/// number of newlines that directly precede `s`.
pub open spec fn collapse_newlines_from(s: Seq<char>, run: nat) -> Seq<char>
    decreases s.len(),
{
    if s.len() == 0 {
        s
    } else if s[0] == '\n' {
        if run >= 2 {
            collapse_newlines_from(s.skip(1), run + 1)
        } else {
            seq!['\n'] + collapse_newlines_from(s.skip(1), run + 1)
        }
    } else {
        seq![s[0]] + collapse_newlines_from(s.skip(1), 0)
    }
}

pub open spec fn collapse_newlines(s: Seq<char>) -> Seq<char> {
    collapse_newlines_from(s, 0)
}

/// Turns double quotes into CJK corner brackets outside of `<...>` tags.
/// `open` tells whether a straight quote is currently open, `in_tag` whether
/// the scan is inside a tag.
pub open spec fn convert_quotes_from(s: Seq<char>, open: bool, in_tag: bool) -> Seq<char>
    decreases s.len(),
{
    if s.len() == 0 {
        s
    } else {
        let c = s[0];
        let rest = s.skip(1);
        if c == '<' {
            seq![c] + convert_quotes_from(rest, open, true)
        } else if c == '>' && in_tag {
            seq![c] + convert_quotes_from(rest, open, false)
        } else if c == '"' && !in_tag {
            seq![if open { '\u{300D}' } else { '\u{300C}' }] + convert_quotes_from(rest, !open, in_tag)
        } else if c == '\u{201C}' && !in_tag {
            seq!['\u{300C}'] + convert_quotes_from(rest, true, in_tag)
        } else if c == '\u{201D}' && !in_tag {
            seq!['\u{300D}'] + convert_quotes_from(rest, false, in_tag)
        } else {
            seq![c] + convert_quotes_from(rest, open, in_tag)
        }
    }
}

pub open spec fn convert_quotes(s: Seq<char>) -> Seq<char> {
    convert_quotes_from(s, false, false)
}

/// Inserts a space after every `)` that is directly followed by a CJK character.
pub open spec fn space_after_close_paren(s: Seq<char>) -> Seq<char>
    decreases s.len(),
{
    if s.len() == 0 {
        s
    } else if s[0] == ')' && s.len() >= 2 && spec_is_cjk(s[1]) {
        seq![s[0], ' '] + space_after_close_paren(s.skip(1))
    } else {
        seq![s[0]] + space_after_close_paren(s.skip(1))
    }
}

/// Whether a space belongs between the adjacent characters `a` and `b`:
/// one is CJK and the other an ASCII letter or digit.
pub open spec fn needs_cjk_space(a: char, b: char) -> bool {
    (spec_is_cjk(a) && spec_is_ascii_alphanumeric(b)) || (spec_is_ascii_alphanumeric(a)
        && spec_is_cjk(b))
}

/// Inserts a space between every CJK character and an adjacent ASCII
/// letter or digit.
pub open spec fn cjk_spacing(s: Seq<char>) -> Seq<char>
    decreases s.len(),
{
    if s.len() == 0 {
        s
    } else if s.len() >= 2 && needs_cjk_space(s[0], s[1]) {
        seq![s[0], ' '] + cjk_spacing(s.skip(1))
    } else {
        seq![s[0]] + cjk_spacing(s.skip(1))
    }
}

/// The whole normalisation pipeline.
pub open spec fn normalized(s: Seq<char>, convert: bool) -> Seq<char> {
    let a = collapse_newlines(crlf_to_lf(s));
    let b = if convert { convert_quotes(a) } else { a };
    cjk_spacing(trim(space_after_close_paren(b)))
}

// ---------------------------------------------------------------------------
// Executable stages.
// ---------------------------------------------------------------------------

fn crlf_to_lf_chars(v: &Vec<char>) -> (r: Vec<char>)
    ensures
        r@ == crlf_to_lf(v@),
{
    let mut out: Vec<char> = Vec::new();
    let mut i: usize = 0;
    assert(v@.skip(0) =~= v@);
    while i < v.len()
        invariant
            i <= v.len(),
            out@ + crlf_to_lf(v@.skip(i as int)) == crlf_to_lf(v@),
        decreases v.len() - i,
    {
        let ghost rest = v@.skip(i as int);
        if v[i] == '\r' && i + 1 < v.len() && v[i + 1] == '\n' {
            assert(rest.skip(2) =~= v@.skip(i + 2));
            out.push('\n');
            i += 2;
            assert(out@ + crlf_to_lf(v@.skip(i as int)) =~= crlf_to_lf(v@));
        } else {
            assert(rest.skip(1) =~= v@.skip(i + 1));
            out.push(v[i]);
            i += 1;
            assert(out@ + crlf_to_lf(v@.skip(i as int)) =~= crlf_to_lf(v@));
        }
    }
    assert(out@ + crlf_to_lf(v@.skip(i as int)) =~= out@);
    out
}

fn collapse_newlines_chars(v: &Vec<char>) -> (r: Vec<char>)
    ensures
        r@ == collapse_newlines(v@),
{
    let mut out: Vec<char> = Vec::new();
    let mut run: usize = 0;
    assert(v@.skip(0) =~= v@);
    for i in 0..v.len()
        invariant
            run <= i,
            out@ + collapse_newlines_from(v@.skip(i as int), run as nat) == collapse_newlines(v@),
    {
        let ghost rest = v@.skip(i as int);
        assert(rest.skip(1) =~= v@.skip(i + 1));
        if v[i] == '\n' {
            if run < 2 {
                out.push('\n');
            }
            run += 1;
        } else {
            out.push(v[i]);
            run = 0;
        }
        assert(out@ + collapse_newlines_from(v@.skip(i + 1), run as nat) =~= collapse_newlines(
            v@,
        ));
    }
    assert(v@.skip(v.len() as int) =~= Seq::<char>::empty());
    assert(out@ + Seq::<char>::empty() =~= out@);
    out
}

fn replace_double_quotes_chars(v: &Vec<char>) -> (r: Vec<char>)
    ensures
        r@ == convert_quotes(v@),
{
    let mut out: Vec<char> = Vec::new();
    let mut open = false;
    let mut in_tag = false;
    assert(v@.skip(0) =~= v@);
    for i in 0..v.len()
        invariant
            out@ + convert_quotes_from(v@.skip(i as int), open, in_tag) == convert_quotes(v@),
    {
        let ghost rest = v@.skip(i as int);
        assert(rest.skip(1) =~= v@.skip(i + 1));
        let ch = v[i];
        if ch == '<' {
            in_tag = true;
            out.push(ch);
        } else if ch == '>' && in_tag {
            in_tag = false;
            out.push(ch);
        } else if ch == '"' && !in_tag {
            out.push(if open { '\u{300D}' } else { '\u{300C}' });
            open = !open;
        } else if ch == '\u{201C}' && !in_tag {
            out.push('\u{300C}');
            open = true;
        } else if ch == '\u{201D}' && !in_tag {
            out.push('\u{300D}');
            open = false;
        } else {
            out.push(ch);
        }
        assert(out@ + convert_quotes_from(v@.skip(i + 1), open, in_tag) =~= convert_quotes(v@));
    }
    assert(out@ + convert_quotes_from(v@.skip(v.len() as int), open, in_tag) =~= out@);
    out
}

fn insert_space_after_close_paren_chars(v: &Vec<char>) -> (r: Vec<char>)
    ensures
        r@ == space_after_close_paren(v@),
{
    let mut out: Vec<char> = Vec::new();
    assert(v@.skip(0) =~= v@);
    for i in 0..v.len()
        invariant
            out@ + space_after_close_paren(v@.skip(i as int)) == space_after_close_paren(v@),
    {
        let ghost rest = v@.skip(i as int);
        assert(rest.skip(1) =~= v@.skip(i + 1));
        out.push(v[i]);
        if v[i] == ')' && i + 1 < v.len() && is_cjk(v[i + 1]) {
            out.push(' ');
        }
        assert(out@ + space_after_close_paren(v@.skip(i + 1)) =~= space_after_close_paren(v@));
    }
    assert(out@ + space_after_close_paren(v@.skip(v.len() as int)) =~= out@);
    out
}

fn cjk_spacing_chars(v: &Vec<char>) -> (r: Vec<char>)
    ensures
        r@ == cjk_spacing(v@),
{
    let mut out: Vec<char> = Vec::new();
    assert(v@.skip(0) =~= v@);
    for i in 0..v.len()
        invariant
            out@ + cjk_spacing(v@.skip(i as int)) == cjk_spacing(v@),
    {
        let ghost rest = v@.skip(i as int);
        assert(rest.skip(1) =~= v@.skip(i + 1));
        out.push(v[i]);
        if i + 1 < v.len() {
            let curr = v[i];
            let next = v[i + 1];
            let needs_space = (is_cjk(curr) && is_ascii_alphanumeric(next)) || (
            is_ascii_alphanumeric(curr) && is_cjk(next));
            if needs_space {
                out.push(' ');
            }
        }
        assert(out@ + cjk_spacing(v@.skip(i + 1)) =~= cjk_spacing(v@));
    }
    assert(out@ + cjk_spacing(v@.skip(v.len() as int)) =~= out@);
    out
}

fn normalize_text_impl(s: &str, convert_quotes_flag: bool) -> (r: String)
    ensures
        r@ == normalized(s@, convert_quotes_flag),
{
    let v = to_chars(s);
    let v = crlf_to_lf_chars(&v);
    let v = collapse_newlines_chars(&v);
    let v = if convert_quotes_flag {
        replace_double_quotes_chars(&v)
    } else {
        v
    };
    let v = insert_space_after_close_paren_chars(&v);
    let v = trim_chars(&v);
    let v = cjk_spacing_chars(&v);
    string_from_chars(&v)
}

/// Normalises text without converting quotes: collapses three or more
/// newlines to two (after turning `\r\n` into `\n`), puts a space between a
/// `)` and a following CJK character, trims white space at both ends and
/// separates CJK characters from adjacent ASCII letters and digits by a space.
pub fn normalize_text(s: &str) -> (r: String)
    ensures
        r@ == normalized(s@, false),
{
    normalize_text_impl(s, false)
}

/// Like [`normalize_text`], and also turns straight and curly double quotes
/// outside of HTML tags into the corner brackets `「` `」`.
pub fn normalize_text_convert_quotes(s: &str) -> (r: String)
    ensures
        r@ == normalized(s@, true),
{
    normalize_text_impl(s, true)
}

/// Replaces double quotes by CJK corner brackets outside of HTML tags.
pub fn replace_double_quotes(s: &str) -> (r: String)
    ensures
        r@ == convert_quotes(s@),
{
    let v = to_chars(s);
    string_from_chars(&replace_double_quotes_chars(&v))
}

/// Inserts a space between `)` and a following CJK character.
pub fn insert_space_after_close_paren(s: &str) -> (r: String)
    ensures
        r@ == space_after_close_paren(s@),
{
    let v = to_chars(s);
    string_from_chars(&insert_space_after_close_paren_chars(&v))
}

// ---------------------------------------------------------------------------
// Insight helpers.
// ---------------------------------------------------------------------------

/// The result of [`normalize_insight_heading`]: a leading markdown H1 `# `
/// (after leading white space) becomes a blockquote `> `.
pub open spec fn insight_heading(s: Seq<char>) -> Seq<char> {
    let t = trim_start(s);
    if starts_with(t, seq!['#', ' ']) {
        seq!['>', ' '] + t.skip(2)
    } else {
        s
    }
}

/// Turns a leading markdown H1 `# ` into a blockquote `> `.
pub fn normalize_insight_heading(s: &str) -> (r: String)
    ensures
        r@ == insight_heading(s@),
{
    let v = to_chars(s);
    let mut start: usize = 0;
    while start < v.len() && is_whitespace(v[start])
        invariant
            start <= v.len(),
            forall|i: int| 0 <= i < start ==> spec_is_whitespace(#[trigger] v@[i]),
        decreases v.len() - start,
    {
        start += 1;
    }
    proof {
        lemma_trim_start_skip(v@);
        if leading_ws(v@) < start {
            assert(spec_is_whitespace(v@[leading_ws(v@) as int]));
        }
        if start < leading_ws(v@) {
            assert(spec_is_whitespace(v@[start as int]));
        }
    }
    let ghost t = trim_start(v@);
    assert(t =~= v@.skip(start as int));
    if v.len() >= 2 && start <= v.len() - 2 && v[start] == '#' && v[start + 1] == ' ' {
        assert(t.take(2) =~= seq!['#', ' ']);
        let mut out: Vec<char> = Vec::new();
        out.push('>');
        out.push(' ');
        let rest = slice_chars(&v, start + 2, v.len());
        extend_chars(&mut out, &rest);
        assert(out@ =~= seq!['>', ' '] + t.skip(2));
        string_from_chars(&out)
    } else {
        proof {
            if starts_with(t, seq!['#', ' ']) {
                assert(t.take(2)[0] == '#');
                assert(t.take(2)[1] == ' ');
                assert(t[0] == v@[start as int]);
                assert(t[1] == v@[start + 1]);
            }
        }
        string_from_chars(&v)
    }
}

/// Normalising an insight heading twice changes nothing more than once:
/// a migration that rewrites every stored insight can be run again safely.
pub proof fn insight_heading_is_idempotent(s: Seq<char>)
    ensures
        insight_heading(insight_heading(s)) == insight_heading(s),
{
    let t = trim_start(s);
    if starts_with(t, seq!['#', ' ']) {
        let r = seq!['>', ' '] + t.skip(2);
        assert(r[0] == '>');
        assert(!spec_is_whitespace(r[0]));
        assert(trim_start(r) == r);
        assert(!starts_with(r, seq!['#', ' '])) by {
            assert(r.take(2)[0] == '>');
        }
    }
}

/// Whether an insight holds real content rather than an error placeholder.
pub open spec fn valid_insight(s: Seq<char>) -> bool {
    &&& s.len() > 0
    &&& s != "__ANALYZING__"@
    &&& !starts_with(s, "Figure extraction failed"@)
    &&& !starts_with(s, "Insight failed"@)
    &&& !starts_with(s, "MinerU API not configured"@)
}

/// Checks whether an insight contains valid content (not an error placeholder).
pub fn is_valid_insight(insight: &str) -> (r: bool)
    ensures
        r == valid_insight(insight@),
{
    let v = to_chars(insight);
    let analyzing = to_chars("__ANALYZING__");
    let fig = to_chars("Figure extraction failed");
    let ins = to_chars("Insight failed");
    let mineru = to_chars("MinerU API not configured");
    v.len() > 0 && !chars_eq(&v, &analyzing) && !chars_start_with(&v, &fig)
        && !chars_start_with(&v, &ins) && !chars_start_with(&v, &mineru)
}

// ---------------------------------------------------------------------------
// Laws.
// ---------------------------------------------------------------------------

/// The characters of `s` that are not white space, in order.
pub open spec fn visible(s: Seq<char>) -> Seq<char>
    decreases s.len(),
{
    if s.len() == 0 {
        s
    } else if spec_is_whitespace(s[0]) {
        visible(s.skip(1))
    } else {
        seq![s[0]] + visible(s.skip(1))
    }
}

proof fn lemma_visible_concat(a: Seq<char>, b: Seq<char>)
    ensures
        visible(a + b) == visible(a) + visible(b),
    decreases a.len(),
{
    if a.len() == 0 {
        assert(a + b =~= b);
        assert(visible(a) + visible(b) =~= visible(b));
    } else {
        assert((a + b).skip(1) =~= a.skip(1) + b);
        lemma_visible_concat(a.skip(1), b);
        assert((a + b)[0] == a[0]);
        if !spec_is_whitespace(a[0]) {
            assert(seq![a[0]] + (visible(a.skip(1)) + visible(b)) =~= (seq![a[0]] + visible(
                a.skip(1),
            )) + visible(b));
        }
    }
}

proof fn lemma_visible_single(c: char)
    ensures
        visible(seq![c]) == (if spec_is_whitespace(c) { Seq::<char>::empty() } else { seq![c] }),
{
    let e = Seq::<char>::empty();
    assert(visible(e) == e);
    assert(seq![c].skip(1) =~= e);
    assert(seq![c][0] == c);
    assert(visible(seq![c]) == (if spec_is_whitespace(c) { visible(e) } else { seq![c] + visible(e) }));
    if !spec_is_whitespace(c) {
        assert(seq![c] + Seq::<char>::empty() =~= seq![c]);
    }
}

proof fn lemma_visible_pair_space(c: char)
    ensures
        visible(seq![c, ' ']) == visible(seq![c]),
{
    assert(seq![c, ' '] =~= seq![c] + seq![' ']);
    lemma_visible_concat(seq![c], seq![' ']);
    lemma_visible_single(' ');
    assert(visible(seq![c]) + Seq::<char>::empty() =~= visible(seq![c]));
}

proof fn lemma_visible_crlf(s: Seq<char>)
    ensures
        visible(crlf_to_lf(s)) == visible(s),
    decreases s.len(),
{
    if s.len() == 0 {
    } else if s.len() >= 2 && s[0] == '\r' && s[1] == '\n' {
        lemma_visible_crlf(s.skip(2));
        lemma_visible_concat(seq!['\n'], crlf_to_lf(s.skip(2)));
        lemma_visible_single('\n');
        assert(s.skip(1).skip(1) =~= s.skip(2));
        assert(s.skip(1)[0] == '\n');
        assert(visible(s.skip(1)) == visible(s.skip(2)));
        assert(Seq::<char>::empty() + visible(crlf_to_lf(s.skip(2))) =~= visible(crlf_to_lf(s.skip(2))));
    } else {
        lemma_visible_crlf(s.skip(1));
        lemma_visible_concat(seq![s[0]], crlf_to_lf(s.skip(1)));
        lemma_visible_single(s[0]);
        assert(Seq::<char>::empty() + visible(crlf_to_lf(s.skip(1))) =~= visible(crlf_to_lf(s.skip(1))));
    }
}

proof fn lemma_visible_collapse(s: Seq<char>, run: nat)
    ensures
        visible(collapse_newlines_from(s, run)) == visible(s),
    decreases s.len(),
{
    if s.len() > 0 {
        if s[0] == '\n' {
            lemma_visible_collapse(s.skip(1), run + 1);
            if run < 2 {
                lemma_visible_concat(seq!['\n'], collapse_newlines_from(s.skip(1), run + 1));
                lemma_visible_single('\n');
                assert(Seq::<char>::empty() + visible(collapse_newlines_from(s.skip(1), run + 1)) =~= visible(collapse_newlines_from(s.skip(1), run + 1)));
            }
        } else {
            lemma_visible_collapse(s.skip(1), 0);
            lemma_visible_concat(seq![s[0]], collapse_newlines_from(s.skip(1), 0));
            lemma_visible_single(s[0]);
            assert(Seq::<char>::empty() + visible(collapse_newlines_from(s.skip(1), 0)) =~= visible(collapse_newlines_from(s.skip(1), 0)));
        }
    }
}

proof fn lemma_visible_paren(s: Seq<char>)
    ensures
        visible(space_after_close_paren(s)) == visible(s),
    decreases s.len(),
{
    if s.len() > 0 {
        lemma_visible_paren(s.skip(1));
        if s[0] == ')' && s.len() >= 2 && spec_is_cjk(s[1]) {
            lemma_visible_concat(seq![s[0], ' '], space_after_close_paren(s.skip(1)));
            lemma_visible_pair_space(s[0]);
        } else {
            lemma_visible_concat(seq![s[0]], space_after_close_paren(s.skip(1)));
        }
        lemma_visible_single(s[0]);
    }
}

proof fn lemma_visible_cjk_spacing(s: Seq<char>)
    ensures
        visible(cjk_spacing(s)) == visible(s),
    decreases s.len(),
{
    if s.len() > 0 {
        lemma_visible_cjk_spacing(s.skip(1));
        if s.len() >= 2 && needs_cjk_space(s[0], s[1]) {
            lemma_visible_concat(seq![s[0], ' '], cjk_spacing(s.skip(1)));
            lemma_visible_pair_space(s[0]);
        } else {
            lemma_visible_concat(seq![s[0]], cjk_spacing(s.skip(1)));
        }
        lemma_visible_single(s[0]);
    }
}

proof fn lemma_visible_trim_start(s: Seq<char>)
    ensures
        visible(trim_start(s)) == visible(s),
    decreases s.len(),
{
    if s.len() > 0 && spec_is_whitespace(s[0]) {
        lemma_visible_trim_start(s.drop_first());
        assert(s.drop_first() =~= s.skip(1));
    }
}

proof fn lemma_visible_trim_end(s: Seq<char>)
    ensures
        visible(trim_end(s)) == visible(s),
    decreases s.len(),
{
    if s.len() > 0 && spec_is_whitespace(s.last()) {
        lemma_visible_trim_end(s.drop_last());
        assert(s =~= s.drop_last() + seq![s.last()]);
        lemma_visible_concat(s.drop_last(), seq![s.last()]);
        lemma_visible_single(s.last());
        assert(visible(s.drop_last()) + Seq::<char>::empty() =~= visible(s.drop_last()));
    }
}

/// `normalize_text` keeps every character that is not white space, in its
/// order: it only adds, removes or changes white space. In particular all
/// quote characters are left untouched.
pub proof fn normalize_text_keeps_visible_chars(s: Seq<char>)
    ensures
        visible(normalized(s, false)) == visible(s),
{
    let a = crlf_to_lf(s);
    let b = collapse_newlines(a);
    let c = space_after_close_paren(b);
    lemma_visible_crlf(s);
    lemma_visible_collapse(a, 0);
    lemma_visible_paren(b);
    lemma_visible_trim_start(c);
    lemma_visible_trim_end(trim_start(c));
    lemma_visible_cjk_spacing(trim(c));
}

} // verus!

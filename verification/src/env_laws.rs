//! What reading `.env` text gives back after it was updated or had keys
//! removed.
use vstd::prelude::*;
use crate::chars::{
    lemma_trim_end_take, lemma_trim_start_skip, leading_ws, spec_is_whitespace, trailing_ws,
    trim, trim_end, trim_start,
};
use crate::env::{
    appended_lines, assignment, entries_of_lines, escape_value, find_char, keys_unique, kept_lines, lemma_entries_unique, lemma_lookup_insert, line_breaks_unquote, line_key, lines_assign, lines_from, lookup, parse_env, parse_line, parsable_text, quoted_value, removed_text, split_line, strip_cr, text_lines, unlines, updated_line, updated_lines, updated_text, written,
};

verus! {

// ---------------------------------------------------------------------------
// Lines of written text.
// ---------------------------------------------------------------------------

pub open spec fn no_newline(l: Seq<char>) -> bool {
    forall|i: int| 0 <= i < l.len() ==> l[i] != '\n'
}

proof fn lemma_lines_from_no_newline(s: Seq<char>, cur: Seq<char>)
    requires
        no_newline(cur),
    ensures
        forall|i: int| 0 <= i < lines_from(s, cur).len() ==> no_newline(#[trigger] lines_from(s, cur)[i]),
    decreases s.len(),
{
    if s.len() == 0 {
        if cur.len() > 0 {
            assert(lines_from(s, cur) =~= seq![cur]);
            assert(lines_from(s, cur)[0] == cur);
        } else {
            assert(lines_from(s, cur).len() == 0);
        }
    } else if s[0] == '\n' {
        lemma_lines_from_no_newline(s.skip(1), Seq::empty());
        let r = lines_from(s.skip(1), Seq::empty());
        assert(no_newline(strip_cr(cur))) by {
            assert forall|i: int| 0 <= i < strip_cr(cur).len() implies strip_cr(cur)[i] != '\n' by {
                assert(strip_cr(cur)[i] == cur[i]);
            }
        }
        assert forall|i: int| 0 <= i < lines_from(s, cur).len() implies no_newline(
            #[trigger] lines_from(s, cur)[i],
        ) by {
            if i == 0 {
                assert(lines_from(s, cur)[0] == strip_cr(cur));
            } else {
                assert(lines_from(s, cur)[i] == r[i - 1]);
            }
        }
    } else {
        assert(no_newline(cur.push(s[0]))) by {
            assert forall|i: int| 0 <= i < cur.push(s[0]).len() implies cur.push(s[0])[i] != '\n' by {
                if i < cur.len() {
                    assert(cur.push(s[0])[i] == cur[i]);
                }
            }
        }
        lemma_lines_from_no_newline(s.skip(1), cur.push(s[0]));
        assert(lines_from(s, cur) == lines_from(s.skip(1), cur.push(s[0])));
    }
}

proof fn lemma_lines_from_prefix(l: Seq<char>, rest: Seq<char>, cur: Seq<char>)
    requires
        no_newline(l),
    ensures
        lines_from(l + seq!['\n'] + rest, cur) == seq![strip_cr(cur + l)] + lines_from(rest, Seq::empty()),
    decreases l.len(),
{
    let s = l + seq!['\n'] + rest;
    if l.len() == 0 {
        assert(s[0] == '\n');
        assert(s.skip(1) =~= rest);
        assert(cur + l =~= cur);
    } else {
        assert(s[0] == l[0]);
        assert(s.skip(1) =~= l.skip(1) + seq!['\n'] + rest);
        lemma_lines_from_prefix(l.skip(1), rest, cur.push(l[0]));
        assert(cur.push(l[0]) + l.skip(1) =~= cur + l);
    }
}

proof fn lemma_unlines_front(ls: Seq<Seq<char>>)
    requires
        ls.len() > 0,
    ensures
        unlines(ls) == ls[0] + seq!['\n'] + unlines(ls.skip(1)),
    decreases ls.len(),
{
    if ls.len() == 1 {
        assert(ls.drop_last() =~= Seq::<Seq<char>>::empty());
        assert(ls.skip(1) =~= Seq::<Seq<char>>::empty());
        assert(unlines(ls) =~= ls[0] + seq!['\n'] + unlines(ls.skip(1)));
    } else {
        lemma_unlines_front(ls.drop_last());
        assert(ls.drop_last().skip(1) =~= ls.skip(1).drop_last());
        assert(ls.skip(1).last() == ls.last());
        assert(unlines(ls) =~= ls[0] + seq!['\n'] + unlines(ls.skip(1)));
    }
}

proof fn lemma_text_lines_unlines(ls: Seq<Seq<char>>)
    requires
        forall|i: int| 0 <= i < ls.len() ==> no_newline(#[trigger] ls[i]),
    ensures
        lines_from(unlines(ls), Seq::empty()) == ls.map_values(|l: Seq<char>| strip_cr(l)),
    decreases ls.len(),
{
    if ls.len() == 0 {
        assert(unlines(ls) =~= Seq::<char>::empty());
        assert(ls.map_values(|l: Seq<char>| strip_cr(l)) =~= Seq::<Seq<char>>::empty());
    } else {
        lemma_unlines_front(ls);
        assert(no_newline(ls[0]));
        lemma_lines_from_prefix(ls[0], unlines(ls.skip(1)), Seq::empty());
        assert forall|i: int| 0 <= i < ls.skip(1).len() implies no_newline(#[trigger] ls.skip(1)[i]) by {
            assert(ls.skip(1)[i] == ls[i + 1]);
        }
        lemma_text_lines_unlines(ls.skip(1));
        assert(Seq::<char>::empty() + ls[0] =~= ls[0]);
        assert(ls.map_values(|l: Seq<char>| strip_cr(l)) =~= seq![strip_cr(ls[0])] + ls.skip(1).map_values(
            |l: Seq<char>| strip_cr(l),
        ));
    }
}

/// The lines read back from written lines.
pub open spec fn reread(ls: Seq<Seq<char>>) -> Seq<Seq<char>> {
    if ls.len() == 0 {
        seq![Seq::<char>::empty()]
    } else {
        ls.map_values(|l: Seq<char>| strip_cr(l))
    }
}

proof fn lemma_text_lines_written(ls: Seq<Seq<char>>)
    requires
        forall|i: int| 0 <= i < ls.len() ==> no_newline(#[trigger] ls[i]),
    ensures
        text_lines(written(ls)) == reread(ls),
{
    if ls.len() == 0 {
        let s = seq!['\n'];
        assert(s[0] == '\n');
        assert(s.skip(1) =~= Seq::<char>::empty());
        assert(strip_cr(Seq::<char>::empty()) =~= Seq::<char>::empty());
        assert(lines_from(Seq::<char>::empty(), Seq::<char>::empty()) =~= Seq::<Seq<char>>::empty());
        assert(lines_from(s, Seq::empty()) =~= seq![Seq::<char>::empty()]);
    } else {
        lemma_text_lines_unlines(ls);
    }
}

// ---------------------------------------------------------------------------
// Trimming.
// ---------------------------------------------------------------------------

proof fn lemma_leading_ws_unique(s: Seq<char>, a: nat)
    requires
        a <= s.len(),
        forall|i: int| 0 <= i < a ==> spec_is_whitespace(#[trigger] s[i]),
        a < s.len() ==> !spec_is_whitespace(s[a as int]),
    ensures
        leading_ws(s) == a,
{
    lemma_trim_start_skip(s);
    if leading_ws(s) < a {
        assert(spec_is_whitespace(s[leading_ws(s) as int]));
    }
    if a < leading_ws(s) {
        assert(spec_is_whitespace(s[a as int]));
    }
}

proof fn lemma_trim_start_plain(s: Seq<char>)
    requires
        s.len() > 0 ==> !spec_is_whitespace(s[0]),
    ensures
        trim_start(s) == s,
{
}

proof fn lemma_trim_end_plain(s: Seq<char>)
    requires
        s.len() > 0 ==> !spec_is_whitespace(s.last()),
    ensures
        trim_end(s) == s,
{
}

/// Dropping a trailing white space character does not change the trimmed text.
proof fn lemma_trim_drop_trailing_ws(l: Seq<char>)
    requires
        l.len() > 0,
        spec_is_whitespace(l.last()),
    ensures
        trim(l.drop_last()) == trim(l),
{
    let d = l.drop_last();
    lemma_trim_start_skip(l);
    lemma_trim_start_skip(d);
    let a = leading_ws(l);
    if a == l.len() {
        assert forall|i: int| 0 <= i < d.len() implies spec_is_whitespace(#[trigger] d[i]) by {
            assert(d[i] == l[i]);
        }
        lemma_leading_ws_unique(d, d.len());
        assert(trim_start(l) =~= Seq::<char>::empty());
        assert(trim_start(d) =~= Seq::<char>::empty());
    } else {
        assert(!spec_is_whitespace(l[a as int]));
        assert(a < l.len() - 1);
        assert forall|i: int| 0 <= i < a implies spec_is_whitespace(#[trigger] d[i]) by {
            assert(d[i] == l[i]);
        }
        assert(d[a as int] == l[a as int]);
        lemma_leading_ws_unique(d, a);
        let x = l.skip(a as int);
        assert(d.skip(a as int) =~= x.drop_last());
        assert(x.last() == l.last());
        assert(trim_end(x) == trim_end(x.drop_last()));
    }
}

proof fn lemma_trim_strip_cr(l: Seq<char>)
    ensures
        trim(strip_cr(l)) == trim(l),
        split_line(strip_cr(l)) == split_line(l),
        parse_line(strip_cr(l)) == parse_line(l),
        line_key(strip_cr(l)) == line_key(l),
        line_breaks_unquote(strip_cr(l)) == line_breaks_unquote(l),
{
    if l.len() > 0 && l.last() == '\r' {
        lemma_trim_drop_trailing_ws(l);
    }
}

// ---------------------------------------------------------------------------
// Looking a key up in parsed lines.
// ---------------------------------------------------------------------------

/// The value of the last line that assigns `q`.
pub open spec fn last_value(ls: Seq<Seq<char>>, q: Seq<char>) -> Option<Seq<char>>
    decreases ls.len(),
{
    if ls.len() == 0 {
        None
    } else {
        match parse_line(ls.last()) {
            Some((k, v)) => if k == q {
                Some(v)
            } else {
                last_value(ls.drop_last(), q)
            },
            None => last_value(ls.drop_last(), q),
        }
    }
}

proof fn lemma_lookup_entries(ls: Seq<Seq<char>>, q: Seq<char>)
    ensures
        lookup(entries_of_lines(ls), q) == last_value(ls, q),
    decreases ls.len(),
{
    if ls.len() > 0 {
        lemma_lookup_entries(ls.drop_last(), q);
        lemma_entries_unique(ls.drop_last());
        if let Some((k, v)) = parse_line(ls.last()) {
            lemma_lookup_insert(entries_of_lines(ls.drop_last()), k, v, q);
        }
    }
}

proof fn lemma_last_value_concat(a: Seq<Seq<char>>, b: Seq<Seq<char>>, q: Seq<char>)
    ensures
        last_value(a + b, q) == match last_value(b, q) {
            Some(v) => Some(v),
            None => last_value(a, q),
        },
    decreases b.len(),
{
    if b.len() == 0 {
        assert(a + b =~= a);
    } else {
        assert((a + b).drop_last() =~= a + b.drop_last());
        assert((a + b).last() == b.last());
        lemma_last_value_concat(a, b.drop_last(), q);
    }
}

proof fn lemma_last_value_reread(ls: Seq<Seq<char>>, q: Seq<char>)
    ensures
        last_value(reread(ls), q) == last_value(ls, q),
    decreases ls.len(),
{
    if ls.len() == 0 {
        let e = seq![Seq::<char>::empty()];
        assert(e.drop_last() =~= Seq::<Seq<char>>::empty());
        assert(e.last() == Seq::<char>::empty());
        assert(trim_start(Seq::<char>::empty()) =~= Seq::<char>::empty());
        assert(trim(e.last()) =~= Seq::<char>::empty());
        assert(split_line(e.last()) is None);
        assert(last_value(e, q) == last_value(e.drop_last(), q));
    } else {
        let m = ls.map_values(|l: Seq<char>| strip_cr(l));
        lemma_trim_strip_cr(ls.last());
        assert(m.last() == strip_cr(ls.last()));
        if ls.len() > 1 {
            lemma_last_value_reread(ls.drop_last(), q);
            assert(m.drop_last() =~= ls.drop_last().map_values(|l: Seq<char>| strip_cr(l)));
        } else {
            assert(m.drop_last() =~= Seq::<Seq<char>>::empty());
            assert(ls.drop_last() =~= Seq::<Seq<char>>::empty());
        }
    }
}

// ---------------------------------------------------------------------------
// Lines written for an entry.
// ---------------------------------------------------------------------------

/// A key that reads back as itself: not empty, no white space at its ends,
/// not starting a comment, and holding neither `=` nor a newline.
pub open spec fn clean_key(k: Seq<char>) -> bool {
    &&& k.len() > 0
    &&& !spec_is_whitespace(k[0])
    &&& !spec_is_whitespace(k.last())
    &&& k[0] != '#'
    &&& forall|i: int| 0 <= i < k.len() ==> k[i] != '=' && k[i] != '\n'
}

pub open spec fn value_without_newline(v: Seq<char>) -> bool {
    forall|i: int| 0 <= i < v.len() ==> v[i] != '\n'
}

/// A white-space character outside ASCII.
pub open spec fn wide_whitespace(c: char) -> bool {
    spec_is_whitespace(c) && (c as u32) >= 128
}

/// A value that can be written as one line: no newline, and no white-space
/// character outside ASCII at either end (whether such a character is
/// alphanumeric, which decides if the writer quotes the value, is named and
/// not stated).
pub open spec fn writable_value(v: Seq<char>) -> bool {
    &&& value_without_newline(v)
    &&& v.len() > 0 ==> !wide_whitespace(v[0]) && !wide_whitespace(v.last())
}

/// A value whose written form reads back as itself: writable, and without
/// `"` or `\`.
pub open spec fn clean_value(v: Seq<char>) -> bool {
    &&& writable_value(v)
    &&& forall|i: int| 0 <= i < v.len() ==> v[i] != '"' && v[i] != '\\'
}

proof fn lemma_escape_identity(v: Seq<char>)
    requires
        forall|i: int| 0 <= i < v.len() ==> v[i] != '"' && v[i] != '\\',
    ensures
        escape_value(v) == v,
    decreases v.len(),
{
    if v.len() > 0 {
        assert forall|i: int| 0 <= i < v.skip(1).len() implies v.skip(1)[i] != '"' && v.skip(1)[i]
            != '\\' by {
            assert(v.skip(1)[i] == v[i + 1]);
        }
        lemma_escape_identity(v.skip(1));
        assert(seq![v[0]] + v.skip(1) =~= v);
    }
}

proof fn lemma_escape_no_newline(v: Seq<char>)
    requires
        value_without_newline(v),
    ensures
        value_without_newline(escape_value(v)),
    decreases v.len(),
{
    if v.len() > 0 {
        assert forall|i: int| 0 <= i < v.skip(1).len() implies v.skip(1)[i] != '\n' by {
            assert(v.skip(1)[i] == v[i + 1]);
        }
        lemma_escape_no_newline(v.skip(1));
    }
}

proof fn lemma_assignment_no_newline(k: Seq<char>, v: Seq<char>)
    requires
        clean_key(k),
        value_without_newline(v),
    ensures
        no_newline(assignment(k, v)),
{
    lemma_escape_no_newline(v);
    let q = quoted_value(v);
    let line = assignment(k, v);
    assert forall|i: int| 0 <= i < line.len() implies line[i] != '\n' by {
        if i < k.len() {
            assert(line[i] == k[i]);
        } else if i > k.len() {
            assert(line[i] == q[i - k.len() - 1]);
        }
    }
}

/// The key of an assignment line reads back as the key.
proof fn lemma_assignment_key(k: Seq<char>, v: Seq<char>)
    requires
        clean_key(k),
    ensures
        line_key(assignment(k, v)) == Some(k),
        trim(assignment(k, v)).len() > k.len(),
        trim(assignment(k, v)).take(k.len() as int) == k,
        trim(assignment(k, v)) == assignment(k, v).take(trim(assignment(k, v)).len() as int),
        find_char(trim(assignment(k, v)), '=') == Some(k.len()),
{
    let q = quoted_value(v);
    let line = assignment(k, v);
    let n = k.len();
    assert(line[0] == k[0]);
    assert(line[n as int] == '=');
    lemma_trim_start_plain(line);
    lemma_trim_end_take(line);
    let t = trim(line);
    assert(t == line.take(line.len() - trailing_ws(line)));
    assert(n < line.len() - trailing_ws(line)) by {
        if n >= line.len() - trailing_ws(line) {
            assert(spec_is_whitespace(line[n as int]));
        }
    }
    assert(t[0] == k[0]);
    assert(t.len() > 0);
    crate::env::lemma_find_char(t, '=');
    assert(t[n as int] == '=');
    match find_char(t, '=') {
        Some(i) => {
            if i < n {
                assert(t[i as int] == k[i as int]);
            }
            if i > n {
                assert(t[n as int] == '=');
            }
            assert(i == n);
        },
        None => {
            assert(t[n as int] == '=');
        },
    }
    assert(t.take(n as int) =~= k);
    lemma_trim_start_plain(k);
    lemma_trim_end_plain(k);
}

/// Facts about the quoted form of a writable value.
proof fn lemma_quoted_shape(v: Seq<char>)
    requires
        writable_value(v),
    ensures
        quoted_value(v).len() > 0 ==> !spec_is_whitespace(quoted_value(v)[0]) && !spec_is_whitespace(
            quoted_value(v).last(),
        ),
        quoted_value(v) == v || (quoted_value(v).len() >= 3 && quoted_value(v)[0] == '"'
            && quoted_value(v).last() == '"' && quoted_value(v).subrange(1, quoted_value(v).len() - 1)
            == escape_value(v)),
{
    let q = quoted_value(v);
    if q != v {
        assert(v.len() > 0);
        assert(escape_value(v).len() >= 1) by {
            assert(escape_value(v) == (if v[0] == '\\' { seq!['\\', '\\'] } else if v[0] == '"' { seq!['\\', '"'] } else { seq![v[0]] }) + escape_value(v.skip(1)));
        }
        assert(q.subrange(1, q.len() - 1) =~= escape_value(v));
    }
}

/// The raw value of an assignment of a writable value is its quoted form.
proof fn lemma_assignment_split(k: Seq<char>, v: Seq<char>)
    requires
        clean_key(k),
        writable_value(v),
    ensures
        split_line(assignment(k, v)) == Some((k, quoted_value(v))),
{
    lemma_assignment_key(k, v);
    lemma_quoted_shape(v);
    let q = quoted_value(v);
    let line = assignment(k, v);
    let n = k.len();
    assert(line.last() == if q.len() > 0 { q.last() } else { '=' });
    assert(line[0] == k[0]);
    lemma_trim_start_plain(line);
    lemma_trim_end_plain(line);
    let t = trim(line);
    assert(t == line);
    assert(t.skip(n + 1 as int) =~= q);
    lemma_trim_start_plain(q);
    lemma_trim_end_plain(q);
    lemma_trim_start_plain(k);
    lemma_trim_end_plain(k);
    assert(t.len() > 0 && t[0] != '#');
}

/// An assignment of a clean value reads back as the value.
proof fn lemma_assignment_value(k: Seq<char>, v: Seq<char>)
    requires
        clean_key(k),
        clean_value(v),
    ensures
        parse_line(assignment(k, v)) == Some((k, v)),
        !line_breaks_unquote(assignment(k, v)),
{
    lemma_assignment_split(k, v);
    lemma_quoted_shape(v);
    let q = quoted_value(v);
    if q != v {
        lemma_escape_identity(v);
    } else if v.len() > 0 {
        assert(crate::env::plain_value_char(v[0]));
        assert(crate::env::plain_value_char(v.last())) by {
            assert(v.last() == v[v.len() - 1]);
        }
    }
}

/// No assignment line of a writable value holds a lone quote as its value.
proof fn lemma_assignment_safe(k: Seq<char>, v: Seq<char>)
    requires
        clean_key(k),
        writable_value(v),
    ensures
        !line_breaks_unquote(assignment(k, v)),
{
    lemma_assignment_split(k, v);
    lemma_quoted_shape(v);
    let q = quoted_value(v);
    if q.len() == 1 {
        assert(q =~= seq![q[0]]);
    }
}

// ---------------------------------------------------------------------------
// Laws.
// ---------------------------------------------------------------------------

/// Update entries that read back faithfully.
pub open spec fn clean_updates(u: Seq<(Seq<char>, Seq<char>)>) -> bool {
    &&& keys_unique(u)
    &&& forall|i: int| #![trigger u[i]] 0 <= i < u.len() ==> clean_key(u[i].0) && writable_value(u[i].1)
}

proof fn lemma_lookup_in(u: Seq<(Seq<char>, Seq<char>)>, k: Seq<char>)
    ensures
        match lookup(u, k) {
            Some(v) => exists|i: int| 0 <= i < u.len() && #[trigger] u[i] == (k, v),
            None => forall|i: int| 0 <= i < u.len() ==> #[trigger] u[i].0 != k,
        },
{
    crate::env::lemma_index_of_key(u, k);
    if let Some(v) = lookup(u, k) {
        let i = crate::env::index_of_key(u, k)->0 as int;
        assert(u[i] == (k, v));
    }
}

proof fn lemma_updated_lines_no_newline(ls: Seq<Seq<char>>, u: Seq<(Seq<char>, Seq<char>)>)
    requires
        forall|i: int| 0 <= i < ls.len() ==> no_newline(#[trigger] ls[i]),
        clean_updates(u),
    ensures
        forall|i: int| 0 <= i < ls.len() ==> no_newline(
            #[trigger] updated_lines(ls, u)[i],
        ),
        forall|i: int| 0 <= i < appended_lines(ls, u).len() ==> no_newline(#[trigger] appended_lines(ls, u)[i]),
    decreases u.len(),
{
    assert forall|i: int| 0 <= i < ls.len() implies no_newline(
        #[trigger] updated_lines(ls, u)[i],
    ) by {
        let l = ls[i];
        if let Some((k, _r)) = split_line(l) {
            lemma_lookup_in(u, k);
            if let Some(v) = lookup(u, k) {
                let j = choose|j: int| 0 <= j < u.len() && #[trigger] u[j] == (k, v);
                assert(clean_key(u[j].0) && writable_value(u[j].1));
                lemma_assignment_no_newline(k, v);
            }
        }
    }
    if u.len() > 0 {
        assert(clean_updates(u.drop_last())) by {
            assert forall|i: int, j: int| 0 <= i < j < u.drop_last().len() implies #[trigger] u.drop_last()[i].0
                != #[trigger] u.drop_last()[j].0 by {
                assert(u.drop_last()[i] == u[i] && u.drop_last()[j] == u[j]);
            }
            assert forall|i: int| 0 <= i < u.drop_last().len() implies clean_key(#[trigger] u.drop_last()[i].0)
                && writable_value(u.drop_last()[i].1) by {
                assert(u.drop_last()[i] == u[i]);
            }
        }
        lemma_updated_lines_no_newline(ls, u.drop_last());
        let (k, v) = u.last();
        assert(u.last() == u[u.len() - 1]);
        lemma_assignment_no_newline(k, v);
        let rest = appended_lines(ls, u.drop_last());
        assert forall|i: int| 0 <= i < appended_lines(ls, u).len() implies no_newline(
            #[trigger] appended_lines(ls, u)[i],
        ) by {
            if i < rest.len() {
                assert(appended_lines(ls, u)[i] == rest[i]);
            }
        }
    }
}

/// The rewritten lines assign `q` as the text did, with the updated value
/// when `q` is updated and the text assigns it.
proof fn lemma_last_value_updated(ls: Seq<Seq<char>>, u: Seq<(Seq<char>, Seq<char>)>, q: Seq<char>)
    requires
        clean_updates(u),
        lookup(u, q) matches Some(v) ==> clean_value(v),
    ensures
        last_value(updated_lines(ls, u), q) == match lookup(u, q) {
            Some(v) => if lines_assign(ls, q) {
                Some(v)
            } else {
                None
            },
            None => last_value(ls, q),
        },
    decreases ls.len(),
{
    let m = updated_lines(ls, u);
    if ls.len() == 0 {
        assert(!lines_assign(ls, q));
    } else {
        let l = ls.last();
        let d = ls.drop_last();
        lemma_last_value_updated(d, u, q);
        assert(m.drop_last() =~= updated_lines(d, u));
        assert(m.last() == updated_line(l, u));
        // lines_assign over ls splits into d and the last line.
        assert(lines_assign(ls, q) == (lines_assign(d, q) || line_key(l) == Some(q))) by {
            if lines_assign(ls, q) {
                let i = choose|i: int| 0 <= i < ls.len() && #[trigger] line_key(ls[i]) == Some(q);
                if i < d.len() {
                    assert(d[i] == ls[i]);
                }
            }
            if lines_assign(d, q) {
                let i = choose|i: int| 0 <= i < d.len() && #[trigger] line_key(d[i]) == Some(q);
                assert(ls[i] == d[i]);
            }
            if line_key(l) == Some(q) {
                assert(line_key(ls[ls.len() - 1]) == Some(q));
            }
        }
        match split_line(l) {
            Some((k, _r)) => {
                lemma_lookup_in(u, k);
                match lookup(u, k) {
                    Some(w) => {
                        let j = choose|j: int| 0 <= j < u.len() && #[trigger] u[j] == (k, w);
                        assert(clean_key(u[j].0));
                        lemma_assignment_key(k, w);
                        if k == q {
                            lemma_assignment_value(k, w);
                        }
                    },
                    None => {
                        if k == q {
                            assert(lookup(u, q) is None);
                        }
                    },
                }
            },
            None => {},
        }
    }
}

/// Appended lines assign each updated key that no line assigned, once.
proof fn lemma_last_value_appended(ls: Seq<Seq<char>>, u: Seq<(Seq<char>, Seq<char>)>, q: Seq<char>)
    requires
        clean_updates(u),
        lookup(u, q) matches Some(v) ==> clean_value(v),
    ensures
        last_value(appended_lines(ls, u), q) == match lookup(u, q) {
            Some(v) => if lines_assign(ls, q) {
                None
            } else {
                Some(v)
            },
            None => None,
        },
    decreases u.len(),
{
    if u.len() > 0 {
        let d = u.drop_last();
        let (k, v) = u.last();
        assert(u.last() == u[u.len() - 1]);
        assert(clean_updates(d)) by {
            assert forall|i: int, j: int| 0 <= i < j < d.len() implies #[trigger] d[i].0 != #[trigger] d[j].0 by {
                assert(d[i] == u[i] && d[j] == u[j]);
            }
            assert forall|i: int| 0 <= i < d.len() implies clean_key(#[trigger] d[i].0) && writable_value(
                d[i].1,
            ) by {
                assert(d[i] == u[i]);
            }
        }
        // lookup in u versus d.
        lemma_lookup_in(u, q);
        lemma_lookup_in(d, q);
        assert(lookup(u, q) == if k == q { Some(v) } else { lookup(d, q) }) by {
            crate::env::lemma_index_of_key(u, q);
            crate::env::lemma_index_of_key(d, q);
            if k == q {
                match crate::env::index_of_key(u, q) {
                    Some(i) => {
                        if i < u.len() - 1 {
                            assert(u[i as int].0 != u[u.len() - 1].0);
                        }
                    },
                    None => {
                        assert(u[u.len() - 1].0 == q);
                    },
                }
                match crate::env::index_of_key(d, q) {
                    Some(i) => {
                        assert(d[i as int] == u[i as int]);
                        assert(u[i as int].0 != u[u.len() - 1].0);
                    },
                    None => {},
                }
            } else {
                match crate::env::index_of_key(d, q) {
                    Some(i) => {
                        assert(d[i as int] == u[i as int]);
                        match crate::env::index_of_key(u, q) {
                            Some(m) => {
                                if m < i {
                                    assert(d[m as int] == u[m as int]);
                                }
                            },
                            None => {},
                        }
                    },
                    None => {
                        match crate::env::index_of_key(u, q) {
                            Some(m) => {
                                if m < d.len() {
                                    assert(d[m as int] == u[m as int]);
                                }
                            },
                            None => {},
                        }
                    },
                }
            }
        }
        if k == q {
            if let Some(w) = lookup(d, q) {
                let j = choose|j: int| 0 <= j < d.len() && #[trigger] d[j] == (q, w);
                assert(u[j] == d[j]);
                assert(u[j].0 == u[u.len() - 1].0);
                assert(false);
            }
        }
        if let Some(w) = lookup(d, q) {
            let j = choose|j: int| 0 <= j < d.len() && #[trigger] d[j] == (q, w);
            assert(u[j] == d[j]);
        }
        lemma_last_value_appended(ls, d, q);
        let rest = appended_lines(ls, d);
        if !lines_assign(ls, k) {
            assert(clean_key(u[u.len() - 1].0));
            lemma_assignment_key(k, v);
            assert(rest.push(assignment(k, v)).drop_last() =~= rest);
            if k == q {
                lemma_assignment_value(k, v);
            }
        }
    }
}

/// Reading `.env` text after `updates` were written into it gives each
/// updated key its new value and every other key the value it had, provided
/// keys and values read back as themselves (clean keys, values without
/// newlines; for the updated key the value is also clean). The rewritten
/// text stays parsable.
pub proof fn read_after_update(s: Seq<char>, updates: Seq<(Seq<char>, Seq<char>)>, q: Seq<char>)
    requires
        parsable_text(s),
        clean_updates(updates),
        lookup(updates, q) matches Some(v) ==> clean_value(v),
    ensures
        parsable_text(updated_text(s, updates)),
        lookup(parse_env(updated_text(s, updates)), q) == match lookup(updates, q) {
            Some(v) => Some(v),
            None => lookup(parse_env(s), q),
        },
{
    let ls = text_lines(s);
    let m = updated_lines(ls, updates);
    let a = appended_lines(ls, updates);
    let all = m + a;
    lemma_lines_from_no_newline(s, Seq::empty());
    lemma_updated_lines_no_newline(ls, updates);
    assert forall|i: int| 0 <= i < all.len() implies no_newline(#[trigger] all[i]) by {
        if i < m.len() {
            assert(all[i] == m[i]);
        } else {
            assert(all[i] == a[i - m.len()]);
        }
    }
    lemma_text_lines_written(all);
    lemma_lookup_entries(reread(all), q);
    lemma_last_value_reread(all, q);
    lemma_last_value_concat(m, a, q);
    lemma_last_value_updated(ls, updates, q);
    lemma_last_value_appended(ls, updates, q);
    lemma_lookup_entries(ls, q);
    if let Some(v) = lookup(updates, q) {
        if lines_assign(ls, q) {
        }
    }
    // Parsable: every re-read line is safe.
    let t = updated_text(s, updates);
    assert(text_lines(t) == reread(all));
    assert forall|i: int| 0 <= i < text_lines(t).len() implies !line_breaks_unquote(#[trigger] text_lines(t)[i]) by {
        if all.len() == 0 {
            assert(trim(Seq::<char>::empty()) =~= Seq::<char>::empty());
        } else {
            let l = all[i];
            assert(text_lines(t)[i] == strip_cr(l));
            lemma_trim_strip_cr(l);
            if i < m.len() {
                let o = ls[i];
                assert(l == updated_line(o, updates));
                if let Some((k, _r)) = split_line(o) {
                    lemma_lookup_in(updates, k);
                    if let Some(w) = lookup(updates, k) {
                        let j = choose|j: int| 0 <= j < updates.len() && #[trigger] updates[j] == (k, w);
                        assert(clean_key(updates[j].0) && writable_value(updates[j].1));
                        lemma_assignment_safe(k, w);
                    } else {
                        assert(!line_breaks_unquote(text_lines(s)[i]));
                    }
                } else {
                }
            } else {
                lemma_appended_safe(ls, updates, i - m.len());
                assert(l == a[i - m.len()]);
            }
        }
    }
}

proof fn lemma_appended_safe(ls: Seq<Seq<char>>, u: Seq<(Seq<char>, Seq<char>)>, i: int)
    requires
        clean_updates(u),
        0 <= i < appended_lines(ls, u).len(),
    ensures
        !line_breaks_unquote(appended_lines(ls, u)[i]),
    decreases u.len(),
{
    let d = u.drop_last();
    assert(clean_updates(d)) by {
        assert forall|a: int, b: int| 0 <= a < b < d.len() implies #[trigger] d[a].0 != #[trigger] d[b].0 by {
            assert(d[a] == u[a] && d[b] == u[b]);
        }
        assert forall|a: int| 0 <= a < d.len() implies clean_key(#[trigger] d[a].0) && writable_value(
            d[a].1,
        ) by {
            assert(d[a] == u[a]);
        }
    }
    let rest = appended_lines(ls, d);
    if i < rest.len() {
        lemma_appended_safe(ls, d, i);
    } else {
        assert(u.last() == u[u.len() - 1]);
        assert(clean_key(u[u.len() - 1].0) && writable_value(u[u.len() - 1].1));
        lemma_assignment_safe(u.last().0, u.last().1);
    }
}

/// Reading `.env` text after `keys` were removed gives no value for a
/// removed key and the old value for every other key.
pub proof fn read_after_remove(s: Seq<char>, keys: Seq<Seq<char>>, q: Seq<char>)
    requires
        parsable_text(s),
    ensures
        parsable_text(removed_text(s, keys)),
        lookup(parse_env(removed_text(s, keys)), q) == if keys.contains(q) {
            None
        } else {
            lookup(parse_env(s), q)
        },
{
    let ls = text_lines(s);
    let kept = kept_lines(ls, keys);
    lemma_lines_from_no_newline(s, Seq::empty());
    lemma_kept_props(ls, keys, q);
    lemma_text_lines_written(kept);
    lemma_lookup_entries(reread(kept), q);
    lemma_last_value_reread(kept, q);
    lemma_lookup_entries(ls, q);
    let t = removed_text(s, keys);
    assert forall|i: int| 0 <= i < text_lines(t).len() implies !line_breaks_unquote(#[trigger] text_lines(t)[i]) by {
        if kept.len() == 0 {
            assert(trim(Seq::<char>::empty()) =~= Seq::<char>::empty());
        } else {
            assert(text_lines(t)[i] == strip_cr(kept[i]));
            lemma_trim_strip_cr(kept[i]);
            let j = choose|j: int| 0 <= j < ls.len() && #[trigger] ls[j] == kept[i];
            assert(!line_breaks_unquote(text_lines(s)[j]));
        }
    }
}

proof fn lemma_kept_props(ls: Seq<Seq<char>>, keys: Seq<Seq<char>>, q: Seq<char>)
    requires
        forall|i: int| 0 <= i < ls.len() ==> no_newline(#[trigger] ls[i]),
    ensures
        forall|i: int| 0 <= i < kept_lines(ls, keys).len() ==> no_newline(#[trigger] kept_lines(ls, keys)[i]),
        forall|i: int|
            #![trigger kept_lines(ls, keys)[i]]
            0 <= i < kept_lines(ls, keys).len() ==> exists|j: int| 0 <= j < ls.len() && #[trigger] ls[j] == kept_lines(ls, keys)[i],
        last_value(kept_lines(ls, keys), q) == if keys.contains(q) {
            None
        } else {
            last_value(ls, q)
        },
    decreases ls.len(),
{
    if ls.len() > 0 {
        let d = ls.drop_last();
        assert forall|i: int| 0 <= i < d.len() implies no_newline(#[trigger] d[i]) by {
            assert(d[i] == ls[i]);
        }
        lemma_kept_props(d, keys, q);
        let rest = kept_lines(d, keys);
        let k = kept_lines(ls, keys);
        assert forall|i: int| #![trigger k[i]] 0 <= i < k.len() implies no_newline(k[i]) && exists|j: int|
            0 <= j < ls.len() && #[trigger] ls[j] == k[i] by {
            if i < rest.len() {
                assert(k[i] == rest[i]);
                let j = choose|j: int| 0 <= j < d.len() && #[trigger] d[j] == rest[i];
                assert(ls[j] == d[j]);
            } else {
                assert(k[i] == ls.last());
                assert(ls[ls.len() - 1] == ls.last());
            }
        }
        if rest.len() < k.len() {
            assert(k.drop_last() =~= rest);
        }
    }
}

} // verus!

verus! {

pub proof fn lemma_present_keys_contains(env: Seq<(Seq<char>, Seq<char>)>, cands: Seq<Seq<char>>, j: int)
    requires
        0 <= j < cands.len(),
        lookup(env, cands[j]) is Some,
    ensures
        crate::env::present_keys(env, cands).contains(cands[j]),
    decreases cands.len(),
{
    let r = crate::env::present_keys(env, cands.drop_last());
    if j == cands.len() - 1 {
        assert(crate::env::present_keys(env, cands) == r.push(cands.last()));
        assert(r.push(cands.last())[r.len() as int] == cands[j]);
    } else {
        assert(cands.drop_last()[j] == cands[j]);
        lemma_present_keys_contains(env, cands.drop_last(), j);
        let m = choose|m: int| 0 <= m < r.len() && r[m] == cands[j];
        if lookup(env, cands.last()) is Some {
            assert(r.push(cands.last())[m] == cands[j]);
        }
    }
}

/// Deleting a provider frees its slot: the text read back holds no
/// provider name for it.
pub proof fn delete_frees_slot(s: Seq<char>, i: nat)
    requires
        parsable_text(s),
    ensures
        parsable_text(crate::env::without_provider(s, i)),
        lookup(parse_env(crate::env::without_provider(s, i)), crate::env::provider_key(i, "NAME"@)) is None,
        !crate::env::slot_in_use(parse_env(crate::env::without_provider(s, i)), i),
{
    let env = parse_env(s);
    let cands = crate::env::provider_key_candidates(i);
    let keys = crate::env::present_keys(env, cands);
    let name = crate::env::provider_key(i, "NAME"@);
    assert(cands[0] == name);
    if keys.len() > 0 {
        read_after_remove(s, keys, name);
        if lookup(env, name) is Some {
            lemma_present_keys_contains(env, cands, 0);
        }
    } else {
        if lookup(env, name) is Some {
            lemma_present_keys_contains(env, cands, 0);
            let m = choose|m: int| 0 <= m < keys.len() && keys[m] == name;
        }
    }
}


/// Whether line `l` assigns one of `keys`.
pub open spec fn assigns_one_of(l: Seq<char>, keys: Seq<Seq<char>>) -> bool {
    match split_line(l) {
        Some((k, _v)) => keys.contains(k),
        None => false,
    }
}

proof fn lemma_kept_is_filter(ls: Seq<Seq<char>>, keys: Seq<Seq<char>>)
    ensures
        kept_lines(ls, keys) == ls.filter(|l: Seq<char>| !assigns_one_of(l, keys)),
    decreases ls.len(),
{
    reveal(Seq::filter);
    if ls.len() > 0 {
        lemma_kept_is_filter(ls.drop_last(), keys);
    }
}

/// Deleting provider slot `i` drops exactly the lines that assign one of
/// the slot's keys that the text holds; every other line (comments, blank
/// lines, other keys) is read back with its text, in its order. When the
/// text holds none of the slot's keys, it is left as it is.
pub proof fn deleting_a_provider_keeps_other_lines(s: Seq<char>, i: nat)
    requires
        parsable_text(s),
    ensures
        ({
            let keys = crate::env::present_keys(parse_env(s), crate::env::provider_key_candidates(i));
            &&& keys.len() == 0 ==> crate::env::without_provider(s, i) == s
            &&& keys.len() > 0 ==> text_lines(crate::env::without_provider(s, i)) == reread(
                text_lines(s).filter(|l: Seq<char>| !assigns_one_of(l, keys)),
            )
        }),
{
    let keys = crate::env::present_keys(parse_env(s), crate::env::provider_key_candidates(i));
    if keys.len() > 0 {
        let ls = text_lines(s);
        lemma_lines_from_no_newline(s, Seq::empty());
        lemma_kept_props(ls, keys, Seq::empty());
        lemma_text_lines_written(kept_lines(ls, keys));
        lemma_kept_is_filter(ls, keys);
    }
}


proof fn lemma_kept_none(ls: Seq<Seq<char>>, keys: Seq<Seq<char>>)
    requires
        keys.len() == 0,
    ensures
        kept_lines(ls, keys) == ls,
    decreases ls.len(),
{
    if ls.len() > 0 {
        lemma_kept_none(ls.drop_last(), keys);
        assert(ls.drop_last().push(ls.last()) =~= ls);
    }
}

/// The lines of `s` that assign none of `keys` stand first in the text
/// left after removing `keys` (all of it when there is no key to remove),
/// when no line of `s` ends in a carriage return.
pub proof fn lemma_other_lines_first(s: Seq<char>, keys: Seq<Seq<char>>)
    requires
        forall|m: int| 0 <= m < text_lines(s).len() ==> strip_cr(#[trigger] text_lines(s)[m]) == text_lines(s)[m],
    ensures
        ({
            let f = text_lines(s).filter(|l: Seq<char>| !assigns_one_of(l, keys));
            let c = if keys.len() > 0 {
                removed_text(s, keys)
            } else {
                s
            };
            f.len() <= text_lines(c).len() && text_lines(c).take(f.len() as int) == f
        }),
{
    let ls = text_lines(s);
    lemma_kept_is_filter(ls, keys);
    let kept = kept_lines(ls, keys);
    if keys.len() > 0 {
        lemma_lines_from_no_newline(s, Seq::empty());
        lemma_kept_props(ls, keys, Seq::empty());
        lemma_text_lines_written(kept);
        if kept.len() > 0 {
            assert forall|i: int| 0 <= i < kept.len() implies reread(kept)[i] == kept[i] by {
                let j = choose|j: int| 0 <= j < ls.len() && #[trigger] ls[j] == kept[i];
            }
        }
        assert(reread(kept).take(kept.len() as int) =~= kept);
    } else {
        lemma_kept_none(ls, keys);
        assert(ls.take(ls.len() as int) =~= ls);
    }
}

/// Lines that stand first in `s`, assign no key of `u` and end in no
/// carriage return stand first after the update too.
pub proof fn lemma_update_keeps_prefix(s: Seq<char>, u: Seq<(Seq<char>, Seq<char>)>, k: Seq<Seq<char>>)
    requires
        clean_updates(u),
        k.len() <= text_lines(s).len(),
        text_lines(s).take(k.len() as int) == k,
        forall|m: int| 0 <= m < k.len() ==> strip_cr(#[trigger] k[m]) == k[m],
        forall|m: int|
            0 <= m < k.len() ==> (split_line(#[trigger] k[m]) matches Some((key, _v)) ==> lookup(u, key) is None),
    ensures
        k.len() <= text_lines(updated_text(s, u)).len(),
        text_lines(updated_text(s, u)).take(k.len() as int) == k,
{
    let ls = text_lines(s);
    lemma_lines_from_no_newline(s, Seq::empty());
    lemma_updated_lines_no_newline(ls, u);
    let up = updated_lines(ls, u);
    let ap = appended_lines(ls, u);
    let all = up + ap;
    assert forall|i: int| 0 <= i < all.len() implies no_newline(#[trigger] all[i]) by {
        if i < ls.len() {
            assert(all[i] == up[i]);
        } else {
            assert(all[i] == ap[i - ls.len()]);
        }
    }
    lemma_text_lines_written(all);
    if all.len() > 0 {
        assert forall|m: int| 0 <= m < k.len() implies reread(all)[m] == k[m] by {
            assert(ls.take(k.len() as int)[m] == ls[m]);
            assert(all[m] == up[m]);
            assert(up[m] == updated_line(ls[m], u));
        }
    }
    assert(reread(all).take(k.len() as int) =~= k);
}


proof fn lemma_last_value_assigned(ls: Seq<Seq<char>>, m: int, key: Seq<char>)
    requires
        0 <= m < ls.len(),
        split_line(ls[m]) matches Some((k, _v)) && k == key,
    ensures
        last_value(ls, key) is Some,
    decreases ls.len(),
{
    if m < ls.len() - 1 {
        assert(ls.drop_last()[m] == ls[m]);
        lemma_last_value_assigned(ls.drop_last(), m, key);
    }
}

/// A key that some line of `s` assigns has a value in `s`.
pub proof fn lemma_assigned_key_present(s: Seq<char>, m: int, key: Seq<char>)
    requires
        0 <= m < text_lines(s).len(),
        split_line(text_lines(s)[m]) matches Some((k, _v)) && k == key,
    ensures
        lookup(parse_env(s), key) is Some,
{
    lemma_last_value_assigned(text_lines(s), m, key);
    lemma_lookup_entries(text_lines(s), key);
}

} // verus!

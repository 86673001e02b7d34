//! Small text helpers for configuration lists, author names and PDF data.
use vstd::prelude::*;
use crate::chars::{
    is_whitespace, join_with, lowercase, lowercase_chars, spec_is_whitespace, string_from_chars, to_chars, trim, trim_chars, char_views,
};

verus! {

/// The pieces of `s` between occurrences of `sep` (`str::split`), where
/// `cur` is the piece read so far.
pub open spec fn split_from(s: Seq<char>, sep: char, cur: Seq<char>) -> Seq<Seq<char>>
    decreases s.len(),
{
    if s.len() == 0 {
        seq![cur]
    } else if s[0] == sep {
        seq![cur] + split_from(s.skip(1), sep, Seq::empty())
    } else {
        split_from(s.skip(1), sep, cur.push(s[0]))
    }
}

/// The trimmed pieces that are not empty, in order.
pub open spec fn nonempty_trimmed(ps: Seq<Seq<char>>) -> Seq<Seq<char>>
    decreases ps.len(),
{
    if ps.len() == 0 {
        Seq::empty()
    } else {
        let rest = nonempty_trimmed(ps.drop_last());
        let t = trim(ps.last());
        if t.len() > 0 {
            rest.push(t)
        } else {
            rest
        }
    }
}

/// The items of a comma-separated list, trimmed, without empty ones.
pub open spec fn csv_items(s: Seq<char>) -> Seq<Seq<char>> {
    nonempty_trimmed(split_from(s, ',', Seq::empty()))
}

fn split_char(v: &Vec<char>, sep: char) -> (r: Vec<Vec<char>>)
    ensures
        char_views(r@) == split_from(v@, sep, Seq::empty()),
{
    let mut r: Vec<Vec<char>> = Vec::new();
    let mut cur: Vec<char> = Vec::new();
    assert(v@.skip(0) =~= v@);
    assert(char_views(r@) =~= Seq::<Seq<char>>::empty());
    for i in 0..v.len()
        invariant
            char_views(r@) + split_from(v@.skip(i as int), sep, cur@) == split_from(v@, sep, Seq::empty()),
    {
        let ghost rest = v@.skip(i as int);
        assert(rest.skip(1) =~= v@.skip(i + 1));
        if v[i] == sep {
            let ghost before = char_views(r@);
            let ghost c = cur@;
            r.push(cur);
            assert(char_views(r@) =~= before + seq![c]);
            cur = Vec::new();
            assert(char_views(r@) + split_from(v@.skip(i + 1), sep, cur@) =~= split_from(v@, sep, Seq::empty()));
        } else {
            cur.push(v[i]);
        }
    }
    assert(v@.skip(v.len() as int) =~= Seq::<char>::empty());
    let ghost before = char_views(r@);
    let ghost c = cur@;
    r.push(cur);
    assert(char_views(r@) =~= before + seq![c]);
    r
}

/// Splits a comma-separated list into trimmed, non-empty items.
pub fn split_csv(s: &str) -> (r: Vec<String>)
    ensures
        r@.map_values(|x: String| x@) == csv_items(s@),
{
    let pieces = split_char(&to_chars(s), ',');
    let ghost pv = char_views(pieces@);
    let mut r: Vec<String> = Vec::new();
    for i in 0..pieces.len()
        invariant
            pv == char_views(pieces@),
            r@.map_values(|x: String| x@) == nonempty_trimmed(pv.take(i as int)),
    {
        let t = trim_chars(&pieces[i]);
        assert(pv.take(i + 1).drop_last() =~= pv.take(i as int));
        assert(pv.take(i + 1).last() == pieces@[i as int]@);
        if t.len() > 0 {
            let ghost before = r@.map_values(|x: String| x@);
            let ts = string_from_chars(&t);
            r.push(ts);
            assert(r@.map_values(|x: String| x@) =~= before.push(t@));
        }
    }
    assert(pv.take(pieces.len() as int) =~= pv);
    r
}

/// Whether `c` has the Unicode `Alphabetic` property.
pub uninterp spec fn unicode_alphabetic(c: char) -> bool;

/// Calls `char::is_alphabetic`, named `unicode_alphabetic(c)`.
#[verifier::external_body]
fn is_alphabetic(c: char) -> (r: bool)
    ensures
        r == unicode_alphabetic(c),
{
    c.is_alphabetic()
}

/// The characters of `s` that are alphabetic or a space.
pub open spec fn letters_and_spaces(s: Seq<char>) -> Seq<char>
    decreases s.len(),
{
    if s.len() == 0 {
        s
    } else {
        let rest = letters_and_spaces(s.drop_last());
        if unicode_alphabetic(s.last()) || s.last() == ' ' {
            rest.push(s.last())
        } else {
            rest
        }
    }
}

/// The white-space separated words of `s` (`str::split_whitespace`), where
/// `cur` is the word read so far.
pub open spec fn words_from(s: Seq<char>, cur: Seq<char>) -> Seq<Seq<char>>
    decreases s.len(),
{
    if s.len() == 0 {
        if cur.len() > 0 {
            seq![cur]
        } else {
            Seq::empty()
        }
    } else if spec_is_whitespace(s[0]) {
        (if cur.len() > 0 {
            seq![cur]
        } else {
            Seq::empty()
        }) + words_from(s.skip(1), Seq::empty())
    } else {
        words_from(s.skip(1), cur.push(s[0]))
    }
}

/// An author name for matching: lower case, only letters and spaces, words
/// separated by single spaces.
pub open spec fn normalized_name(s: Seq<char>) -> Seq<char> {
    join_with(words_from(letters_and_spaces(lowercase(s)), Seq::empty()), seq![' '])
}

/// The characters of `s` whose flag in `letters` is set, and its spaces.
pub open spec fn kept_by_flags(s: Seq<char>, letters: Seq<bool>) -> Seq<char>
    decreases s.len(),
{
    if s.len() == 0 {
        s
    } else {
        let rest = kept_by_flags(s.drop_last(), letters);
        if letters[s.len() - 1] || s.last() == ' ' {
            rest.push(s.last())
        } else {
            rest
        }
    }
}

/// The normalised name of lower-cased text `lower` whose alphabetic
/// characters are flagged by `letters`: the letters and spaces, split into
/// words and joined by single spaces.
pub open spec fn name_from_flags(lower: Seq<char>, letters: Seq<bool>) -> Seq<char> {
    join_with(words_from(kept_by_flags(lower, letters), Seq::empty()), seq![' '])
}

proof fn lemma_kept_by_flags(s: Seq<char>, letters: Seq<bool>)
    requires
        letters.len() == s.len(),
        forall|i: int| 0 <= i < s.len() ==> #[trigger] letters[i] == unicode_alphabetic(s[i]),
    ensures
        kept_by_flags(s, letters) == letters_and_spaces(s),
    decreases s.len(),
{
    if s.len() > 0 {
        let d = s.drop_last();
        assert forall|i: int| 0 <= i < d.len() implies #[trigger] letters.take(d.len() as int)[i] == unicode_alphabetic(d[i]) by {
            assert(d[i] == s[i]);
        }
        lemma_kept_by_flags(d, letters.take(d.len() as int));
        lemma_kept_prefix_flags(d, letters, letters.take(d.len() as int));
        assert(s.last() == s[s.len() - 1]);
    }
}

proof fn lemma_kept_prefix_flags(s: Seq<char>, a: Seq<bool>, b: Seq<bool>)
    requires
        s.len() <= a.len(),
        s.len() <= b.len(),
        forall|i: int| 0 <= i < s.len() ==> a[i] == b[i],
    ensures
        kept_by_flags(s, a) == kept_by_flags(s, b),
    decreases s.len(),
{
    if s.len() > 0 {
        lemma_kept_prefix_flags(s.drop_last(), a, b);
    }
}

/// The normalised name from lower-cased text and the flags that tell which
/// of its characters are alphabetic.
pub fn name_from_letters(lower: &Vec<char>, letters: &Vec<bool>) -> (r: String)
    requires
        letters.len() == lower.len(),
    ensures
        r@ == name_from_flags(lower@, letters@),
{
    let mut kept: Vec<char> = Vec::new();
    for i in 0..lower.len()
        invariant
            letters.len() == lower.len(),
            kept@ == kept_by_flags(lower@.take(i as int), letters@),
    {
        let c = lower[i];
        assert(lower@.take(i + 1).drop_last() =~= lower@.take(i as int));
        if letters[i] || c == ' ' {
            kept.push(c);
        }
    }
    assert(lower@.take(lower.len() as int) =~= lower@);
    let words = words_exec(&kept);
    let mut sep: Vec<char> = Vec::new();
    sep.push(' ');
    assert(sep@ =~= seq![' ']);
    let joined = crate::chars::join_chars(&words, 0, words.len(), &sep);
    assert(char_views(words@).subrange(0, words.len() as int) =~= char_views(words@));
    string_from_chars(&joined)
}

fn words_exec(v: &Vec<char>) -> (r: Vec<Vec<char>>)
    ensures
        char_views(r@) == words_from(v@, Seq::empty()),
{
    let mut r: Vec<Vec<char>> = Vec::new();
    let mut cur: Vec<char> = Vec::new();
    assert(v@.skip(0) =~= v@);
    assert(char_views(r@) =~= Seq::<Seq<char>>::empty());
    for i in 0..v.len()
        invariant
            char_views(r@) + words_from(v@.skip(i as int), cur@) == words_from(v@, Seq::empty()),
    {
        let ghost rest = v@.skip(i as int);
        assert(rest.skip(1) =~= v@.skip(i + 1));
        if is_whitespace(v[i]) {
            let ghost before = char_views(r@);
            let ghost c = cur@;
            if cur.len() > 0 {
                r.push(cur);
                assert(char_views(r@) =~= before + seq![c]);
            } else {
                assert(char_views(r@) =~= before + Seq::<Seq<char>>::empty());
            }
            cur = Vec::new();
            assert(char_views(r@) + words_from(v@.skip(i + 1), cur@) =~= words_from(v@, Seq::empty()));
        } else {
            cur.push(v[i]);
        }
    }
    assert(v@.skip(v.len() as int) =~= Seq::<char>::empty());
    let ghost before = char_views(r@);
    let ghost c = cur@;
    if cur.len() > 0 {
        r.push(cur);
        assert(char_views(r@) =~= before + seq![c]);
    } else {
        assert(char_views(r@) =~= before + Seq::<Seq<char>>::empty());
    }
    r
}

/// Normalises an author name for matching.
pub fn normalize_name(s: &str) -> (r: String)
    ensures
        r@ == normalized_name(s@),
{
    let lower = lowercase_chars(&to_chars(s));
    let mut letters: Vec<bool> = Vec::new();
    for i in 0..lower.len()
        invariant
            letters.len() == i,
            forall|k: int| 0 <= k < i ==> #[trigger] letters@[k] == unicode_alphabetic(lower@[k]),
    {
        letters.push(is_alphabetic(lower[i]));
    }
    proof {
        lemma_kept_by_flags(lower@, letters@);
    }
    name_from_letters(&lower, &letters)
}

/// Whether `data` starts with the PDF signature `%PDF`.
pub open spec fn pdf_signature(data: Seq<u8>) -> bool {
    data.len() >= 4 && data[0] == 0x25 && data[1] == 0x50 && data[2] == 0x44 && data[3] == 0x46
}

pub fn is_valid_pdf(data: &[u8]) -> (r: bool)
    ensures
        r == pdf_signature(data@),
{
    data.len() >= 4 && data[0] == 0x25 && data[1] == 0x50 && data[2] == 0x44 && data[3] == 0x46
}

} // verus!

//! Small text helpers of the command-line front end: telling arXiv ids
//! from OpenReview ids, masking keys, and summarising author and date lists.
use vstd::prelude::*;
use vstd::string::StringSliceAdditionalSpecFns;
use crate::chars::{
    at_boundary, byte_len, byte_slice, char_views, chars_contain, contains_seq, extend_chars,
    join_chars, join_with, str_byte_slice, str_byte_suffix, string_from_chars, to_chars,
};
use crate::order::{lemma_str_lt_total, lemma_str_lt_transitive, str_less, str_lt, lemma_str_lt_irreflexive, sort_strings, str_leq};
use crate::chars::string_views;

verus! {

/// arXiv ids hold a dot (new style) or a slash (old style); OpenReview ids
/// hold neither.
pub fn is_arxiv_id(id: &str) -> (r: bool)
    ensures
        r == (contains_seq(id@, seq!['.']) || contains_seq(id@, seq!['/'])),
{
    let v = to_chars(id);
    let mut dot: Vec<char> = Vec::new();
    dot.push('.');
    let mut slash: Vec<char> = Vec::new();
    slash.push('/');
    assert(dot@ =~= seq!['.']);
    assert(slash@ =~= seq!['/']);
    chars_contain(&v, &dot) || chars_contain(&v, &slash)
}

/// An arXiv id by its form (see [`is_arxiv_id`]).
pub open spec fn arxiv_like(id: Seq<char>) -> bool {
    contains_seq(id, seq!['.']) || contains_seq(id, seq!['/'])
}

/// The ids of `ids` that are (`arxiv == true`) or are not arXiv ids, in order.
pub open spec fn ids_of_kind(ids: Seq<Seq<char>>, arxiv: bool) -> Seq<Seq<char>>
    decreases ids.len(),
{
    if ids.len() == 0 {
        Seq::empty()
    } else {
        let rest = ids_of_kind(ids.drop_last(), arxiv);
        if arxiv_like(ids.last()) == arxiv {
            rest.push(ids.last())
        } else {
            rest
        }
    }
}

/// Splits paper ids into arXiv ids and OpenReview ids, each sorted.
pub fn split_paper_ids(ids: &Vec<String>) -> (r: (Vec<String>, Vec<String>))
    ensures
        string_views(r.0@) == ids_of_kind(string_views(ids@), true).sort_by(str_leq()),
        string_views(r.1@) == ids_of_kind(string_views(ids@), false).sort_by(str_leq()),
{
    let mut arxiv: Vec<String> = Vec::new();
    let mut other: Vec<String> = Vec::new();
    for i in 0..ids.len()
        invariant
            string_views(arxiv@) == ids_of_kind(string_views(ids@.take(i as int)), true),
            string_views(other@) == ids_of_kind(string_views(ids@.take(i as int)), false),
    {
        let ghost pre = string_views(ids@.take(i as int));
        assert(string_views(ids@.take(i + 1)) =~= pre.push(ids@[i as int]@));
        assert(pre.push(ids@[i as int]@).drop_last() =~= pre);
        let id = ids[i].clone();
        if is_arxiv_id(id.as_str()) {
            arxiv.push(id);
            assert(string_views(arxiv@) =~= ids_of_kind(pre, true).push(ids@[i as int]@));
        } else {
            other.push(id);
            assert(string_views(other@) =~= ids_of_kind(pre, false).push(ids@[i as int]@));
        }
    }
    assert(ids@.take(ids.len() as int) =~= ids@);
    (sort_strings(arxiv), sort_strings(other))
}

/// A key shown in logs: its first and last four bytes around `...` when it
/// is longer than eight bytes, `***` otherwise.
pub open spec fn masked(key: Seq<char>) -> Seq<char> {
    if byte_len(key) > 8 {
        byte_slice(key, 0, 4) + "..."@ + byte_slice(key, byte_len(key) - 4, byte_len(key) as int)
    } else {
        "***"@
    }
}

pub fn mask_key(key: &str) -> (r: String)
    requires
        byte_len(key@) > 8 ==> at_boundary(key@, 4) && at_boundary(key@, byte_len(key@) - 4),
    ensures
        r@ == masked(key@),
{
    let n = key.as_bytes().len();
    assert(n == byte_len(key@));
    if n > 8 {
        proof {
            vstd::utf8::encode_utf8_valid_utf8(key@);
            vstd::utf8::is_char_boundary_start_end_of_seq(vstd::utf8::encode_utf8(key@));
        }
        let head = str_byte_slice(key, 0, 4);
        let tail = str_byte_suffix(key, n - 4);
        let mut v = to_chars(head);
        extend_chars(&mut v, &to_chars("..."));
        extend_chars(&mut v, &to_chars(tail));
        string_from_chars(&v)
    } else {
        "***".to_string()
    }
}

/// The author list joined by `, `, cut after `max` names with `, ...`.
pub open spec fn truncated_authors(authors: Seq<Seq<char>>, max: nat) -> Seq<char> {
    if authors.len() > max {
        join_with(authors.take(max as int), ", "@) + ", ..."@
    } else {
        join_with(authors, ", "@)
    }
}

pub fn truncate_authors(authors: &Vec<String>, max: usize) -> (r: String)
    ensures
        r@ == truncated_authors(string_views(authors@), max as nat),
{
    let mut parts: Vec<Vec<char>> = Vec::new();
    for i in 0..authors.len()
        invariant
            parts.len() == i,
            char_views(parts@) == string_views(authors@).take(i as int),
    {
        let ghost before = parts@;
        parts.push(to_chars(authors[i].as_str()));
        assert(string_views(authors@)[i as int] == authors@[i as int]@);
        assert(char_views(parts@) =~= string_views(authors@).take(i + 1));
    }
    assert(string_views(authors@).take(authors.len() as int) =~= string_views(authors@));
    let sep = to_chars(", ");
    if authors.len() > max {
        let mut v = join_chars(&parts, 0, max, &sep);
        assert(char_views(parts@).subrange(0, max as int) =~= string_views(authors@).take(max as int));
        extend_chars(&mut v, &to_chars(", ..."));
        string_from_chars(&v)
    } else {
        let v = join_chars(&parts, 0, parts.len(), &sep);
        assert(char_views(parts@).subrange(0, parts.len() as int) =~= string_views(authors@));
        string_from_chars(&v)
    }
}

/// `lo` is a least element of `s`.
pub open spec fn is_least(s: Seq<Seq<char>>, lo: Seq<char>) -> bool {
    s.contains(lo) && forall|j: int| 0 <= j < s.len() ==> !str_lt(#[trigger] s[j], lo)
}

/// `hi` is a greatest element of `s`.
pub open spec fn is_greatest(s: Seq<Seq<char>>, hi: Seq<char>) -> bool {
    s.contains(hi) && forall|j: int| 0 <= j < s.len() ==> !str_lt(hi, #[trigger] s[j])
}

/// The span of a list of dates: `none`, the one date, or the earliest and
/// the latest joined by ` ~ `.
pub fn date_range(dates: &Vec<String>) -> (r: String)
    ensures
        dates.len() == 0 ==> r@ == "none"@,
        dates.len() == 1 ==> r@ == dates@[0]@,
        dates.len() >= 2 ==> exists|lo: Seq<char>, hi: Seq<char>|
            is_least(string_views(dates@), lo) && is_greatest(string_views(dates@), hi)
                && r@ == lo + " ~ "@ + hi,
{
    let ghost s = string_views(dates@);
    if dates.len() == 0 {
        return "none".to_string();
    }
    if dates.len() == 1 {
        return dates[0].clone();
    }
    let mut lo: usize = 0;
    let mut hi: usize = 0;
    let mut i: usize = 1;
    proof {
        lemma_str_lt_irreflexive(s[0]);
    }
    while i < dates.len()
        invariant
            s == string_views(dates@),
            1 <= i <= dates.len(),
            lo < i,
            hi < i,
            forall|j: int| 0 <= j < i ==> !str_lt(#[trigger] s[j], s[lo as int]),
            forall|j: int| 0 <= j < i ==> !str_lt(s[hi as int], #[trigger] s[j]),
        decreases dates.len() - i,
    {
        assert(s[i as int] == dates@[i as int]@);
        assert(s[lo as int] == dates@[lo as int]@);
        assert(s[hi as int] == dates@[hi as int]@);
        if str_less(dates[i].as_str(), dates[lo].as_str()) {
            proof {
                assert forall|j: int| 0 <= j < i + 1 implies !str_lt(#[trigger] s[j], s[i as int]) by {
                    if j < i {
                        lemma_str_lt_total(s[j], s[lo as int]);
                        if str_lt(s[j], s[i as int]) {
                            lemma_str_lt_transitive(s[j], s[i as int], s[lo as int]);
                        }
                    } else {
                        lemma_str_lt_irreflexive(s[i as int]);
                    }
                }
            }
            lo = i;
        } else {
            proof {
                lemma_str_lt_total(s[i as int], s[lo as int]);
            }
        }
        if str_less(dates[hi].as_str(), dates[i].as_str()) {
            proof {
                assert forall|j: int| 0 <= j < i + 1 implies !str_lt(s[i as int], #[trigger] s[j]) by {
                    if j < i {
                        if str_lt(s[i as int], s[j]) {
                            lemma_str_lt_transitive(s[hi as int], s[i as int], s[j]);
                        }
                    } else {
                        lemma_str_lt_irreflexive(s[i as int]);
                    }
                }
            }
            hi = i;
        }
        i += 1;
    }
    let mut v = to_chars(dates[lo].as_str());
    extend_chars(&mut v, &to_chars(" ~ "));
    extend_chars(&mut v, &to_chars(dates[hi].as_str()));
    proof {
        assert(s[lo as int] == dates@[lo as int]@);
        assert(s[hi as int] == dates@[hi as int]@);
        assert(s.contains(s[lo as int]));
        assert(s.contains(s[hi as int]));
        assert(is_least(s, s[lo as int]));
        assert(is_greatest(s, s[hi as int]));
    }
    string_from_chars(&v)
}

} // verus!

//! Regular-expression matching through the `regex` crate.
use vstd::prelude::*;
use crate::chars::{at_boundary, byte_len};

verus! {

/// Whether `pattern`, compiled by the `regex` crate, matches somewhere in
/// `text` (false when the pattern does not compile).
pub uninterp spec fn regex_matches(pattern: Seq<char>, text: Seq<char>) -> bool;

/// Calls `regex::Regex::new(pattern)` and `Regex::is_match(text)`; the
/// result is named `regex_matches(pattern@, text@)`.
#[verifier::external_body]
pub(crate) fn regex_is_match(pattern: &str, text: &str) -> (r: bool)
    ensures
        r == regex_matches(pattern@, text@),
{
    match regex::Regex::new(pattern) {
        Ok(re) => re.is_match(text),
        Err(_) => false,
    }
}

/// The byte spans `(start, end)` of the successive non-overlapping matches
/// of `pattern` in `text` (none when the pattern does not compile).
pub uninterp spec fn regex_match_spans(pattern: Seq<char>, text: Seq<char>) -> Seq<(usize, usize)>;

/// Calls `Regex::find_iter` and returns each match's `start()` and `end()`;
/// the spans are named `regex_match_spans(pattern@, text@)`. As the crate
/// documents, matches are reported in order without overlap, and their
/// offsets lie on character boundaries of `text`.
#[verifier::external_body]
pub(crate) fn regex_find_spans(pattern: &str, text: &str) -> (r: Vec<(usize, usize)>)
    ensures
        r@ == regex_match_spans(pattern@, text@),
        forall|i: int|
            0 <= i < r@.len() ==> {
                &&& (#[trigger] r@[i]).0 <= r@[i].1 <= byte_len(text@)
                &&& at_boundary(text@, r@[i].0 as int)
                &&& at_boundary(text@, r@[i].1 as int)
            },
        forall|i: int, j: int| 0 <= i < j < r@.len() ==> (#[trigger] r@[i]).1 <= (#[trigger] r@[j]).0,
{
    match regex::Regex::new(pattern) {
        Ok(re) => re.find_iter(text).map(|m| (m.start(), m.end())).collect(),
        Err(_) => Vec::new(),
    }
}

pub open spec fn option_views(v: Seq<Option<String>>) -> Seq<Option<Seq<char>>> {
    v.map_values(|o: Option<String>| match o {
        Some(s) => Some(s@),
        None => None,
    })
}

/// The capture groups (group 0 first) of the first match of `pattern` in
/// `text`, or `None` when it does not match or does not compile.
pub uninterp spec fn regex_capture_groups(pattern: Seq<char>, text: Seq<char>) -> Option<Seq<Option<Seq<char>>>>;

/// Calls `Regex::captures` and returns the text of every group; named
/// `regex_capture_groups(pattern@, text@)`.
#[verifier::external_body]
pub(crate) fn regex_captures(pattern: &str, text: &str) -> (r: Option<Vec<Option<String>>>)
    ensures
        match r {
            Some(g) => regex_capture_groups(pattern@, text@) == Some(option_views(g@)),
            None => regex_capture_groups(pattern@, text@) is None,
        },
{
    match regex::Regex::new(pattern) {
        Ok(re) => re.captures(text).map(|c| c.iter().map(|m| m.map(|m| m.as_str().to_string())).collect()),
        Err(_) => None,
    }
}

/// The byte span of the first (leftmost) match of `pattern` in `text`.
pub uninterp spec fn regex_first_match(pattern: Seq<char>, text: Seq<char>) -> Option<(usize, usize)>;

/// Calls `Regex::find` and returns the match's `start()` and `end()`; named
/// `regex_first_match(pattern@, text@)`. The offsets lie on character
/// boundaries of `text`.
#[verifier::external_body]
pub(crate) fn regex_find(pattern: &str, text: &str) -> (r: Option<(usize, usize)>)
    ensures
        r == regex_first_match(pattern@, text@),
        r matches Some((a, b)) ==> a <= b <= byte_len(text@) && at_boundary(text@, a as int)
            && at_boundary(text@, b as int),
{
    match regex::Regex::new(pattern) {
        Ok(re) => re.find(text).map(|m| (m.start(), m.end())),
        Err(_) => None,
    }
}

} // verus!

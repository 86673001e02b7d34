//! Matching an author name against the candidates an author search returns,
//! and the retry policy of that search.
use vstd::prelude::*;
use vstd::arithmetic::power2::{pow2, lemma_pow2_unfold, lemma_pow2_strictly_increases, lemma2_to64};
use crate::chars::{chars_eq, to_chars};
use crate::names::{normalize_name, normalized_name};

verus! {

/// An author record of the search service.
#[derive(Debug, Clone)]
pub struct AuthorData {
    pub author_id: String,
    pub name: String,
    pub paper_count: Option<i64>,
    pub citation_count: Option<i64>,
    pub h_index: Option<i64>,
}

/// Whether candidate `a` carries the author name `name`, compared after
/// normalisation.
pub open spec fn same_author(a: AuthorData, name: Seq<char>) -> bool {
    normalized_name(a.name@) == normalized_name(name)
}

/// The first candidate whose normalised name equals the normalised `name`.
pub fn find_matching_author(name: &str, candidates: Vec<AuthorData>) -> (r: Option<AuthorData>)
    ensures
        match r {
            Some(a) => exists|i: int|
                #![trigger candidates@[i]]
                0 <= i < candidates.len() && a == candidates@[i] && same_author(candidates@[i], name@)
                    && forall|j: int| 0 <= j < i ==> !same_author(#[trigger] candidates@[j], name@),
            None => forall|j: int| 0 <= j < candidates.len() ==> !same_author(#[trigger] candidates@[j], name@),
        },
{
    let target = to_chars(normalize_name(name).as_str());
    let mut i: usize = 0;
    let mut found = false;
    while i < candidates.len() && !found
        invariant
            i <= candidates.len(),
            target@ == normalized_name(name@),
            forall|j: int| 0 <= j < i ==> !same_author(#[trigger] candidates@[j], name@),
            found ==> i < candidates.len() && same_author(candidates@[i as int], name@),
        decreases candidates.len() - i + (if found { 0int } else { 1int }),
    {
        let n = to_chars(normalize_name(candidates[i].name.as_str()).as_str());
        if chars_eq(&n, &target) {
            found = true;
        } else {
            i += 1;
        }
    }
    if found {
        let ghost all = candidates@;
        let mut rest = candidates;
        let a = rest.remove(i);
        assert(a == all[i as int]);
        Some(a)
    } else {
        None
    }
}

/// The wait, in seconds, before the next attempt of a search answered with
/// HTTP `status` on attempt number `attempt` (counted from 0): rate limits
/// wait 5 s more on each attempt, server errors back off exponentially, and
/// other answers are not retried.
pub open spec fn retry_delay(status: u16, attempt: u32) -> Option<nat> {
    if status == 429 {
        Some((5 * (attempt + 1)) as nat)
    } else if 500 <= status <= 599 {
        Some(pow2(attempt as nat))
    } else {
        None
    }
}

pub fn retry_delay_secs(status: u16, attempt: u32) -> (r: Option<u64>)
    requires
        attempt < 64,
    ensures
        match r {
            Some(d) => retry_delay(status, attempt) == Some(d as nat),
            None => retry_delay(status, attempt) is None,
        },
{
    if status == 429 {
        Some(5u64 * (attempt as u64 + 1))
    } else if 500 <= status && status <= 599 {
        let mut v: u64 = 1;
        let mut k: u32 = 0;
        proof {
            lemma2_to64();
        }
        while k < attempt
            invariant
                k <= attempt < 64,
                v == pow2(k as nat),
                pow2(64) == 0x10000000000000000,
            decreases attempt - k,
        {
            proof {
                lemma_pow2_unfold((k + 1) as nat);
                lemma_pow2_strictly_increases((k + 1) as nat, 64);
            }
            v = v * 2;
            k += 1;
        }
        Some(v)
    } else {
        None
    }
}

} // verus!

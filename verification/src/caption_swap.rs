//! Swapping captions between extraction candidates of the wrong type: a
//! table that carries a figure caption and an image or chart on the same
//! page that carries a table caption exchange their captions, so that each
//! ends up with a caption of its own kind. The caller moves the geometry.
use vstd::prelude::*;
use crate::captions::{caption_number_spec, extract_caption_number};
use crate::chars::starts_with;
use crate::mineru::{str_eq, str_starts_with};

verus! {

/// The caption-bearing part of an extraction candidate.
#[derive(Debug)]
pub struct CaptionSlot {
    pub block_type: String,
    pub desc: String,
    pub caption_number: Option<String>,
    pub page_idx: i32,
}

/// A candidate by its views.
pub struct SlotView {
    pub block_type: Seq<char>,
    pub desc: Seq<char>,
    pub caption_number: Option<Seq<char>>,
    pub page_idx: int,
}

pub open spec fn opt_seq(o: Option<String>) -> Option<Seq<char>> {
    match o {
        Some(s) => Some(s@),
        None => None,
    }
}

pub open spec fn slot_view(s: CaptionSlot) -> SlotView {
    SlotView {
        block_type: s.block_type@,
        desc: s.desc@,
        caption_number: opt_seq(s.caption_number),
        page_idx: s.page_idx as int,
    }
}

pub open spec fn slot_views(v: Seq<CaptionSlot>) -> Seq<SlotView> {
    v.map_values(|s: CaptionSlot| slot_view(s))
}

/// A caption number of the wrong kind for the block: a figure number on a
/// table, a table number on anything else.
pub open spec fn wrong_kind(block_type: Seq<char>, cap: Option<Seq<char>>) -> bool {
    match cap {
        Some(k) => if block_type == "table"@ {
            starts_with(k, "F:"@)
        } else {
            starts_with(k, "T:"@)
        },
        None => false,
    }
}

/// A caption number of the right kind for the block.
pub open spec fn right_kind(block_type: Seq<char>, cap: Option<Seq<char>>) -> bool {
    match cap {
        Some(k) => if block_type == "table"@ {
            starts_with(k, "T:"@)
        } else {
            starts_with(k, "F:"@)
        },
        None => false,
    }
}

pub open spec fn misplaced(s: SlotView) -> bool {
    wrong_kind(s.block_type, caption_number_spec(s.desc))
}

/// Two candidates on one page, both with a caption of the wrong kind, each
/// of which would get a caption of the right kind from the other.
pub open spec fn swappable(a: SlotView, b: SlotView) -> bool {
    &&& a.page_idx == b.page_idx
    &&& misplaced(a)
    &&& misplaced(b)
    &&& right_kind(a.block_type, caption_number_spec(b.desc))
    &&& right_kind(b.block_type, caption_number_spec(a.desc))
}

/// The first candidate from `j` on, not yet taken, that `i` can swap with.
pub open spec fn partner(s: Seq<SlotView>, taken: Set<int>, i: int, j: int) -> Option<int>
    decreases s.len() - j,
{
    if j < 0 || j >= s.len() {
        None
    } else if !taken.contains(j) && swappable(s[i], s[j]) {
        Some(j)
    } else {
        partner(s, taken, i, j + 1)
    }
}

/// The swaps made from candidate `i` on: each misplaced candidate not yet
/// taken is paired with its first partner after it.
pub open spec fn swap_pairs(s: Seq<SlotView>, taken: Set<int>, i: int) -> Seq<(int, int)>
    decreases s.len() - i,
{
    if i < 0 || i >= s.len() {
        Seq::empty()
    } else if taken.contains(i) || !misplaced(s[i]) {
        swap_pairs(s, taken, i + 1)
    } else {
        match partner(s, taken, i, i + 1) {
            Some(j) => seq![(i, j)] + swap_pairs(s, taken.insert(i).insert(j), i + 1),
            None => swap_pairs(s, taken, i + 1),
        }
    }
}

/// `s` with the descriptions and caption numbers of `i` and `j` exchanged.
pub open spec fn exchange(s: Seq<SlotView>, i: int, j: int) -> Seq<SlotView> {
    s.update(
        i,
        SlotView { desc: s[j].desc, caption_number: s[j].caption_number, ..s[i] },
    ).update(j, SlotView { desc: s[i].desc, caption_number: s[i].caption_number, ..s[j] })
}

/// The swaps applied in order.
pub open spec fn apply_swaps(s: Seq<SlotView>, pairs: Seq<(int, int)>) -> Seq<SlotView>
    decreases pairs.len(),
{
    if pairs.len() == 0 {
        s
    } else {
        apply_swaps(exchange(s, pairs[0].0, pairs[0].1), pairs.drop_first())
    }
}

fn clone_opt(o: &Option<String>) -> (r: Option<String>)
    ensures
        opt_seq(r) == opt_seq(*o),
{
    match o {
        Some(s) => Some(s.clone()),
        None => None,
    }
}

fn wrong_kind_exec(block_type: &str, cap: &Option<String>) -> (r: bool)
    ensures
        r == wrong_kind(block_type@, opt_seq(*cap)),
{
    match cap {
        Some(k) => if str_eq(block_type, "table") {
            str_starts_with(k.as_str(), "F:")
        } else {
            str_starts_with(k.as_str(), "T:")
        },
        None => false,
    }
}

fn right_kind_exec(block_type: &str, cap: &Option<String>) -> (r: bool)
    ensures
        r == right_kind(block_type@, opt_seq(*cap)),
{
    match cap {
        Some(k) => if str_eq(block_type, "table") {
            str_starts_with(k.as_str(), "T:")
        } else {
            str_starts_with(k.as_str(), "F:")
        },
        None => false,
    }
}

pub open spec fn pair_views(v: Seq<(usize, usize)>) -> Seq<(int, int)> {
    v.map_values(|p: (usize, usize)| (p.0 as int, p.1 as int))
}

proof fn lemma_apply_swaps_push(s: Seq<SlotView>, pairs: Seq<(int, int)>, p: (int, int))
    ensures
        apply_swaps(s, pairs.push(p)) == exchange(apply_swaps(s, pairs), p.0, p.1),
    decreases pairs.len(),
{
    assert(pairs.push(p)[0] == if pairs.len() == 0 { p } else { pairs[0] });
    if pairs.len() == 0 {
        assert(pairs.push(p).drop_first() =~= Seq::<(int, int)>::empty());
        assert(apply_swaps(exchange(s, p.0, p.1), Seq::<(int, int)>::empty()) == exchange(s, p.0, p.1));
        assert(apply_swaps(s, pairs) == s);
    } else {
        assert(pairs.push(p).drop_first() =~= pairs.drop_first().push(p));
        lemma_apply_swaps_push(exchange(s, pairs[0].0, pairs[0].1), pairs.drop_first(), p);
    }
}

proof fn lemma_partner_found(s: Seq<SlotView>, taken: Set<int>, i: int, j: int)
    requires
        partner(s, taken, i, j) is Some,
    ensures
        ({
            let k = partner(s, taken, i, j)->0;
            j <= k < s.len() && !taken.contains(k) && swappable(s[i], s[k])
        }),
    decreases s.len() - j,
{
    if !(j < 0 || j >= s.len()) && !(!taken.contains(j) && swappable(s[i], s[j])) {
        lemma_partner_found(s, taken, i, j + 1);
    }
}

/// Exchanges the captions of candidates of the wrong type, as described in
/// the module documentation: scanning in order, each candidate with a
/// caption of the wrong kind that was not yet swapped is paired with the
/// first later candidate on its page that fits it, and the two exchange
/// descriptions and caption numbers. Returns the swapped pairs in order.
pub fn swap_mismatched_captions(candidates: &mut Vec<CaptionSlot>) -> (pairs: Vec<(usize, usize)>)
    ensures
        pair_views(pairs@) == swap_pairs(slot_views(old(candidates)@), Set::empty(), 0),
        slot_views(final(candidates)@) == apply_swaps(
            slot_views(old(candidates)@),
            pair_views(pairs@),
        ),
        forall|k: int|
            0 <= k < pairs.len() ==> {
                let a = slot_views(final(candidates)@)[#[trigger] pairs@[k].0 as int];
                let b = slot_views(final(candidates)@)[pairs@[k].1 as int];
                &&& right_kind(a.block_type, caption_number_spec(a.desc))
                &&& right_kind(b.block_type, caption_number_spec(b.desc))
            },
{
    let ghost s0 = slot_views(candidates@);
    let n = candidates.len();
    let mut caps: Vec<Option<String>> = Vec::new();
    for k in 0..n
        invariant
            n == candidates.len(),
            candidates@ == old(candidates)@,
            s0 == slot_views(candidates@),
            caps.len() == k,
            forall|m: int| 0 <= m < k ==> opt_seq(#[trigger] caps@[m]) == caption_number_spec(s0[m].desc),
    {
        assert(s0[k as int] == slot_view(candidates@[k as int]));
        caps.push(extract_caption_number(candidates[k].desc.as_str()));
    }
    let mut taken: Vec<bool> = Vec::new();
    for k in 0..n
        invariant
            taken.len() == k,
            forall|m: int| 0 <= m < k ==> !#[trigger] taken@[m],
    {
        taken.push(false);
    }
    let ghost mut ts: Set<int> = Set::empty();
    let mut pairs: Vec<(usize, usize)> = Vec::new();
    for i in 0..n
        invariant
            n == candidates.len(),
            n == s0.len(),
            s0 == slot_views(old(candidates)@),
            caps.len() == n,
            forall|m: int| 0 <= m < n ==> opt_seq(#[trigger] caps@[m]) == caption_number_spec(s0[m].desc),
            taken.len() == n,
            forall|m: int| 0 <= m < n ==> (#[trigger] taken@[m] <==> ts.contains(m)),
            forall|m: int| #[trigger] ts.contains(m) ==> 0 <= m < n && (m < i || exists|k: int|
                0 <= k < pairs.len() && pairs@[k].1 == m),
            pair_views(pairs@) + swap_pairs(s0, ts, i as int) == swap_pairs(s0, Set::empty(), 0),
            slot_views(candidates@) == apply_swaps(s0, pair_views(pairs@)),
            forall|m: int| 0 <= m < n && !ts.contains(m) ==> #[trigger] slot_views(candidates@)[m] == s0[m],
            forall|k: int|
                0 <= k < pairs.len() ==> ts.contains(#[trigger] pairs@[k].0 as int) && ts.contains(
                    pairs@[k].1 as int,
                ) && pairs@[k].0 < n && pairs@[k].1 < n,
            forall|k: int|
                0 <= k < pairs.len() ==> {
                    let a = slot_views(candidates@)[#[trigger] pairs@[k].0 as int];
                    let b = slot_views(candidates@)[pairs@[k].1 as int];
                    &&& right_kind(a.block_type, caption_number_spec(a.desc))
                    &&& right_kind(b.block_type, caption_number_spec(b.desc))
                },
    {
        assert(slot_views(candidates@)[i as int] == slot_view(candidates@[i as int]));
        if taken[i] || !wrong_kind_exec(candidates[i].block_type.as_str(), &caps[i]) {
            assert(swap_pairs(s0, ts, i as int) == swap_pairs(s0, ts, i + 1));
        } else {
        assert(!ts.contains(i as int));
        assert(misplaced(s0[i as int]));
        let mut j = i + 1;
        let mut found = false;
        while j < n
            invariant_except_break
                i < j <= n,
                !found,
                partner(s0, ts, i as int, i + 1) == partner(s0, ts, i as int, j as int),
            invariant
                n == candidates.len(),
                n == s0.len(),
                caps.len() == n,
                forall|m: int| 0 <= m < n ==> opt_seq(#[trigger] caps@[m]) == caption_number_spec(s0[m].desc),
                taken.len() == n,
                forall|m: int| 0 <= m < n ==> (#[trigger] taken@[m] <==> ts.contains(m)),
                forall|m: int| 0 <= m < n && !ts.contains(m) ==> #[trigger] slot_views(candidates@)[m] == s0[m],
                !ts.contains(i as int),
                misplaced(s0[i as int]),
            ensures
                found ==> i < j < n && partner(s0, ts, i as int, i + 1) == Some(j as int),
                !found ==> partner(s0, ts, i as int, i + 1) is None,
            decreases n - j,
        {
            assert(slot_views(candidates@)[j as int] == slot_view(candidates@[j as int]));
            assert(slot_views(candidates@)[i as int] == slot_view(candidates@[i as int]));
            assert(slot_views(candidates@)[i as int] == s0[i as int]);
            let fits = !taken[j] && candidates[i].page_idx == candidates[j].page_idx
                && wrong_kind_exec(candidates[j].block_type.as_str(), &caps[j]) && right_kind_exec(
                candidates[i].block_type.as_str(),
                &caps[j],
            ) && right_kind_exec(candidates[j].block_type.as_str(), &caps[i]);
            proof {
                if !ts.contains(j as int) {
                    assert(slot_views(candidates@)[j as int] == s0[j as int]);
                }
                assert(opt_seq(caps@[j as int]) == caption_number_spec(s0[j as int].desc));
                assert(opt_seq(caps@[i as int]) == caption_number_spec(s0[i as int].desc));
                assert(fits == (!ts.contains(j as int) && swappable(s0[i as int], s0[j as int])));
            }
            if fits {
                found = true;
                break;
            }
            j += 1;
        }
        if found {
            proof {
                lemma_partner_found(s0, ts, i as int, i + 1);
            }
            let ghost before = slot_views(candidates@);
            assert(before[i as int] == s0[i as int]);
            assert(before[j as int] == s0[j as int]);
            let di = candidates[i].desc.clone();
            let ki = clone_opt(&candidates[i].caption_number);
            let dj = candidates[j].desc.clone();
            let kj = clone_opt(&candidates[j].caption_number);
            candidates[i].desc = dj;
            candidates[i].caption_number = kj;
            candidates[j].desc = di;
            candidates[j].caption_number = ki;
            assert(slot_views(candidates@) =~= exchange(before, i as int, j as int));
            proof {
                lemma_apply_swaps_push(s0, pair_views(pairs@), (i as int, j as int));
            }
            let ghost old_ts = ts;
            let ghost old_pairs = pairs@;
            pairs.push((i, j));
            taken.set(i, true);
            taken.set(j, true);
            proof {
                ts = ts.insert(i as int).insert(j as int);
                assert(pair_views(pairs@) =~= pair_views(old_pairs).push((i as int, j as int)));
                assert(swap_pairs(s0, old_ts, i as int) == seq![(i as int, j as int)] + swap_pairs(
                    s0,
                    ts,
                    i + 1,
                ));
                assert(pair_views(pairs@) + swap_pairs(s0, ts, i + 1) =~= pair_views(old_pairs) + (
                seq![(i as int, j as int)] + swap_pairs(s0, ts, i + 1)));
                assert forall|k: int| 0 <= k < pairs.len() implies {
                    let a = slot_views(candidates@)[#[trigger] pairs@[k].0 as int];
                    let b = slot_views(candidates@)[pairs@[k].1 as int];
                    &&& right_kind(a.block_type, caption_number_spec(a.desc))
                    &&& right_kind(b.block_type, caption_number_spec(b.desc))
                } by {
                    if k < old_pairs.len() {
                        assert(pairs@[k] == old_pairs[k]);
                        assert(old_ts.contains(old_pairs[k].0 as int));
                        assert(old_ts.contains(old_pairs[k].1 as int));
                        assert(slot_views(candidates@)[old_pairs[k].0 as int] == before[old_pairs[k].0 as int]);
                        assert(slot_views(candidates@)[old_pairs[k].1 as int] == before[old_pairs[k].1 as int]);
                    } else {
                        assert(pairs@[k] == (i, j));
                        assert(slot_views(candidates@)[i as int].desc == s0[j as int].desc);
                        assert(slot_views(candidates@)[j as int].desc == s0[i as int].desc);
                    }
                }
                assert forall|m: int| #[trigger] ts.contains(m) implies 0 <= m < n && (m < i + 1
                    || exists|k: int| 0 <= k < pairs.len() && pairs@[k].1 == m) by {
                    if old_ts.contains(m) {
                        if m >= i + 1 {
                            let k = choose|k: int| 0 <= k < old_pairs.len() && old_pairs[k].1 == m;
                            assert(pairs@[k] == old_pairs[k]);
                        }
                    } else if m == j {
                        assert(pairs@[pairs.len() - 1].1 == m);
                    }
                }
            }
        } else {
            assert(swap_pairs(s0, ts, i as int) == swap_pairs(s0, ts, i + 1));
        }
        }
    }
    assert(swap_pairs(s0, ts, n as int) =~= Seq::<(int, int)>::empty());
    assert(pair_views(pairs@) + swap_pairs(s0, ts, n as int) =~= pair_views(pairs@));
    pairs
}

} // verus!

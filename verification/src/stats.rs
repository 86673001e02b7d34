//! Summaries of the paper catalogue built from query results: the tree of
//! publication dates (year, month, day) with paper counts, and the tag
//! dashboard.
use vstd::prelude::*;
use crate::chars::{at_boundary, byte_len, byte_slice, chars_eq, str_byte_slice, string_from_chars, to_chars};
use crate::order::{chars_lt, lemma_str_lt_irreflexive, lemma_str_lt_total, lemma_str_lt_transitive, str_lt};

verus! {

/// A node of the date tree: a year, a month or a day, with its paper count.
#[derive(Debug)]
pub struct DateTreeNode {
    pub label: String,
    pub count: usize,
    pub children: Vec<DateTreeNode>,
}

/// Counts of the tag dashboard.
#[derive(Debug)]
pub struct TagsDashboard {
    pub tags: Vec<(String, usize)>,
    pub orphan_count: usize,
    pub uninteresting_count: usize,
    pub disinterest_tags: Vec<(String, usize)>,
    pub interest_tags: Vec<String>,
}

// ---------------------------------------------------------------------------
// Dates and their keys.
// ---------------------------------------------------------------------------

/// A date text `YYYY-MM-DD...` whose year, month and day can be cut out at
/// bytes 0..4, 5..7 and 8..10.
pub open spec fn valid_date(d: Seq<char>) -> bool {
    &&& byte_len(d) >= 10
    &&& at_boundary(d, 4)
    &&& at_boundary(d, 5)
    &&& at_boundary(d, 7)
    &&& at_boundary(d, 8)
    &&& at_boundary(d, 10)
}

pub open spec fn year_of(d: Seq<char>) -> Seq<char> {
    byte_slice(d, 0, 4)
}

pub open spec fn month_of(d: Seq<char>) -> Seq<char> {
    byte_slice(d, 5, 7)
}

pub open spec fn day_of(d: Seq<char>) -> Seq<char> {
    byte_slice(d, 8, 10)
}

/// The rows of a date query: a date and the number of papers on it.
pub open spec fn row_views(rows: Seq<(String, i64)>) -> Seq<(Seq<char>, int)> {
    rows.map_values(|r: (String, i64)| (r.0@, r.1 as int))
}

/// Sum of all counts.
pub open spec fn total_count(rs: Seq<(Seq<char>, int)>) -> int
    decreases rs.len(),
{
    if rs.len() == 0 {
        0
    } else {
        rs[0].1 + total_count(rs.skip(1))
    }
}

/// Sum of the counts of the rows in year `y` and month `m`.
pub open spec fn month_count(rs: Seq<(Seq<char>, int)>, y: Seq<char>, m: Seq<char>) -> int
    decreases rs.len(),
{
    if rs.len() == 0 {
        0
    } else {
        (if year_of(rs[0].0) == y && month_of(rs[0].0) == m { rs[0].1 } else { 0 })
            + month_count(rs.skip(1), y, m)
    }
}

/// Sum of the counts of the rows in year `y` whose month is in `ms`.
pub open spec fn months_count(rs: Seq<(Seq<char>, int)>, y: Seq<char>, ms: Set<Seq<char>>) -> int
    decreases rs.len(),
{
    if rs.len() == 0 {
        0
    } else {
        (if year_of(rs[0].0) == y && ms.contains(month_of(rs[0].0)) { rs[0].1 } else { 0 })
            + months_count(rs.skip(1), y, ms)
    }
}

/// The days of year `y` and month `m` with their counts, last row first.
pub open spec fn day_entries(rs: Seq<(Seq<char>, int)>, y: Seq<char>, m: Seq<char>) -> Seq<(Seq<char>, int)>
    decreases rs.len(),
{
    if rs.len() == 0 {
        Seq::empty()
    } else {
        let rest = day_entries(rs.skip(1), y, m);
        if year_of(rs[0].0) == y && month_of(rs[0].0) == m {
            rest.push((day_of(rs[0].0), rs[0].1))
        } else {
            rest
        }
    }
}

/// The years that occur in the rows.
pub open spec fn years_in(rs: Seq<(Seq<char>, int)>) -> Set<Seq<char>> {
    Set::new(|y: Seq<char>| exists|i: int| 0 <= i < rs.len() && year_of(#[trigger] rs[i].0) == y)
}

/// The months that occur in year `y`.
pub open spec fn months_in(rs: Seq<(Seq<char>, int)>, y: Seq<char>) -> Set<Seq<char>> {
    Set::new(
        |m: Seq<char>|
            exists|i: int| 0 <= i < rs.len() && year_of(#[trigger] rs[i].0) == y && month_of(rs[i].0) == m,
    )
}

/// `keys` lists the set `s` from the greatest to the least, each once.
pub open spec fn desc_listing(keys: Seq<Seq<char>>, s: Set<Seq<char>>) -> bool {
    &&& forall|a: int, b: int| 0 <= a < b < keys.len() ==> str_lt(#[trigger] keys[b], #[trigger] keys[a])
    &&& forall|k: int| 0 <= k < keys.len() ==> s.contains(#[trigger] keys[k])
    &&& forall|x: Seq<char>| #[trigger] s.contains(x) ==> keys.contains(x)
}

pub open spec fn labels(nodes: Seq<DateTreeNode>) -> Seq<Seq<char>> {
    nodes.map_values(|n: DateTreeNode| n.label@)
}

/// Sum of the counts of the nodes.
pub open spec fn node_sum(nodes: Seq<DateTreeNode>) -> int
    decreases nodes.len(),
{
    if nodes.len() == 0 {
        0
    } else {
        node_sum(nodes.drop_last()) + nodes.last().count
    }
}

pub open spec fn day_views(nodes: Seq<DateTreeNode>) -> Seq<(Seq<char>, int)> {
    nodes.map_values(|n: DateTreeNode| (n.label@, n.count as int))
}

/// A month node: its days are those of the rows of its year and month,
/// last row first, without children; its count is their sum.
pub open spec fn month_node_ok(rs: Seq<(Seq<char>, int)>, y: Seq<char>, mn: DateTreeNode) -> bool {
    &&& day_views(mn.children@) == day_entries(rs, y, mn.label@)
    &&& forall|d: int| 0 <= d < mn.children@.len() ==> (#[trigger] mn.children@[d]).children@.len() == 0
    &&& mn.count == node_sum(mn.children@)
}

/// A year node: its months are those of its year, the latest first; its
/// count is their sum.
pub open spec fn year_node_ok(rs: Seq<(Seq<char>, int)>, yn: DateTreeNode) -> bool {
    &&& desc_listing(labels(yn.children@), months_in(rs, yn.label@))
    &&& forall|k: int| 0 <= k < yn.children@.len() ==> month_node_ok(rs, yn.label@, #[trigger] yn.children@[k])
    &&& yn.count == node_sum(yn.children@)
}

// ---------------------------------------------------------------------------
// Lemmas on the sums.
// ---------------------------------------------------------------------------

proof fn lemma_month_count_le(rs: Seq<(Seq<char>, int)>, y: Seq<char>, m: Seq<char>)
    requires
        forall|i: int| 0 <= i < rs.len() ==> (#[trigger] rs[i]).1 >= 0,
    ensures
        0 <= month_count(rs, y, m) <= total_count(rs),
    decreases rs.len(),
{
    if rs.len() > 0 {
        assert forall|i: int| 0 <= i < rs.skip(1).len() implies (#[trigger] rs.skip(1)[i]).1 >= 0 by {
            assert(rs.skip(1)[i] == rs[i + 1]);
        }
        lemma_month_count_le(rs.skip(1), y, m);
        assert(rs[0].1 >= 0);
    }
}

proof fn lemma_months_count_le(rs: Seq<(Seq<char>, int)>, y: Seq<char>, ms: Set<Seq<char>>)
    requires
        forall|i: int| 0 <= i < rs.len() ==> (#[trigger] rs[i]).1 >= 0,
    ensures
        0 <= months_count(rs, y, ms) <= total_count(rs),
    decreases rs.len(),
{
    if rs.len() > 0 {
        assert forall|i: int| 0 <= i < rs.skip(1).len() implies (#[trigger] rs.skip(1)[i]).1 >= 0 by {
            assert(rs.skip(1)[i] == rs[i + 1]);
        }
        lemma_months_count_le(rs.skip(1), y, ms);
        assert(rs[0].1 >= 0);
    }
}

proof fn lemma_months_count_insert(rs: Seq<(Seq<char>, int)>, y: Seq<char>, ms: Set<Seq<char>>, m: Seq<char>)
    requires
        !ms.contains(m),
    ensures
        months_count(rs, y, ms.insert(m)) == months_count(rs, y, ms) + month_count(rs, y, m),
    decreases rs.len(),
{
    if rs.len() > 0 {
        lemma_months_count_insert(rs.skip(1), y, ms, m);
    }
}

proof fn lemma_months_count_empty(rs: Seq<(Seq<char>, int)>, y: Seq<char>)
    ensures
        months_count(rs, y, Set::empty()) == 0,
    decreases rs.len(),
{
    if rs.len() > 0 {
        lemma_months_count_empty(rs.skip(1), y);
    }
}

proof fn lemma_total_suffix(rs: Seq<(Seq<char>, int)>, j: int)
    requires
        0 <= j <= rs.len(),
        forall|i: int| 0 <= i < rs.len() ==> (#[trigger] rs[i]).1 >= 0,
    ensures
        total_count(rs.subrange(j, rs.len() as int)) <= total_count(rs),
    decreases j,
{
    if j == 0 {
        assert(rs.subrange(0, rs.len() as int) =~= rs);
    } else {
        lemma_total_suffix(rs, j - 1);
        let s = rs.subrange(j - 1, rs.len() as int);
        assert(s.skip(1) =~= rs.subrange(j, rs.len() as int));
        assert(s[0] == rs[j - 1]);
    }
}

// ---------------------------------------------------------------------------
// Listing keys from the greatest to the least.
// ---------------------------------------------------------------------------

pub open spec fn key_views(v: Seq<Vec<char>>) -> Seq<Seq<char>> {
    v.map_values(|k: Vec<char>| k@)
}

/// The keys picked by `pick`, as a set.
pub open spec fn picked(keys: Seq<Seq<char>>, pick: Seq<bool>, n: int) -> Set<Seq<char>> {
    Set::new(|x: Seq<char>| exists|i: int| 0 <= i < n && pick[i] && #[trigger] keys[i] == x)
}

/// Adds `k` to a greatest-first listing unless it is there.
fn insert_desc(list: &mut Vec<Vec<char>>, k: Vec<char>)
    requires
        forall|a: int, b: int| 0 <= a < b < old(list).len() ==> str_lt(#[trigger] key_views(old(list)@)[b], #[trigger] key_views(old(list)@)[a]),
    ensures
        forall|a: int, b: int| 0 <= a < b < final(list).len() ==> str_lt(#[trigger] key_views(final(list)@)[b], #[trigger] key_views(final(list)@)[a]),
        key_views(final(list)@).to_set() == key_views(old(list)@).to_set().insert(k@),
{
    let ghost old_keys = key_views(list@);
    let mut p: usize = 0;
    while p < list.len() && chars_lt(&k, &list[p])
        invariant
            p <= list.len(),
            key_views(list@) == old_keys,
            forall|q: int| 0 <= q < p ==> str_lt(k@, #[trigger] old_keys[q]),
        decreases list.len() - p,
    {
        assert(old_keys[p as int] == list@[p as int]@);
        p += 1;
    }
    if p < list.len() && chars_eq(&list[p], &k) {
        assert(old_keys[p as int] == k@);
        assert(old_keys.to_set() =~= old_keys.to_set().insert(k@)) by {
            assert(old_keys.contains(k@));
        }
        return;
    }
    proof {
        if p < list.len() {
            assert(old_keys[p as int] == list@[p as int]@);
            lemma_str_lt_total(k@, old_keys[p as int]);
        }
    }
    let ghost kv = k@;
    list.insert(p, k);
    let ghost nk = key_views(list@);
    assert(nk =~= old_keys.insert(p as int, kv));
    proof {
        assert forall|a: int, b: int| 0 <= a < b < nk.len() implies str_lt(#[trigger] nk[b], #[trigger] nk[a]) by {
            if b < p {
            } else if b == p {
                assert(nk[a] == old_keys[a]);
            } else if a == p {
                assert(nk[b] == old_keys[b - 1]);
                if b - 1 > p {
                    lemma_str_lt_transitive(old_keys[b - 1], old_keys[p as int], kv);
                }
            } else if a < p {
                assert(nk[a] == old_keys[a]);
                assert(nk[b] == old_keys[b - 1]);
                if a < b - 1 {
                } else {
                }
            } else {
                assert(nk[a] == old_keys[a - 1]);
                assert(nk[b] == old_keys[b - 1]);
            }
        }
        assert forall|x: Seq<char>| nk.to_set().contains(x) == old_keys.to_set().insert(kv).contains(x) by {
            if old_keys.contains(x) {
                let q = choose|q: int| 0 <= q < old_keys.len() && old_keys[q] == x;
                if q < p {
                    assert(nk[q] == x);
                } else {
                    assert(nk[q + 1] == x);
                }
            }
            if nk.contains(x) {
                let q = choose|q: int| 0 <= q < nk.len() && nk[q] == x;
                if q < p {
                    assert(old_keys[q] == x);
                } else if q > p {
                    assert(old_keys[q - 1] == x);
                }
            }
            if x == kv {
                assert(nk[p as int] == kv);
            }
        }
        assert(nk.to_set() =~= old_keys.to_set().insert(kv));
    }
}

/// The picked keys, the greatest first, each once.
fn desc_keys(keys: &Vec<Vec<char>>, pick: &Vec<bool>) -> (r: Vec<Vec<char>>)
    requires
        pick.len() == keys.len(),
    ensures
        desc_listing(key_views(r@), picked(key_views(keys@), pick@, keys.len() as int)),
{
    let ghost kv = key_views(keys@);
    let mut r: Vec<Vec<char>> = Vec::new();
    let mut i: usize = 0;
    assert(key_views(r@).to_set() =~= picked(kv, pick@, 0));
    while i < keys.len()
        invariant
            i <= keys.len() == pick.len(),
            kv == key_views(keys@),
            forall|a: int, b: int| 0 <= a < b < r.len() ==> str_lt(#[trigger] key_views(r@)[b], #[trigger] key_views(r@)[a]),
            key_views(r@).to_set() == picked(kv, pick@, i as int),
        decreases keys.len() - i,
    {
        let ghost before = key_views(r@).to_set();
        if pick[i] {
            insert_desc(&mut r, keys[i].clone());
            assert(keys@[i as int]@ == kv[i as int]);
        }
        assert(key_views(r@).to_set() =~= picked(kv, pick@, i + 1)) by {
            assert forall|x: Seq<char>| #[trigger] picked(kv, pick@, i + 1).contains(x) implies picked(kv, pick@, i as int).contains(x) || (pick@[i as int] && x == kv[i as int]) by {
                let q = choose|q: int| 0 <= q < i + 1 && pick@[q] && #[trigger] kv[q] == x;
                if q < i {
                    assert(picked(kv, pick@, i as int).contains(x));
                }
            }
            assert forall|x: Seq<char>| #[trigger] picked(kv, pick@, i as int).contains(x) implies picked(kv, pick@, i + 1).contains(x) by {
                let q = choose|q: int| 0 <= q < i && pick@[q] && #[trigger] kv[q] == x;
                assert(0 <= q < i + 1 && pick@[q] && kv[q] == x);
            }
            if pick@[i as int] {
                assert(0 <= i < i + 1 && pick@[i as int] && kv[i as int] == kv[i as int]);
                assert(picked(kv, pick@, i + 1).contains(kv[i as int]));
            }
        }
        i += 1;
    }
    proof {
        let rv = key_views(r@);
        assert forall|k: int| 0 <= k < rv.len() implies picked(kv, pick@, keys.len() as int).contains(#[trigger] rv[k]) by {
            assert(rv.to_set().contains(rv[k]));
        }
        assert forall|x: Seq<char>| #[trigger] picked(kv, pick@, keys.len() as int).contains(x) implies rv.contains(x) by {
            assert(rv.to_set().contains(x));
        }
    }
    r
}

// ---------------------------------------------------------------------------
// The date tree.
// ---------------------------------------------------------------------------

/// The rows are well formed: every date can be cut and no count is negative.
pub open spec fn rows_ok(rows: Seq<(String, i64)>) -> bool {
    forall|i: int| 0 <= i < rows.len() ==> valid_date((#[trigger] rows[i]).0@) && rows[i].1 >= 0
}

/// The year, month and day keys cut out of each row.
pub open spec fn keys_ok(rs: Seq<(Seq<char>, int)>, ys: Seq<Vec<char>>, ms: Seq<Vec<char>>, ds: Seq<Vec<char>>) -> bool {
    &&& ys.len() == rs.len()
    &&& ms.len() == rs.len()
    &&& ds.len() == rs.len()
    &&& forall|i: int| 0 <= i < rs.len() ==> (#[trigger] ys[i])@ == year_of(rs[i].0)
    &&& forall|i: int| 0 <= i < rs.len() ==> (#[trigger] ms[i])@ == month_of(rs[i].0)
    &&& forall|i: int| 0 <= i < rs.len() ==> (#[trigger] ds[i])@ == day_of(rs[i].0)
}

fn row_keys(rows: &Vec<(String, i64)>) -> (r: (Vec<Vec<char>>, Vec<Vec<char>>, Vec<Vec<char>>))
    requires
        rows_ok(rows@),
    ensures
        keys_ok(row_views(rows@), r.0@, r.1@, r.2@),
{
    let ghost rs = row_views(rows@);
    let mut ys: Vec<Vec<char>> = Vec::new();
    let mut ms: Vec<Vec<char>> = Vec::new();
    let mut ds: Vec<Vec<char>> = Vec::new();
    for i in 0..rows.len()
        invariant
            rs == row_views(rows@),
            rows_ok(rows@),
            ys.len() == i,
            ms.len() == i,
            ds.len() == i,
            forall|j: int| 0 <= j < i ==> (#[trigger] ys@[j])@ == year_of(rs[j].0),
            forall|j: int| 0 <= j < i ==> (#[trigger] ms@[j])@ == month_of(rs[j].0),
            forall|j: int| 0 <= j < i ==> (#[trigger] ds@[j])@ == day_of(rs[j].0),
    {
        let d = rows[i].0.as_str();
        assert(rs[i as int].0 == d@);
        assert(valid_date(rows@[i as int].0@));
        proof {
            vstd::utf8::encode_utf8_valid_utf8(d@);
            vstd::utf8::is_char_boundary_start_end_of_seq(vstd::utf8::encode_utf8(d@));
        }
        ys.push(to_chars(str_byte_slice(d, 0, 4)));
        ms.push(to_chars(str_byte_slice(d, 5, 7)));
        ds.push(to_chars(str_byte_slice(d, 8, 10)));
    }
    (ys, ms, ds)
}

/// The day nodes of year `y` and month `m`, last row first, and their sum.
fn month_days(rows: &Vec<(String, i64)>, ys: &Vec<Vec<char>>, ms: &Vec<Vec<char>>, ds: &Vec<Vec<char>>, y: &Vec<char>, m: &Vec<char>) -> (r: (Vec<DateTreeNode>, usize))
    requires
        rows_ok(rows@),
        keys_ok(row_views(rows@), ys@, ms@, ds@),
        total_count(row_views(rows@)) <= usize::MAX,
    ensures
        day_views(r.0@) == day_entries(row_views(rows@), y@, m@),
        forall|d: int| 0 <= d < r.0@.len() ==> (#[trigger] r.0@[d]).children@.len() == 0,
        r.1 == node_sum(r.0@),
        r.1 == month_count(row_views(rows@), y@, m@),
{
    let ghost rs = row_views(rows@);
    let n = rows.len();
    let mut days: Vec<DateTreeNode> = Vec::new();
    let mut total: usize = 0;
    let mut j = n;
    proof {
        assert forall|i: int| 0 <= i < rs.len() implies (#[trigger] rs[i]).1 >= 0 by {
            assert(rows@[i].1 >= 0);
        }
    }
    assert(rs.subrange(n as int, n as int) =~= Seq::<(Seq<char>, int)>::empty());
    while j > 0
        invariant
            rs == row_views(rows@),
            rows_ok(rows@),
            keys_ok(rs, ys@, ms@, ds@),
            total_count(rs) <= usize::MAX,
            forall|i: int| 0 <= i < rs.len() ==> (#[trigger] rs[i]).1 >= 0,
            n == rows.len(),
            j <= n,
            day_views(days@) == day_entries(rs.subrange(j as int, n as int), y@, m@),
            forall|d: int| 0 <= d < days@.len() ==> (#[trigger] days@[d]).children@.len() == 0,
            total == node_sum(days@),
            total == month_count(rs.subrange(j as int, n as int), y@, m@),
        decreases j,
    {
        j -= 1;
        let ghost sub = rs.subrange(j as int, n as int);
        assert(sub.skip(1) =~= rs.subrange(j + 1, n as int));
        assert(sub[0] == rs[j as int]);
        proof {
            assert forall|i: int| 0 <= i < sub.len() implies (#[trigger] sub[i]).1 >= 0 by {
                assert(sub[i] == rs[i + j]);
            }
            lemma_month_count_le(sub, y@, m@);
            lemma_total_suffix(rs, j as int);
        }
        assert(ys@[j as int]@ == year_of(rs[j as int].0));
        assert(ms@[j as int]@ == month_of(rs[j as int].0));
        if chars_eq(&ys[j], y) && chars_eq(&ms[j], m) {
            assert(rs[j as int] == (rows@[j as int].0@, rows@[j as int].1 as int));
            let c = rows[j].1 as usize;
            let ghost before = days@;
            let node = DateTreeNode { label: string_from_chars(&ds[j]), count: c, children: Vec::new() };
            assert(ds@[j as int]@ == day_of(rs[j as int].0));
            days.push(node);
            assert(days@.drop_last() =~= before);
            assert(day_views(days@) =~= day_views(before).push((day_of(rs[j as int].0), rs[j as int].1)));
            total = total + c;
        }
    }
    assert(rs.subrange(0, n as int) =~= rs);
    (days, total)
}

/// The month nodes of year `y`, the latest month first, and their sum.
fn year_months(rows: &Vec<(String, i64)>, ys: &Vec<Vec<char>>, ms: &Vec<Vec<char>>, ds: &Vec<Vec<char>>, y: &Vec<char>) -> (r: (Vec<DateTreeNode>, usize))
    requires
        rows_ok(rows@),
        keys_ok(row_views(rows@), ys@, ms@, ds@),
        total_count(row_views(rows@)) <= usize::MAX,
    ensures
        desc_listing(labels(r.0@), months_in(row_views(rows@), y@)),
        forall|k: int| 0 <= k < r.0@.len() ==> month_node_ok(row_views(rows@), y@, #[trigger] r.0@[k]),
        r.1 == node_sum(r.0@),
{
    let ghost rs = row_views(rows@);
    let n = rows.len();
    let mut pick: Vec<bool> = Vec::new();
    for i in 0..n
        invariant
            n == rows.len(),
            keys_ok(rs, ys@, ms@, ds@),
            rs == row_views(rows@),
            pick.len() == i,
            forall|q: int| 0 <= q < i ==> (#[trigger] pick@[q]) == (year_of(rs[q].0) == y@),
    {
        assert(ys@[i as int]@ == year_of(rs[i as int].0));
        pick.push(chars_eq(&ys[i], y));
    }
    let months = desc_keys(ms, &pick);
    let ghost mk_views = key_views(months@);
    proof {
        let pk = picked(key_views(ms@), pick@, n as int);
        assert forall|x: Seq<char>| pk.contains(x) == months_in(rs, y@).contains(x) by {
            if pk.contains(x) {
                let q = choose|q: int| 0 <= q < n && pick@[q] && #[trigger] key_views(ms@)[q] == x;
                assert(ms@[q]@ == month_of(rs[q].0));
                assert(year_of(rs[q].0) == y@ && month_of(rs[q].0) == x);
            }
            if months_in(rs, y@).contains(x) {
                let q = choose|q: int| 0 <= q < rs.len() && year_of(#[trigger] rs[q].0) == y@ && month_of(rs[q].0) == x;
                assert(ms@[q]@ == month_of(rs[q].0));
                assert(pick@[q]);
                assert(key_views(ms@)[q] == x);
            }
        }
        assert(pk =~= months_in(rs, y@));
        assert forall|i: int| 0 <= i < rs.len() implies (#[trigger] rs[i]).1 >= 0 by {
            assert(rows@[i].1 >= 0);
        }
        lemma_months_count_empty(rs, y@);
        assert(mk_views.take(0).to_set() =~= Set::<Seq<char>>::empty());
    }
    let mut nodes: Vec<DateTreeNode> = Vec::new();
    let mut total: usize = 0;
    for k in 0..months.len()
        invariant
            rs == row_views(rows@),
            rows_ok(rows@),
            keys_ok(rs, ys@, ms@, ds@),
            total_count(rs) <= usize::MAX,
            forall|i: int| 0 <= i < rs.len() ==> (#[trigger] rs[i]).1 >= 0,
            mk_views == key_views(months@),
            desc_listing(mk_views, months_in(rs, y@)),
            nodes.len() == k,
            forall|q: int| 0 <= q < k ==> (#[trigger] nodes@[q]).label@ == mk_views[q],
            forall|q: int| 0 <= q < k ==> month_node_ok(rs, y@, #[trigger] nodes@[q]),
            total == node_sum(nodes@),
            total == months_count(rs, y@, mk_views.take(k as int).to_set()),
    {
        let (days, mtotal) = month_days(rows, ys, ms, ds, y, &months[k]);
        assert(months@[k as int]@ == mk_views[k as int]);
        proof {
            let done = mk_views.take(k as int).to_set();
            assert(!done.contains(mk_views[k as int])) by {
                if done.contains(mk_views[k as int]) {
                    let q = choose|q: int| 0 <= q < k && #[trigger] mk_views.take(k as int)[q] == mk_views[k as int];
                    assert(mk_views.take(k as int)[q] == mk_views[q]);
                    assert(str_lt(mk_views[k as int], mk_views[q]));
                    lemma_str_lt_irreflexive(mk_views[k as int]);
                }
            }
            lemma_months_count_insert(rs, y@, done, mk_views[k as int]);
            assert(mk_views.take(k + 1).to_set() =~= done.insert(mk_views[k as int])) by {
                let t1 = mk_views.take(k + 1);
                let t0 = mk_views.take(k as int);
                assert forall|x: Seq<char>| t1.contains(x) == (t0.contains(x) || x == mk_views[k as int]) by {
                    if t1.contains(x) {
                        let q = choose|q: int| 0 <= q < t1.len() && t1[q] == x;
                        if q < k {
                            assert(t0[q] == x);
                        }
                    }
                    if t0.contains(x) {
                        let q = choose|q: int| 0 <= q < t0.len() && t0[q] == x;
                        assert(t1[q] == x);
                    }
                    if x == mk_views[k as int] {
                        assert(t1[k as int] == x);
                    }
                }
            }
            lemma_months_count_le(rs, y@, mk_views.take(k + 1).to_set());
        }
        let ghost before = nodes@;
        let node = DateTreeNode { label: string_from_chars(&months[k]), count: mtotal, children: days };
        nodes.push(node);
        assert(nodes@.drop_last() =~= before);
        total = total + mtotal;
    }
    proof {
        assert(labels(nodes@) =~= mk_views);
    }
    (nodes, total)
}

/// The tree of publication dates: the years, the latest first; in each year
/// its months, the latest first; in each month its days, the last row first.
/// A day counts its row, a month and a year the nodes under them.
pub fn build_date_tree(rows: &Vec<(String, i64)>) -> (r: Vec<DateTreeNode>)
    requires
        rows_ok(rows@),
        total_count(row_views(rows@)) <= usize::MAX,
    ensures
        desc_listing(labels(r@), years_in(row_views(rows@))),
        forall|k: int| 0 <= k < r@.len() ==> year_node_ok(row_views(rows@), #[trigger] r@[k]),
        node_sum(r@) == total_count(row_views(rows@)),
{
    let ghost rs = row_views(rows@);
    let (ys, ms, ds) = row_keys(rows);
    let n = rows.len();
    let mut all: Vec<bool> = Vec::new();
    for i in 0..n
        invariant
            all.len() == i,
            forall|q: int| 0 <= q < i ==> #[trigger] all@[q],
    {
        all.push(true);
    }
    let years = desc_keys(&ys, &all);
    let ghost yk_views = key_views(years@);
    proof {
        let pk = picked(key_views(ys@), all@, n as int);
        assert forall|x: Seq<char>| pk.contains(x) == years_in(rs).contains(x) by {
            if pk.contains(x) {
                let q = choose|q: int| 0 <= q < n && all@[q] && #[trigger] key_views(ys@)[q] == x;
                assert(ys@[q]@ == year_of(rs[q].0));
            }
            if years_in(rs).contains(x) {
                let q = choose|q: int| 0 <= q < rs.len() && year_of(#[trigger] rs[q].0) == x;
                assert(ys@[q]@ == year_of(rs[q].0));
                assert(all@[q]);
                assert(key_views(ys@)[q] == x);
            }
        }
        assert(pk =~= years_in(rs));
    }
    let mut result: Vec<DateTreeNode> = Vec::new();
    for k in 0..years.len()
        invariant
            rs == row_views(rows@),
            rows_ok(rows@),
            keys_ok(rs, ys@, ms@, ds@),
            total_count(rs) <= usize::MAX,
            yk_views == key_views(years@),
            result.len() == k,
            forall|q: int| 0 <= q < k ==> (#[trigger] result@[q]).label@ == yk_views[q],
            forall|q: int| 0 <= q < k ==> year_node_ok(rs, #[trigger] result@[q]),
    {
        let (months, total) = year_months(rows, &ys, &ms, &ds, &years[k]);
        assert(years@[k as int]@ == yk_views[k as int]);
        let node = DateTreeNode { label: string_from_chars(&years[k]), count: total, children: months };
        result.push(node);
    }
    proof {
        assert(labels(result@) =~= yk_views);
        date_tree_counts_every_paper(rs, result@);
    }
    result
}

// ---------------------------------------------------------------------------
// Every paper is counted once.
// ---------------------------------------------------------------------------

/// Sum of the counts of the rows in year `y`.
pub open spec fn year_count(rs: Seq<(Seq<char>, int)>, y: Seq<char>) -> int
    decreases rs.len(),
{
    if rs.len() == 0 {
        0
    } else {
        (if year_of(rs[0].0) == y { rs[0].1 } else { 0 }) + year_count(rs.skip(1), y)
    }
}

/// Sum of the counts of the rows whose year is in `ys`.
pub open spec fn years_count(rs: Seq<(Seq<char>, int)>, ys: Set<Seq<char>>) -> int
    decreases rs.len(),
{
    if rs.len() == 0 {
        0
    } else {
        (if ys.contains(year_of(rs[0].0)) { rs[0].1 } else { 0 }) + years_count(rs.skip(1), ys)
    }
}

pub open spec fn entries_sum(e: Seq<(Seq<char>, int)>) -> int
    decreases e.len(),
{
    if e.len() == 0 {
        0
    } else {
        entries_sum(e.drop_last()) + e.last().1
    }
}

proof fn lemma_node_sum_views(nodes: Seq<DateTreeNode>)
    ensures
        node_sum(nodes) == entries_sum(day_views(nodes)),
    decreases nodes.len(),
{
    if nodes.len() > 0 {
        lemma_node_sum_views(nodes.drop_last());
        assert(day_views(nodes.drop_last()) =~= day_views(nodes).drop_last());
    }
}

proof fn lemma_day_entries_sum(rs: Seq<(Seq<char>, int)>, y: Seq<char>, m: Seq<char>)
    ensures
        entries_sum(day_entries(rs, y, m)) == month_count(rs, y, m),
    decreases rs.len(),
{
    if rs.len() > 0 {
        lemma_day_entries_sum(rs.skip(1), y, m);
        let rest = day_entries(rs.skip(1), y, m);
        if year_of(rs[0].0) == y && month_of(rs[0].0) == m {
            assert(rest.push((day_of(rs[0].0), rs[0].1)).drop_last() =~= rest);
        }
    }
}

/// The months of year `y` in `ms` cover every row of that year.
proof fn lemma_months_cover(rs: Seq<(Seq<char>, int)>, y: Seq<char>, ms: Set<Seq<char>>)
    requires
        forall|i: int| 0 <= i < rs.len() && year_of(#[trigger] rs[i].0) == y ==> ms.contains(month_of(rs[i].0)),
    ensures
        months_count(rs, y, ms) == year_count(rs, y),
    decreases rs.len(),
{
    if rs.len() > 0 {
        assert forall|i: int| 0 <= i < rs.skip(1).len() && year_of(#[trigger] rs.skip(1)[i].0) == y implies ms.contains(
            month_of(rs.skip(1)[i].0),
        ) by {
            assert(rs.skip(1)[i] == rs[i + 1]);
        }
        lemma_months_cover(rs.skip(1), y, ms);
    }
}

proof fn lemma_years_count_insert(rs: Seq<(Seq<char>, int)>, ys: Set<Seq<char>>, y: Seq<char>)
    requires
        !ys.contains(y),
    ensures
        years_count(rs, ys.insert(y)) == years_count(rs, ys) + year_count(rs, y),
    decreases rs.len(),
{
    if rs.len() > 0 {
        lemma_years_count_insert(rs.skip(1), ys, y);
    }
}

proof fn lemma_years_count_empty(rs: Seq<(Seq<char>, int)>)
    ensures
        years_count(rs, Set::empty()) == 0,
    decreases rs.len(),
{
    if rs.len() > 0 {
        lemma_years_count_empty(rs.skip(1));
    }
}

proof fn lemma_years_cover(rs: Seq<(Seq<char>, int)>, ys: Set<Seq<char>>)
    requires
        forall|i: int| 0 <= i < rs.len() ==> ys.contains(year_of(#[trigger] rs[i].0)),
    ensures
        years_count(rs, ys) == total_count(rs),
    decreases rs.len(),
{
    if rs.len() > 0 {
        assert forall|i: int| 0 <= i < rs.skip(1).len() implies ys.contains(year_of(#[trigger] rs.skip(1)[i].0)) by {
            assert(rs.skip(1)[i] == rs[i + 1]);
        }
        assert(ys.contains(year_of(rs[0].0)));
        lemma_years_cover(rs.skip(1), ys);
    }
}

/// The sum of the counts of `nodes`, when each node counts the rows of its
/// label and the labels are listed greatest first, is the count of the rows
/// whose key is among the labels.
proof fn lemma_month_nodes_sum(rs: Seq<(Seq<char>, int)>, y: Seq<char>, nodes: Seq<DateTreeNode>)
    requires
        forall|a: int, b: int| 0 <= a < b < nodes.len() ==> str_lt(#[trigger] labels(nodes)[b], #[trigger] labels(nodes)[a]),
        forall|k: int| 0 <= k < nodes.len() ==> (#[trigger] nodes[k]).count == month_count(rs, y, nodes[k].label@),
    ensures
        node_sum(nodes) == months_count(rs, y, labels(nodes).to_set()),
    decreases nodes.len(),
{
    let l = labels(nodes);
    if nodes.len() == 0 {
        lemma_months_count_empty(rs, y);
        assert(l.to_set() =~= Set::<Seq<char>>::empty());
    } else {
        let d = nodes.drop_last();
        let ld = labels(d);
        assert(ld =~= l.drop_last());
        assert forall|a: int, b: int| 0 <= a < b < d.len() implies str_lt(#[trigger] labels(d)[b], #[trigger] labels(d)[a]) by {
            assert(labels(d)[b] == l[b] && labels(d)[a] == l[a]);
        }
        assert forall|k: int| 0 <= k < d.len() implies (#[trigger] d[k]).count == month_count(rs, y, d[k].label@) by {
            assert(d[k] == nodes[k]);
        }
        lemma_month_nodes_sum(rs, y, d);
        let last = nodes.last();
        assert(last == nodes[nodes.len() - 1]);
        assert(!ld.to_set().contains(last.label@)) by {
            if ld.to_set().contains(last.label@) {
                let q = choose|q: int| 0 <= q < ld.len() && ld[q] == last.label@;
                assert(l[q] == ld[q]);
                assert(l[nodes.len() - 1] == last.label@);
                assert(str_lt(l[nodes.len() - 1], l[q]));
                lemma_str_lt_irreflexive(last.label@);
            }
        }
        lemma_months_count_insert(rs, y, ld.to_set(), last.label@);
        assert(l.to_set() =~= ld.to_set().insert(last.label@)) by {
            assert forall|x: Seq<char>| l.contains(x) == (ld.contains(x) || x == last.label@) by {
                if l.contains(x) {
                    let q = choose|q: int| 0 <= q < l.len() && l[q] == x;
                    if q < ld.len() {
                        assert(ld[q] == x);
                    }
                }
                if ld.contains(x) {
                    let q = choose|q: int| 0 <= q < ld.len() && ld[q] == x;
                    assert(l[q] == x);
                }
                if x == last.label@ {
                    assert(l[nodes.len() - 1] == x);
                }
            }
        }
    }
}

proof fn lemma_year_nodes_sum(rs: Seq<(Seq<char>, int)>, nodes: Seq<DateTreeNode>)
    requires
        forall|a: int, b: int| 0 <= a < b < nodes.len() ==> str_lt(#[trigger] labels(nodes)[b], #[trigger] labels(nodes)[a]),
        forall|k: int| 0 <= k < nodes.len() ==> (#[trigger] nodes[k]).count == year_count(rs, nodes[k].label@),
    ensures
        node_sum(nodes) == years_count(rs, labels(nodes).to_set()),
    decreases nodes.len(),
{
    let l = labels(nodes);
    if nodes.len() == 0 {
        lemma_years_count_empty(rs);
        assert(l.to_set() =~= Set::<Seq<char>>::empty());
    } else {
        let d = nodes.drop_last();
        let ld = labels(d);
        assert(ld =~= l.drop_last());
        assert forall|a: int, b: int| 0 <= a < b < d.len() implies str_lt(#[trigger] labels(d)[b], #[trigger] labels(d)[a]) by {
            assert(labels(d)[b] == l[b] && labels(d)[a] == l[a]);
        }
        assert forall|k: int| 0 <= k < d.len() implies (#[trigger] d[k]).count == year_count(rs, d[k].label@) by {
            assert(d[k] == nodes[k]);
        }
        lemma_year_nodes_sum(rs, d);
        let last = nodes.last();
        assert(last == nodes[nodes.len() - 1]);
        assert(!ld.to_set().contains(last.label@)) by {
            if ld.to_set().contains(last.label@) {
                let q = choose|q: int| 0 <= q < ld.len() && ld[q] == last.label@;
                assert(l[q] == ld[q]);
                assert(l[nodes.len() - 1] == last.label@);
                assert(str_lt(l[nodes.len() - 1], l[q]));
                lemma_str_lt_irreflexive(last.label@);
            }
        }
        lemma_years_count_insert(rs, ld.to_set(), last.label@);
        assert(l.to_set() =~= ld.to_set().insert(last.label@)) by {
            assert forall|x: Seq<char>| l.contains(x) == (ld.contains(x) || x == last.label@) by {
                if l.contains(x) {
                    let q = choose|q: int| 0 <= q < l.len() && l[q] == x;
                    if q < ld.len() {
                        assert(ld[q] == x);
                    }
                }
                if ld.contains(x) {
                    let q = choose|q: int| 0 <= q < ld.len() && ld[q] == x;
                    assert(l[q] == x);
                }
                if x == last.label@ {
                    assert(l[nodes.len() - 1] == x);
                }
            }
        }
    }
}

/// Every paper is counted once: in a date tree of the rows, each month
/// counts the papers of its month, each year those of its year, and the
/// years together count all the papers.
pub proof fn date_tree_counts_every_paper(rs: Seq<(Seq<char>, int)>, tree: Seq<DateTreeNode>)
    requires
        desc_listing(labels(tree), years_in(rs)),
        forall|k: int| 0 <= k < tree.len() ==> year_node_ok(rs, #[trigger] tree[k]),
    ensures
        forall|k: int| 0 <= k < tree.len() ==> (#[trigger] tree[k]).count == year_count(rs, tree[k].label@),
        forall|k: int, j: int|
            0 <= k < tree.len() && 0 <= j < tree[k].children@.len() ==> (#[trigger] tree[k].children@[j]).count
                == month_count(rs, tree[k].label@, tree[k].children@[j].label@),
        node_sum(tree) == total_count(rs),
{
    assert forall|k: int, j: int|
        0 <= k < tree.len() && 0 <= j < tree[k].children@.len() implies (#[trigger] tree[k].children@[j]).count
            == month_count(rs, tree[k].label@, tree[k].children@[j].label@) by {
        let yn = tree[k];
        assert(year_node_ok(rs, yn));
        let mn = yn.children@[j];
        assert(month_node_ok(rs, yn.label@, mn));
        lemma_node_sum_views(mn.children@);
        lemma_day_entries_sum(rs, yn.label@, mn.label@);
    }
    assert forall|k: int| 0 <= k < tree.len() implies (#[trigger] tree[k]).count == year_count(rs, tree[k].label@) by {
        let yn = tree[k];
        assert(year_node_ok(rs, yn));
        let months = yn.children@;
        assert forall|j: int| 0 <= j < months.len() implies (#[trigger] months[j]).count == month_count(rs, yn.label@, months[j].label@) by {
            assert(tree[k].children@[j] == months[j]);
        }
        lemma_month_nodes_sum(rs, yn.label@, months);
        let ms = labels(months).to_set();
        assert forall|i: int| 0 <= i < rs.len() && year_of(#[trigger] rs[i].0) == yn.label@ implies ms.contains(
            month_of(rs[i].0),
        ) by {
            assert(months_in(rs, yn.label@).contains(month_of(rs[i].0)));
            assert(labels(months).contains(month_of(rs[i].0)));
        }
        lemma_months_cover(rs, yn.label@, ms);
    }
    lemma_year_nodes_sum(rs, tree);
    let ys = labels(tree).to_set();
    assert forall|i: int| 0 <= i < rs.len() implies ys.contains(year_of(#[trigger] rs[i].0)) by {
        assert(years_in(rs).contains(year_of(rs[i].0)));
        assert(labels(tree).contains(year_of(rs[i].0)));
    }
    lemma_years_cover(rs, ys);
}

// ---------------------------------------------------------------------------
// The tag dashboard.
// ---------------------------------------------------------------------------

/// The counts of a query, taken as sizes.
pub open spec fn counts_fit(v: Seq<(String, i64)>) -> bool {
    forall|i: int| 0 <= i < v.len() ==> 0 <= (#[trigger] v[i]).1 <= usize::MAX
}

pub open spec fn count_views(v: Seq<(String, i64)>) -> Seq<(Seq<char>, int)> {
    v.map_values(|e: (String, i64)| (e.0@, e.1 as int))
}

pub open spec fn size_views(v: Seq<(String, usize)>) -> Seq<(Seq<char>, int)> {
    v.map_values(|e: (String, usize)| (e.0@, e.1 as int))
}

fn to_sizes(v: &Vec<(String, i64)>) -> (r: Vec<(String, usize)>)
    requires
        counts_fit(v@),
    ensures
        size_views(r@) == count_views(v@),
{
    let mut r: Vec<(String, usize)> = Vec::new();
    for i in 0..v.len()
        invariant
            counts_fit(v@),
            r.len() == i,
            size_views(r@) == count_views(v@).take(i as int),
    {
        let t = v[i].0.clone();
        let c = v[i].1;
        assert(0 <= v@[i as int].1 <= usize::MAX);
        r.push((t, c as usize));
        assert(size_views(r@) =~= count_views(v@).take(i + 1));
    }
    assert(count_views(v@).take(v.len() as int) =~= count_views(v@));
    r
}

impl TagsDashboard {
    /// The dashboard from the counts the tag queries returned.
    pub fn from_counts(
        tags: Vec<(String, i64)>,
        orphan_count: i64,
        uninteresting_count: i64,
        disinterest_tags: Vec<(String, i64)>,
        interest_tags: Vec<String>,
    ) -> (r: TagsDashboard)
        requires
            counts_fit(tags@),
            counts_fit(disinterest_tags@),
            0 <= orphan_count <= usize::MAX,
            0 <= uninteresting_count <= usize::MAX,
        ensures
            size_views(r.tags@) == count_views(tags@),
            r.orphan_count == orphan_count,
            r.uninteresting_count == uninteresting_count,
            size_views(r.disinterest_tags@) == count_views(disinterest_tags@),
            r.interest_tags@ == interest_tags@,
    {
        TagsDashboard {
            tags: to_sizes(&tags),
            orphan_count: orphan_count as usize,
            uninteresting_count: uninteresting_count as usize,
            disinterest_tags: to_sizes(&disinterest_tags),
            interest_tags,
        }
    }
}

} // verus!

//! Caption propagation over the block adjacency graph of a page: blocks
//! are grouped into connected components by a depth-first search; in each
//! component the blocks whose caption fits their type are anchors, and every
//! other block takes the caption of its nearest anchor (distances within one
//! point, 100 units, count as a tie), measured along walks that never pass
//! through another anchor. A block with two nearest captions, or none
//! reachable, is left as it was. The caller builds the graph from geometry.
use vstd::prelude::*;
use crate::chars::string_views;
use crate::graph::{
    dijkstra_with_barriers, lemma_sums_fit_with_barriers, valid_walk, walk_end, walk_sums_fit, walk_weight,
    well_formed_graph, Adjacency,
};
use crate::mineru::{caption_type_mismatch, is_caption_type_mismatch, str_eq};

verus! {

// ---------------------------------------------------------------------------
// Connected components, in depth-first order.
// ---------------------------------------------------------------------------

pub open spec fn count_false(s: Seq<bool>) -> nat
    decreases s.len(),
{
    if s.len() == 0 {
        0
    } else {
        count_false(s.drop_last()) + if s.last() { 0nat } else { 1nat }
    }
}

pub proof fn lemma_count_false_update(s: Seq<bool>, i: int)
    requires
        0 <= i < s.len(),
        !s[i],
    ensures
        count_false(s.update(i, true)) + 1 == count_false(s),
    decreases s.len(),
{
    if i < s.len() - 1 {
        lemma_count_false_update(s.drop_last(), i);
        assert(s.update(i, true).drop_last() =~= s.drop_last().update(i, true));
    } else {
        assert(s.update(i, true).drop_last() =~= s.drop_last());
    }
}

/// The edges of a node taken in order: each target not yet visited is
/// marked visited and pushed on the stack.
pub open spec fn push_new(edges: Seq<(usize, i64)>, visited: Seq<bool>, stack: Seq<usize>) -> (Seq<bool>, Seq<usize>)
    decreases edges.len(),
{
    if edges.len() == 0 {
        (visited, stack)
    } else {
        let v = edges[0].0;
        if v < visited.len() && !visited[v as int] {
            push_new(edges.skip(1), visited.update(v as int, true), stack.push(v))
        } else {
            push_new(edges.skip(1), visited, stack)
        }
    }
}

pub proof fn lemma_push_new_measure(edges: Seq<(usize, i64)>, visited: Seq<bool>, stack: Seq<usize>)
    ensures
        2 * count_false(push_new(edges, visited, stack).0) + push_new(edges, visited, stack).1.len() <= 2
            * count_false(visited) + stack.len(),
        push_new(edges, visited, stack).0.len() == visited.len(),
    decreases edges.len(),
{
    if edges.len() > 0 {
        let v = edges[0].0;
        if v < visited.len() && !visited[v as int] {
            lemma_count_false_update(visited, v as int);
            lemma_push_new_measure(edges.skip(1), visited.update(v as int, true), stack.push(v));
        } else {
            lemma_push_new_measure(edges.skip(1), visited, stack);
        }
    }
}

/// The search from a stack: the top node is taken off and added to the
/// component, and its new neighbours are pushed. Gives the visited marks and
/// the component.
pub open spec fn dfs(adj: Adjacency, visited: Seq<bool>, stack: Seq<usize>, comp: Seq<usize>) -> (Seq<bool>, Seq<usize>)
    decreases 2 * count_false(visited) + stack.len(),
{
    if stack.len() == 0 {
        (visited, comp)
    } else {
        let u = stack.last();
        let (v2, s2) = push_new(adj[u as int]@, visited, stack.drop_last());
        proof {
            lemma_push_new_measure(adj[u as int]@, visited, stack.drop_last());
        }
        dfs(adj, v2, s2, comp.push(u))
    }
}

/// The components found by starting a search at every node from `i` on
/// that is not yet visited, in order.
pub open spec fn comps_from(adj: Adjacency, visited: Seq<bool>, i: nat) -> Seq<Seq<usize>>
    decreases adj.len() - i,
{
    if i >= adj.len() {
        Seq::empty()
    } else if i < visited.len() && visited[i as int] {
        comps_from(adj, visited, i + 1)
    } else {
        let r = dfs(adj, visited.update(i as int, true), seq![i as usize], Seq::empty());
        seq![r.1] + comps_from(adj, r.0, i + 1)
    }
}

/// The connected components of the graph, in search order.
pub open spec fn components(adj: Adjacency) -> Seq<Seq<usize>> {
    comps_from(adj, Seq::new(adj.len(), |i: int| false), 0)
}

// ---------------------------------------------------------------------------
// Distances.
// ---------------------------------------------------------------------------

/// Some walk from `src` ends at `v` with weight `d`.
pub open spec fn reaches(adj: Adjacency, bars: Seq<usize>, src: usize, v: int, d: int) -> bool {
    exists|w: Seq<(usize, usize)>|
        valid_walk(adj, bars, src, w) && walk_end(adj, src, w) == v && walk_weight(adj, w) == d
}

/// `d` is the least weight of a walk from `src` to `v`.
pub open spec fn is_shortest(adj: Adjacency, bars: Seq<usize>, src: usize, v: int, d: int) -> bool {
    &&& reaches(adj, bars, src, v, d)
    &&& forall|w: Seq<(usize, usize)>|
        valid_walk(adj, bars, src, w) && walk_end(adj, src, w) == v ==> d <= #[trigger] walk_weight(adj, w)
}

/// The shortest distance from `src` to `v` along walks that never leave a
/// barrier other than `src`; none when no such walk reaches `v`.
pub open spec fn shortest(adj: Adjacency, bars: Seq<usize>, src: usize, v: int) -> Option<int> {
    if exists|d: int| is_shortest(adj, bars, src, v, d) {
        Some(choose|d: int| is_shortest(adj, bars, src, v, d))
    } else {
        None
    }
}

// ---------------------------------------------------------------------------
// The propagation.
// ---------------------------------------------------------------------------

/// Block `i` carries a caption that fits its type.
pub open spec fn fits(caps: Seq<Option<Seq<char>>>, types: Seq<Seq<char>>, i: usize) -> bool {
    &&& (i as int) < caps.len()
    &&& caps[i as int] matches Some(c)
    &&& !caption_type_mismatch(c, types[i as int])
}

/// The members of a component whose captions fit, in order.
pub open spec fn anchors_of(caps: Seq<Option<Seq<char>>>, types: Seq<Seq<char>>, comp: Seq<usize>) -> Seq<usize>
    decreases comp.len(),
{
    if comp.len() == 0 {
        Seq::empty()
    } else {
        let r = anchors_of(caps, types, comp.drop_last());
        if fits(caps, types, comp.last()) {
            r.push(comp.last())
        } else {
            r
        }
    }
}

/// The nearest distance and the captions tied at it, going through the
/// anchors in order: a distance more than 100 below the current one
/// replaces it; one within 100 of it adds its caption when new.
pub open spec fn nearest_caps(ds: Seq<Option<int>>, cs: Seq<Seq<char>>) -> (Option<int>, Seq<Seq<char>>)
    decreases ds.len(),
{
    if ds.len() == 0 {
        (None, Seq::empty())
    } else {
        let (md, nc) = nearest_caps(ds.drop_last(), cs.drop_last());
        let cap = cs[ds.len() - 1];
        match ds.last() {
            None => (md, nc),
            Some(d) => match md {
                None => (Some(d), seq![cap]),
                Some(m) => if d + 100 < m {
                    (Some(d), seq![cap])
                } else if -100 <= d - m <= 100 && !nc.contains(cap) {
                    (md, nc.push(cap))
                } else {
                    (md, nc)
                },
            },
        }
    }
}

/// The distances of block `i` from each anchor.
pub open spec fn anchor_dists(adj: Adjacency, anchors: Seq<usize>, i: usize) -> Seq<Option<int>> {
    Seq::new(anchors.len(), |k: int| shortest(adj, anchors, anchors[k], i as int))
}

/// The members of a component from position `k` on, in order: a block
/// without a fitting caption takes the single nearest caption, if there is
/// exactly one.
pub open spec fn assign_from(
    adj: Adjacency,
    cur: Seq<Option<Seq<char>>>,
    types: Seq<Seq<char>>,
    comp: Seq<usize>,
    anchors: Seq<usize>,
    cs: Seq<Seq<char>>,
    k: nat,
) -> Seq<Option<Seq<char>>>
    decreases comp.len() - k,
{
    if k >= comp.len() {
        cur
    } else {
        let i = comp[k as int];
        let nc = nearest_caps(anchor_dists(adj, anchors, i), cs).1;
        let next = if fits(cur, types, i) || nc.len() != 1 || (i as int) >= cur.len() {
            cur
        } else {
            cur.update(i as int, Some(nc[0]))
        };
        assign_from(adj, next, types, comp, anchors, cs, k + 1)
    }
}

/// One component: nothing changes without anchors; otherwise the anchors'
/// captions are propagated.
pub open spec fn propagate_comp(
    adj: Adjacency,
    cur: Seq<Option<Seq<char>>>,
    types: Seq<Seq<char>>,
    comp: Seq<usize>,
) -> Seq<Option<Seq<char>>> {
    let anchors = anchors_of(cur, types, comp);
    if anchors.len() == 0 {
        cur
    } else {
        let cs = Seq::new(anchors.len(), |k: int| cur[anchors[k] as int]->0);
        assign_from(adj, cur, types, comp, anchors, cs, 0)
    }
}

/// The components in order.
pub open spec fn propagate_all(
    adj: Adjacency,
    cur: Seq<Option<Seq<char>>>,
    types: Seq<Seq<char>>,
    comps: Seq<Seq<usize>>,
) -> Seq<Option<Seq<char>>>
    decreases comps.len(),
{
    if comps.len() == 0 {
        cur
    } else {
        propagate_all(adj, propagate_comp(adj, cur, types, comps[0]), types, comps.skip(1))
    }
}

/// The captions after propagation.
pub open spec fn propagated(adj: Adjacency, caps: Seq<Option<Seq<char>>>, types: Seq<Seq<char>>) -> Seq<
    Option<Seq<char>>,
> {
    propagate_all(adj, caps, types, components(adj))
}

pub open spec fn cap_views(v: Seq<Option<String>>) -> Seq<Option<Seq<char>>> {
    v.map_values(|o: Option<String>| match o {
        Some(s) => Some(s@),
        None => None,
    })
}

// ---------------------------------------------------------------------------
// Executable search.
// ---------------------------------------------------------------------------

fn push_neighbors(edges: &Vec<(usize, i64)>, visited: &mut Vec<bool>, stack: &mut Vec<usize>)
    requires
        forall|k: int| 0 <= k < old(stack)@.len() ==> #[trigger] old(stack)@[k] < old(visited)@.len(),
    ensures
        (final(visited)@, final(stack)@) == push_new(edges@, old(visited)@, old(stack)@),
        final(visited)@.len() == old(visited)@.len(),
        forall|k: int| 0 <= k < final(stack)@.len() ==> #[trigger] final(stack)@[k] < final(visited)@.len(),
{
    let ghost v0 = visited@;
    let ghost s0 = stack@;
    assert(edges@.skip(0) =~= edges@);
    for e in 0..edges.len()
        invariant
            push_new(edges@, v0, s0) == push_new(edges@.skip(e as int), visited@, stack@),
            visited@.len() == v0.len(),
            forall|k: int| 0 <= k < stack@.len() ==> #[trigger] stack@[k] < visited@.len(),
    {
        let v = edges[e].0;
        let ghost rest = edges@.skip(e as int);
        assert(rest[0] == edges@[e as int]);
        assert(rest.skip(1) =~= edges@.skip(e + 1));
        if v < visited.len() && !visited[v] {
            visited.set(v, true);
            stack.push(v);
        }
    }
    assert(edges@.skip(edges.len() as int) =~= Seq::<(usize, i64)>::empty());
}

fn dfs_exec(adj: &Vec<Vec<(usize, i64)>>, visited: &mut Vec<bool>, start: usize) -> (comp: Vec<usize>)
    requires
        old(visited)@.len() == adj.len(),
        start < adj.len(),
    ensures
        (final(visited)@, comp@) == dfs(adj@, old(visited)@.update(start as int, true), seq![start], Seq::empty()),
        final(visited)@.len() == adj.len(),
        forall|k: int| 0 <= k < comp@.len() ==> #[trigger] comp@[k] < adj.len(),
{
    visited.set(start, true);
    let mut stack: Vec<usize> = Vec::new();
    stack.push(start);
    let mut comp: Vec<usize> = Vec::new();
    let ghost target = dfs(adj@, visited@, stack@, comp@);
    assert(stack@ =~= seq![start]);
    assert(comp@ =~= Seq::<usize>::empty());
    while stack.len() > 0
        invariant
            visited@.len() == adj.len(),
            target == dfs(adj@, visited@, stack@, comp@),
            forall|k: int| 0 <= k < stack@.len() ==> #[trigger] stack@[k] < adj.len(),
            forall|k: int| 0 <= k < comp@.len() ==> #[trigger] comp@[k] < adj.len(),
        decreases 2 * count_false(visited@) + stack@.len(),
    {
        let ghost vb = visited@;
        let ghost sb = stack@;
        let u = stack.pop().unwrap();
        assert(u == sb.last());
        assert(stack@ =~= sb.drop_last());
        assert(u < adj.len()) by {
            assert(sb[sb.len() - 1] == u);
        }
        proof {
            lemma_push_new_measure(adj@[u as int]@, vb, stack@);
        }
        let ghost cb = comp@;
        comp.push(u);
        push_neighbors(&adj[u], visited, &mut stack);
        assert(target == dfs(adj@, visited@, stack@, comp@)) by {
            assert(cb.push(u) == comp@);
        }
        assert forall|k: int| 0 <= k < comp@.len() implies #[trigger] comp@[k] < adj.len() by {
            if k < cb.len() {
                assert(comp@[k] == cb[k]);
            }
        }
    }
    comp
}

pub open spec fn comp_views(v: Seq<Vec<usize>>) -> Seq<Seq<usize>> {
    v.map_values(|c: Vec<usize>| c@)
}

fn components_exec(adj: &Vec<Vec<(usize, i64)>>) -> (r: Vec<Vec<usize>>)
    ensures
        comp_views(r@) == components(adj@),
        forall|c: int, k: int| 0 <= c < r.len() && 0 <= k < r@[c]@.len() ==> #[trigger] r@[c]@[k] < adj.len(),
{
    let n = adj.len();
    let mut visited: Vec<bool> = Vec::new();
    for i in 0..n
        invariant
            visited.len() == i,
            forall|k: int| 0 <= k < i ==> !#[trigger] visited@[k],
    {
        visited.push(false);
    }
    assert(visited@ =~= Seq::new(adj.len() as nat, |i: int| false));
    let mut r: Vec<Vec<usize>> = Vec::new();
    for i in 0..n
        invariant
            n == adj.len(),
            visited@.len() == n,
            components(adj@) == comp_views(r@) + comps_from(adj@, visited@, i as nat),
            forall|c: int, k: int| 0 <= c < r.len() && 0 <= k < r@[c]@.len() ==> #[trigger] r@[c]@[k] < n,
    {
        let ghost rb = r@;
        if !visited[i] {
            let ghost vb = visited@;
            let comp = dfs_exec(adj, &mut visited, i);
            r.push(comp);
            assert(comp_views(r@) =~= comp_views(rb) + seq![comp@]);
            assert(comps_from(adj@, vb, i as nat) == seq![comp@] + comps_from(adj@, visited@, (i + 1) as nat));
            assert(comp_views(r@) + comps_from(adj@, visited@, (i + 1) as nat) =~= comp_views(rb) + (seq![comp@]
                + comps_from(adj@, visited@, (i + 1) as nat)));
            assert forall|c: int, k: int| 0 <= c < r.len() && 0 <= k < r@[c]@.len() implies #[trigger] r@[c]@[k] < n by {
                if c < rb.len() {
                    assert(r@[c] == rb[c]);
                }
            }
        }
    }
    assert(comps_from(adj@, visited@, n as nat) =~= Seq::<Seq<usize>>::empty());
    assert(comp_views(r@) + Seq::<Seq<usize>>::empty() =~= comp_views(r@));
    r
}

// ---------------------------------------------------------------------------
// Executable propagation.
// ---------------------------------------------------------------------------

pub open spec fn opt_int(o: Option<i64>) -> Option<int> {
    match o {
        Some(x) => Some(x as int),
        None => None,
    }
}

/// Sums fit along every walk from every node.
pub open spec fn all_sums_fit(adj: Adjacency) -> bool {
    forall|src: usize| src < adj.len() ==> #[trigger] walk_sums_fit(adj, Seq::empty(), src)
}

proof fn lemma_dist_is_shortest(adj: Adjacency, bars: Seq<usize>, src: usize, v: int, x: Option<i64>)
    requires
        x matches Some(y) ==> reaches(adj, bars, src, v, y as int),
        forall|w: Seq<(usize, usize)>|
            #![trigger valid_walk(adj, bars, src, w)]
            valid_walk(adj, bars, src, w) && walk_end(adj, src, w) == v ==> x is Some && x->0 <= walk_weight(adj, w),
    ensures
        opt_int(x) == shortest(adj, bars, src, v),
{
    match x {
        Some(y) => {
            assert(is_shortest(adj, bars, src, v, y as int)) by {
                assert forall|w: Seq<(usize, usize)>|
                    valid_walk(adj, bars, src, w) && walk_end(adj, src, w) == v implies y <= #[trigger] walk_weight(adj, w) by {
                    assert(valid_walk(adj, bars, src, w));
                }
            }
            let c = choose|d: int| is_shortest(adj, bars, src, v, d);
            assert(is_shortest(adj, bars, src, v, c));
            let wc = choose|w: Seq<(usize, usize)>|
                valid_walk(adj, bars, src, w) && walk_end(adj, src, w) == v && walk_weight(adj, w) == c;
            assert(valid_walk(adj, bars, src, wc));
            let wx = choose|w: Seq<(usize, usize)>|
                valid_walk(adj, bars, src, w) && walk_end(adj, src, w) == v && walk_weight(adj, w) == y as int;
            assert(c <= walk_weight(adj, wx));
        },
        None => {
            if exists|d: int| is_shortest(adj, bars, src, v, d) {
                let d = choose|d: int| is_shortest(adj, bars, src, v, d);
                let w = choose|w: Seq<(usize, usize)>|
                    valid_walk(adj, bars, src, w) && walk_end(adj, src, w) == v && walk_weight(adj, w) == d;
                assert(valid_walk(adj, bars, src, w));
            }
        },
    }
}

fn distances_from(adj: &Vec<Vec<(usize, i64)>>, src: usize, bars: &Vec<usize>) -> (r: Vec<Option<i64>>)
    requires
        src < adj.len(),
        well_formed_graph(adj@),
        all_sums_fit(adj@),
    ensures
        r.len() == adj.len(),
        forall|v: int| 0 <= v < adj.len() ==> opt_int(#[trigger] r@[v]) == shortest(adj@, bars@, src, v),
{
    proof {
        assert(walk_sums_fit(adj@, Seq::empty(), src));
        lemma_sums_fit_with_barriers(adj@, bars@, src);
    }
    let r = dijkstra_with_barriers(adj, src, bars);
    assert forall|v: int| 0 <= v < adj.len() implies opt_int(#[trigger] r@[v]) == shortest(adj@, bars@, src, v) by {
        if r@[v] is Some {
            assert(r@[v] is Some);
        }
        lemma_dist_is_shortest(adj@, bars@, src, v, r@[v]);
    }
    r
}

fn fits_exec(cur: &Vec<Option<String>>, types: &Vec<String>, i: usize) -> (r: bool)
    requires
        types.len() == cur.len(),
    ensures
        r == fits(cap_views(cur@), string_views(types@), i),
{
    if i >= cur.len() {
        return false;
    }
    match &cur[i] {
        Some(c) => !is_caption_type_mismatch(c.as_str(), types[i].as_str()),
        None => false,
    }
}

fn string_in(v: &Vec<String>, x: &String) -> (r: bool)
    ensures
        r == string_views(v@).contains(x@),
{
    for k in 0..v.len()
        invariant
            forall|m: int| 0 <= m < k ==> v@[m]@ != x@,
    {
        if str_eq(v[k].as_str(), x.as_str()) {
            assert(string_views(v@)[k as int] == x@);
            return true;
        }
    }
    proof {
        if string_views(v@).contains(x@) {
            let m = choose|m: int| 0 <= m < string_views(v@).len() && string_views(v@)[m] == x@;
            assert(v@[m]@ == x@);
        }
    }
    false
}

pub open spec fn int_views(v: Seq<Option<i64>>) -> Seq<Option<int>> {
    v.map_values(|o: Option<i64>| opt_int(o))
}

/// The captions tied nearest, from the distances of one block to each
/// anchor and the anchors' captions.
fn nearest_exec(ds: &Vec<Option<i64>>, cs: &Vec<String>) -> (r: Vec<String>)
    requires
        ds.len() == cs.len(),
        forall|k: int| 0 <= k < ds.len() ==> (#[trigger] ds@[k] matches Some(d) ==> d >= 0),
    ensures
        string_views(r@) == nearest_caps(int_views(ds@), string_views(cs@)).1,
{
    let ghost dv = int_views(ds@);
    let ghost cv = string_views(cs@);
    let mut md: Option<i64> = None;
    let mut nc: Vec<String> = Vec::new();
    assert(dv.take(0) =~= Seq::<Option<int>>::empty());
    for k in 0..ds.len()
        invariant
            ds.len() == cs.len(),
            dv == int_views(ds@),
            cv == string_views(cs@),
            (opt_int(md), string_views(nc@)) == nearest_caps(dv.take(k as int), cv.take(k as int)),
            md matches Some(m) ==> m >= 0,
            forall|q: int| 0 <= q < ds.len() ==> (#[trigger] ds@[q] matches Some(d) ==> d >= 0),
    {
        let ghost dt = dv.take(k + 1);
        let ghost ct = cv.take(k + 1);
        assert(dt.drop_last() =~= dv.take(k as int));
        assert(ct.drop_last() =~= cv.take(k as int));
        assert(dt.last() == opt_int(ds@[k as int]));
        assert(ct[dt.len() - 1] == cs@[k as int]@);
        let ghost nb = nc@;
        match ds[k] {
            None => {},
            Some(d) => {
                match md {
                    None => {
                        md = Some(d);
                        nc = Vec::new();
                        nc.push(cs[k].clone());
                        assert(string_views(nc@) =~= seq![cs@[k as int]@]);
                    },
                    Some(m) => {
                        if (d as i128) + 100 < (m as i128) {
                            md = Some(d);
                            nc = Vec::new();
                            nc.push(cs[k].clone());
                            assert(string_views(nc@) =~= seq![cs@[k as int]@]);
                        } else if (d as i128) - (m as i128) >= -100 && (d as i128) - (m as i128) <= 100 && !string_in(
                            &nc,
                            &cs[k],
                        ) {
                            nc.push(cs[k].clone());
                            assert(string_views(nc@) =~= string_views(nb).push(cs@[k as int]@));
                        }
                    },
                }
            },
        }
    }
    assert(dv.take(ds.len() as int) =~= dv);
    assert(cv.take(cs.len() as int) =~= cv);
    nc
}

fn clone_opt(o: &Option<String>) -> (r: Option<String>)
    ensures
        match r {
            Some(s) => o matches Some(t) && s@ == t@,
            None => o is None,
        },
{
    match o {
        Some(s) => Some(s.clone()),
        None => None,
    }
}

proof fn lemma_anchors_fit(caps: Seq<Option<Seq<char>>>, types: Seq<Seq<char>>, comp: Seq<usize>, q: int)
    requires
        0 <= q < anchors_of(caps, types, comp).len(),
    ensures
        fits(caps, types, anchors_of(caps, types, comp)[q]),
        comp.contains(anchors_of(caps, types, comp)[q]),
    decreases comp.len(),
{
    let r = anchors_of(caps, types, comp.drop_last());
    if q < r.len() {
        if fits(caps, types, comp.last()) {
            assert(anchors_of(caps, types, comp)[q] == r[q]);
        }
        lemma_anchors_fit(caps, types, comp.drop_last(), q);
        let m = choose|m: int| 0 <= m < comp.drop_last().len() && comp.drop_last()[m] == r[q];
        assert(comp[m] == r[q]);
    } else {
        assert(comp[comp.len() - 1] == comp.last());
    }
}

/// Propagates the anchors' captions within one component.
fn propagate_comp_exec(
    adj: &Vec<Vec<(usize, i64)>>,
    cur: &mut Vec<Option<String>>,
    types: &Vec<String>,
    comp: &Vec<usize>,
)
    requires
        well_formed_graph(adj@),
        all_sums_fit(adj@),
        old(cur).len() == adj.len(),
        types.len() == adj.len(),
        forall|k: int| 0 <= k < comp@.len() ==> #[trigger] comp@[k] < adj.len(),
    ensures
        final(cur).len() == adj.len(),
        cap_views(final(cur)@) == propagate_comp(adj@, cap_views(old(cur)@), string_views(types@), comp@),
{
    let ghost c0 = cap_views(cur@);
    let ghost tv = string_views(types@);
    let mut anchors: Vec<usize> = Vec::new();
    for k in 0..comp.len()
        invariant
            cur.len() == adj.len(),
            types.len() == adj.len(),
            c0 == cap_views(cur@),
            tv == string_views(types@),
            anchors@ == anchors_of(c0, tv, comp@.take(k as int)),
    {
        assert(comp@.take(k + 1).drop_last() =~= comp@.take(k as int));
        assert(comp@.take(k + 1).last() == comp@[k as int]);
        if fits_exec(cur, types, comp[k]) {
            anchors.push(comp[k]);
        }
    }
    assert(comp@.take(comp.len() as int) =~= comp@);
    if anchors.len() == 0 {
        return;
    }
    let mut cs: Vec<String> = Vec::new();
    for q in 0..anchors.len()
        invariant
            cur.len() == adj.len(),
            c0 == cap_views(cur@),
            tv == string_views(types@),
            anchors@ == anchors_of(c0, tv, comp@),
            cs.len() == q,
            forall|m: int| 0 <= m < q ==> (#[trigger] cs@[m])@ == c0[anchors@[m] as int]->0,
    {
        proof {
            lemma_anchors_fit(c0, tv, comp@, q as int);
        }
        let a = anchors[q];
        match &cur[a] {
            Some(c) => {
                cs.push(c.clone());
            },
            None => {
                assert(false);
            },
        }
    }
    let ghost csv = Seq::new(anchors@.len(), |k: int| c0[anchors@[k] as int]->0);
    assert(string_views(cs@) =~= csv);
    let mut dists: Vec<Vec<Option<i64>>> = Vec::new();
    for q in 0..anchors.len()
        invariant
            well_formed_graph(adj@),
            all_sums_fit(adj@),
            anchors@ == anchors_of(c0, tv, comp@),
            forall|k: int| 0 <= k < comp@.len() ==> #[trigger] comp@[k] < adj.len(),
            dists.len() == q,
            forall|m: int| 0 <= m < q ==> (#[trigger] dists@[m]).len() == adj.len(),
            forall|m: int, v: int|
                0 <= m < q && 0 <= v < adj.len() ==> opt_int(#[trigger] dists@[m]@[v]) == shortest(
                    adj@,
                    anchors@,
                    anchors@[m],
                    v,
                ),
    {
        proof {
            lemma_anchors_fit(c0, tv, comp@, q as int);
            let j = choose|j: int| 0 <= j < comp@.len() && comp@[j] == anchors@[q as int];
            assert(comp@[j] < adj.len());
        }
        dists.push(distances_from(adj, anchors[q], &anchors));
    }
    let ghost target = assign_from(adj@, c0, tv, comp@, anchors@, csv, 0);
    for k in 0..comp.len()
        invariant
            well_formed_graph(adj@),
            cur.len() == adj.len(),
            types.len() == adj.len(),
            tv == string_views(types@),
            forall|j: int| 0 <= j < comp@.len() ==> #[trigger] comp@[j] < adj.len(),
            dists.len() == anchors.len(),
            cs.len() == anchors.len(),
            string_views(cs@) == csv,
            forall|m: int| 0 <= m < anchors.len() ==> (#[trigger] dists@[m]).len() == adj.len(),
            forall|m: int, v: int|
                0 <= m < anchors.len() && 0 <= v < adj.len() ==> opt_int(#[trigger] dists@[m]@[v]) == shortest(
                    adj@,
                    anchors@,
                    anchors@[m],
                    v,
                ),
            target == assign_from(adj@, cap_views(cur@), tv, comp@, anchors@, csv, k as nat),
    {
        let i = comp[k];
        assert(i < adj.len());
        let ghost cb = cap_views(cur@);
        if !fits_exec(cur, types, i) {
            let mut ds: Vec<Option<i64>> = Vec::new();
            for q in 0..anchors.len()
                invariant
                    i < adj.len(),
                    dists.len() == anchors.len(),
                    forall|m: int| 0 <= m < anchors.len() ==> (#[trigger] dists@[m]).len() == adj.len(),
                    ds.len() == q,
                    forall|m: int| 0 <= m < q ==> #[trigger] ds@[m] == dists@[m]@[i as int],
            {
                ds.push(dists[q][i]);
            }
            assert(int_views(ds@) =~= anchor_dists(adj@, anchors@, i));
            assert forall|m: int| 0 <= m < ds.len() implies (#[trigger] ds@[m] matches Some(d) ==> d >= 0) by {
                assert(opt_int(dists@[m]@[i as int]) == shortest(adj@, anchors@, anchors@[m], i as int));
                if ds@[m] is Some {
                    let d = choose|d: int| is_shortest(adj@, anchors@, anchors@[m], i as int, d);
                    assert(is_shortest(adj@, anchors@, anchors@[m], i as int, d));
                    let w = choose|w: Seq<(usize, usize)>|
                        valid_walk(adj@, anchors@, anchors@[m], w) && walk_end(adj@, anchors@[m], w) == i as int
                            && walk_weight(adj@, w) == d;
                    crate::graph::lemma_walk_weight_nonneg(adj@, w);
                }
            }
            let nc = nearest_exec(&ds, &cs);
            if nc.len() == 1 {
                let c = nc[0].clone();
                cur.set(i, Some(c));
                assert(cap_views(cur@) =~= cb.update(i as int, Some(string_views(nc@)[0])));
            }
        }
    }
    assert(target == cap_views(cur@));
}

/// Propagates captions over the block graph `adj`, as described in the
/// module documentation. `caps` and `types` hold the caption number and the
/// block type of each block.
pub fn propagated_captions(adj: &Vec<Vec<(usize, i64)>>, caps: &Vec<Option<String>>, types: &Vec<String>) -> (r: Vec<
    Option<String>,
>)
    requires
        well_formed_graph(adj@),
        all_sums_fit(adj@),
        caps.len() == adj.len(),
        types.len() == adj.len(),
    ensures
        r.len() == adj.len(),
        cap_views(r@) == propagated(adj@, cap_views(caps@), string_views(types@)),
{
    let mut cur: Vec<Option<String>> = Vec::new();
    for i in 0..caps.len()
        invariant
            cur.len() == i,
            cap_views(cur@) == cap_views(caps@).take(i as int),
    {
        let ghost before = cur@;
        let o = clone_opt(&caps[i]);
        cur.push(o);
        assert(cap_views(cur@) =~= cap_views(caps@).take(i + 1)) by {
            assert(cur@ == before.push(o));
            assert(cap_views(cur@)[i as int] == cap_views(caps@)[i as int]);
            assert forall|m: int| 0 <= m < i implies cap_views(cur@)[m] == cap_views(caps@).take(i + 1)[m] by {
                assert(cur@[m] == before[m]);
                assert(cap_views(before)[m] == cap_views(caps@).take(i as int)[m]);
            }
        }
    }
    assert(cap_views(cur@) =~= cap_views(caps@));
    let comps = components_exec(adj);
    let ghost target = propagated(adj@, cap_views(caps@), string_views(types@));
    let ghost cvs = comp_views(comps@);
    let ghost tv = string_views(types@);
    assert(cvs.skip(0) =~= cvs);
    for c in 0..comps.len()
        invariant
            well_formed_graph(adj@),
            all_sums_fit(adj@),
            cur.len() == adj.len(),
            types.len() == adj.len(),
            tv == string_views(types@),
            cvs.len() == comps.len(),
            forall|x: int| 0 <= x < comps.len() ==> #[trigger] cvs[x] == comps@[x]@,
            forall|x: int, k: int| 0 <= x < comps.len() && 0 <= k < comps@[x]@.len() ==> #[trigger] comps@[x]@[k] < adj.len(),
            target == propagate_all(adj@, cap_views(cur@), tv, cvs.skip(c as int)),
    {
        let ghost rest = cvs.skip(c as int);
        let ghost before = cap_views(cur@);
        proof {
            assert(rest[0] == cvs[c as int]);
            assert(cvs[c as int] == comps@[c as int]@);
            assert(rest.skip(1) =~= cvs.skip(c + 1));
            assert(target == propagate_all(adj@, propagate_comp(adj@, before, tv, rest[0]), tv, rest.skip(1)));
        }
        assert forall|k: int| 0 <= k < comps@[c as int]@.len() implies #[trigger] comps@[c as int]@[k] < adj.len() by {
        }
        propagate_comp_exec(adj, &mut cur, types, &comps[c]);
    }
    assert(cvs.skip(comps.len() as int) =~= Seq::<Seq<usize>>::empty());
    cur
}

} // verus!

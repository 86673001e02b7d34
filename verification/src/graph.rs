//! Shortest distances over the block adjacency graph used to propagate
//! captions: a Dijkstra search that may reach, but never pass through,
//! barrier nodes.
use vstd::prelude::*;

verus! {

/// Adjacency lists: `adj[u]` holds the `(target, weight)` edges leaving `u`.
pub type Adjacency = Seq<Vec<(usize, i64)>>;

/// A node may be left along its edges when it is the source or no barrier.
pub open spec fn passable(barriers: Seq<usize>, source: usize, u: usize) -> bool {
    u == source || !barriers.contains(u)
}

pub open spec fn edge_target(adj: Adjacency, step: (usize, usize)) -> usize {
    adj[step.0 as int]@[step.1 as int].0
}

pub open spec fn edge_weight(adj: Adjacency, step: (usize, usize)) -> int {
    adj[step.0 as int]@[step.1 as int].1 as int
}

/// A walk from `source`: each step `(u, e)` leaves node `u` along its edge
/// number `e`; the first step leaves `source`, every later one leaves the
/// node the previous step reached, and only passable nodes are left.
pub open spec fn valid_walk(adj: Adjacency, barriers: Seq<usize>, source: usize, walk: Seq<(usize, usize)>) -> bool {
    forall|i: int|
        #![trigger walk[i]]
        0 <= i < walk.len() ==> {
            &&& walk[i].0 < adj.len()
            &&& walk[i].1 < adj[walk[i].0 as int].len()
            &&& passable(barriers, source, walk[i].0)
            &&& (i == 0 ==> walk[i].0 == source)
            &&& (i > 0 ==> walk[i].0 == edge_target(adj, walk[i - 1]))
        }
}

/// The node a walk ends at.
pub open spec fn walk_end(adj: Adjacency, source: usize, walk: Seq<(usize, usize)>) -> usize {
    if walk.len() == 0 {
        source
    } else {
        edge_target(adj, walk.last())
    }
}

/// The total weight of a walk.
pub open spec fn walk_weight(adj: Adjacency, walk: Seq<(usize, usize)>) -> int
    decreases walk.len(),
{
    if walk.len() == 0 {
        0
    } else {
        walk_weight(adj, walk.drop_last()) + edge_weight(adj, walk.last())
    }
}

/// Well-formed input: every edge points at a node of the graph and has a
/// non-negative weight.
pub open spec fn well_formed_graph(adj: Adjacency) -> bool {
    forall|u: int, e: int|
        0 <= u < adj.len() && 0 <= e < adj[u].len() ==> {
            &&& (#[trigger] adj[u]@[e]).0 < adj.len()
            &&& 0 <= adj[u]@[e].1
        }
}

/// No walk from `source` of at most as many steps as there are nodes
/// weighs more than `i64::MAX`: the sums the search forms fit.
#[verifier::opaque]
pub open spec fn walk_sums_fit(adj: Adjacency, barriers: Seq<usize>, source: usize) -> bool {
    forall|walk: Seq<(usize, usize)>|
        #![trigger valid_walk(adj, barriers, source, walk)]
        valid_walk(adj, barriers, source, walk) && walk.len() <= adj.len() ==> walk_weight(adj, walk)
            <= i64::MAX
}

pub open spec fn count_true(s: Seq<bool>) -> nat
    decreases s.len(),
{
    if s.len() == 0 {
        0
    } else {
        count_true(s.drop_last()) + if s.last() { 1nat } else { 0nat }
    }
}

proof fn lemma_count_true_update(s: Seq<bool>, i: int)
    requires
        0 <= i < s.len(),
        !s[i],
    ensures
        count_true(s.update(i, true)) == count_true(s) + 1,
    decreases s.len(),
{
    if i < s.len() - 1 {
        lemma_count_true_update(s.drop_last(), i);
        assert(s.update(i, true).drop_last() =~= s.drop_last().update(i, true));
    } else {
        assert(s.update(i, true).drop_last() =~= s.drop_last());
    }
}

proof fn lemma_count_true_bound(s: Seq<bool>, i: int)
    requires
        0 <= i < s.len(),
        !s[i],
    ensures
        count_true(s) < s.len(),
    decreases s.len(),
{
    lemma_count_true_le(s.drop_last());
    if i < s.len() - 1 {
        lemma_count_true_bound(s.drop_last(), i);
    }
}

proof fn lemma_count_true_all_false(s: Seq<bool>)
    requires
        forall|i: int| 0 <= i < s.len() ==> !#[trigger] s[i],
    ensures
        count_true(s) == 0,
    decreases s.len(),
{
    if s.len() > 0 {
        lemma_count_true_all_false(s.drop_last());
    }
}

proof fn lemma_count_true_le(s: Seq<bool>)
    ensures
        count_true(s) <= s.len(),
    decreases s.len(),
{
    if s.len() > 0 {
        lemma_count_true_le(s.drop_last());
    }
}

proof fn lemma_walk_fits(adj: Adjacency, barriers: Seq<usize>, source: usize, walk: Seq<(usize, usize)>)
    requires
        walk_sums_fit(adj, barriers, source),
        valid_walk(adj, barriers, source, walk),
        walk.len() <= adj.len(),
    ensures
        walk_weight(adj, walk) <= i64::MAX,
{
    reveal(walk_sums_fit);
}

proof fn lemma_walk_push(adj: Adjacency, barriers: Seq<usize>, source: usize, walk: Seq<(usize, usize)>, step: (usize, usize))
    requires
        valid_walk(adj, barriers, source, walk),
        step.0 == walk_end(adj, source, walk),
        step.0 < adj.len(),
        step.1 < adj[step.0 as int].len(),
        passable(barriers, source, step.0),
    ensures
        valid_walk(adj, barriers, source, walk.push(step)),
        walk_end(adj, source, walk.push(step)) == edge_target(adj, step),
        walk_weight(adj, walk.push(step)) == walk_weight(adj, walk) + edge_weight(adj, step),
{
    let w2 = walk.push(step);
    assert(w2.drop_last() =~= walk);
    assert(w2.last() == step);
    assert forall|i: int| #![trigger w2[i]] 0 <= i < w2.len() implies {
        &&& w2[i].0 < adj.len()
        &&& w2[i].1 < adj[w2[i].0 as int].len()
        &&& passable(barriers, source, w2[i].0)
        &&& (i == 0 ==> w2[i].0 == source)
        &&& (i > 0 ==> w2[i].0 == edge_target(adj, w2[i - 1]))
    } by {
        if i < walk.len() {
            assert(w2[i] == walk[i]);
            if i > 0 {
                assert(w2[i - 1] == walk[i - 1]);
            }
        } else {
            assert(w2[i] == step);
            if i > 0 {
                assert(w2[i - 1] == walk[i - 1]);
                assert(walk.last() == walk[i - 1]);
            }
        }
    }
}

/// Every walk ends at a node with a distance no larger than its weight, in a
/// state closed under the relaxation of every edge that leaves a settled,
/// passable node.
proof fn lemma_walk_lower_bound(
    adj: Adjacency,
    barriers: Seq<usize>,
    source: usize,
    dist: Seq<Option<i64>>,
    walk: Seq<(usize, usize)>,
)
    requires
        dist.len() == adj.len(),
        source < adj.len(),
        dist[source as int] == Some(0i64),
        valid_walk(adj, barriers, source, walk),
        forall|u: int, e: int|
            0 <= u < adj.len() && dist[u] is Some && passable(barriers, source, u as usize) && 0
                <= e < adj[u].len() ==> {
                &&& dist[(#[trigger] adj[u]@[e]).0 as int] is Some
                &&& dist[adj[u]@[e].0 as int]->0 <= dist[u]->0 + adj[u]@[e].1
            },
    ensures
        dist[walk_end(adj, source, walk) as int] is Some,
        dist[walk_end(adj, source, walk) as int]->0 <= walk_weight(adj, walk),
    decreases walk.len(),
{
    if walk.len() > 0 {
        let prefix = walk.drop_last();
        assert forall|i: int| 0 <= i < prefix.len() implies {
            &&& prefix[i].0 < adj.len()
            &&& prefix[i].1 < adj[prefix[i].0 as int].len()
            &&& passable(barriers, source, prefix[i].0)
            &&& (i == 0 ==> prefix[i].0 == source)
            &&& (i > 0 ==> prefix[i].0 == edge_target(adj, prefix[i - 1]))
        } by {
            assert(prefix[i] == walk[i]);
            if i > 0 {
                assert(prefix[i - 1] == walk[i - 1]);
            }
        }
        lemma_walk_lower_bound(adj, barriers, source, dist, prefix);
        let last = walk.last();
        assert(last == walk[walk.len() - 1]);
        if walk.len() > 1 {
            assert(walk[walk.len() - 2] == prefix.last());
        }
        assert(last.0 == walk_end(adj, source, prefix));
        let u = last.0 as int;
        let e = last.1 as int;
        assert(dist[adj[u]@[e].0 as int] is Some);
    }
}

/// Shortest-walk distances from `source`, where a walk may reach a barrier
/// node but never continues from one (the source itself is exempt).
/// The result has one entry per node: `Some(d)` with `d` the least weight of
/// a walk that reaches the node, or `None` when no walk reaches it.
#[verifier::rlimit(100)]
#[verifier::spinoff_prover]
pub fn dijkstra_with_barriers(adj: &Vec<Vec<(usize, i64)>>, source: usize, barriers: &Vec<usize>) -> (dist: Vec<Option<i64>>)
    requires
        source < adj.len(),
        well_formed_graph(adj@),
        walk_sums_fit(adj@, barriers@, source),
    ensures
        dist.len() == adj.len(),
        dist@[source as int] == Some(0i64),
        forall|v: int|
            0 <= v < dist.len() && #[trigger] dist@[v] is Some ==> exists|walk: Seq<(usize, usize)>|
                valid_walk(adj@, barriers@, source, walk) && walk_end(adj@, source, walk) == v
                    && walk_weight(adj@, walk) == dist@[v]->0,
        forall|walk: Seq<(usize, usize)>|
            #![trigger valid_walk(adj@, barriers@, source, walk)]
            valid_walk(adj@, barriers@, source, walk) ==> {
                &&& dist@[walk_end(adj@, source, walk) as int] is Some
                &&& dist@[walk_end(adj@, source, walk) as int]->0 <= walk_weight(adj@, walk)
            },
{
    let n = adj.len();
    // Which nodes may be left along their edges.
    let mut pass: Vec<bool> = Vec::new();
    for u in 0..n
        invariant
            pass.len() == u,
            forall|x: int| 0 <= x < u ==> #[trigger] pass@[x] == passable(barriers@, source, x as usize),
    {
        let mut is_barrier = false;
        for k in 0..barriers.len()
            invariant
                is_barrier == exists|j: int| 0 <= j < k && barriers@[j] == u,
        {
            if barriers[k] == u {
                is_barrier = true;
            }
        }
        proof {
            if barriers@.contains(u) {
                let j = choose|j: int| 0 <= j < barriers@.len() && barriers@[j] == u;
                assert(0 <= j < barriers.len() && barriers@[j] == u);
            }
            if is_barrier {
                let j = choose|j: int| 0 <= j < barriers.len() && barriers@[j] == u;
                assert(barriers@.contains(u));
            }
        }
        pass.push(u == source || !is_barrier);
    }
    let mut dist: Vec<Option<i64>> = Vec::new();
    let mut done: Vec<bool> = Vec::new();
    for i in 0..n
        invariant
            dist.len() == i,
            done.len() == i,
            forall|x: int| 0 <= x < i ==> (#[trigger] dist@[x]) is None,
            forall|x: int| 0 <= x < i ==> !(#[trigger] done@[x]),
    {
        dist.push(None);
        done.push(false);
    }
    dist.set(source, Some(0));
    let ghost mut walks: Seq<Seq<(usize, usize)>> = Seq::new(n as nat, |i: int| Seq::<(usize, usize)>::empty());
    let ghost mut cnt: nat = 0;
    let ghost a = adj@;
    let ghost b = barriers@;
    proof {
        lemma_count_true_all_false(done@);
    }
    loop
        invariant
            n == adj.len(),
            a == adj@,
            b == barriers@,
            source < n,
            well_formed_graph(a),
            walk_sums_fit(a, b, source),
            pass.len() == n,
            forall|x: int| 0 <= x < n ==> #[trigger] pass@[x] == passable(b, source, x as usize),
            dist.len() == n,
            done.len() == n,
            walks.len() == n,
            dist@[source as int] == Some(0i64),
            cnt == count_true(done@),
            forall|v: int|
                0 <= v < n && #[trigger] dist@[v] is Some ==> {
                    &&& valid_walk(a, b, source, walks[v])
                    &&& walk_end(a, source, walks[v]) == v
                    &&& walk_weight(a, walks[v]) == dist@[v]->0
                    &&& 0 <= dist@[v]->0
                    &&& walks[v].len() <= cnt
                },
            forall|v: int| 0 <= v < n && #[trigger] done@[v] ==> dist@[v] is Some,
            forall|x: int, y: int|
                0 <= x < n && 0 <= y < n && #[trigger] done@[x] && !#[trigger] done@[y]
                    && dist@[y] is Some ==> dist@[x]->0 <= dist@[y]->0,
            forall|u: int, e: int|
                0 <= u < n && done@[u] && passable(b, source, u as usize) && 0 <= e < a[u].len()
                    ==> {
                    &&& dist@[(#[trigger] a[u]@[e]).0 as int] is Some
                    &&& dist@[a[u]@[e].0 as int]->0 <= dist@[u]->0 + a[u]@[e].1
                },
        ensures
            forall|y: int| 0 <= y < n ==> done@[y] || #[trigger] dist@[y] is None,
            dist.len() == n,
            done.len() == n,
            dist@[source as int] == Some(0i64),
            forall|v: int| 0 <= v < n && #[trigger] done@[v] ==> dist@[v] is Some,
            forall|v: int|
                0 <= v < n && #[trigger] dist@[v] is Some ==> {
                    &&& valid_walk(a, b, source, walks[v])
                    &&& walk_end(a, source, walks[v]) == v
                    &&& walk_weight(a, walks[v]) == dist@[v]->0
                },
            forall|u: int, e: int|
                0 <= u < n && done@[u] && passable(b, source, u as usize) && 0 <= e < a[u].len()
                    ==> {
                    &&& dist@[(#[trigger] a[u]@[e]).0 as int] is Some
                    &&& dist@[a[u]@[e].0 as int]->0 <= dist@[u]->0 + a[u]@[e].1
                },
        decreases n - cnt,
    {
        // Pick the unsettled node with the smallest tentative distance.
        let mut best: Option<usize> = None;
        for i in 0..n
            invariant
                n == dist.len(),
                n == done.len(),
                best matches Some(u) ==> u < i && !done@[u as int] && dist@[u as int] is Some,
                best matches Some(u) ==> forall|y: int|
                    0 <= y < i && !done@[y] && #[trigger] dist@[y] is Some ==> dist@[u as int]->0
                        <= dist@[y]->0,
                best is None ==> forall|y: int| 0 <= y < i ==> done@[y] || #[trigger] dist@[y] is None,
        {
            if !done[i] {
                if let Some(di) = dist[i] {
                    match best {
                        None => {
                            best = Some(i);
                        },
                        Some(bu) => {
                            if let Some(db) = dist[bu] {
                                if di < db {
                                    best = Some(i);
                                }
                            }
                        },
                    }
                }
            }
        }
        let u = match best {
            None => {
                break ;
            },
            Some(u) => u,
        };
        let du = match dist[u] {
            Some(d) => d,
            None => {
                break ;
            },
        };
        proof {
            lemma_count_true_bound(done@, u as int);
            lemma_count_true_update(done@, u as int);
        }
        let ghost old_done = done@;
        done.set(u, true);
        proof {
            cnt = cnt + 1;
            assert(cnt <= n);
        }
        if pass[u] {
            let m = adj[u].len();
            for e in 0..m
                invariant
                    n == adj.len(),
                    a == adj@,
                    b == barriers@,
                    u < n,
                    m == a[u as int].len(),
                    source < n,
                    well_formed_graph(a),
                    walk_sums_fit(a, b, source),
                    cnt <= n,
                    passable(b, source, u),
                    dist.len() == n,
                    done.len() == n,
                    walks.len() == n,
                    done@[u as int],
                    dist@[u as int] == Some(du),
                    0 <= du,
                    walks[u as int].len() < cnt,
                    dist@[source as int] == Some(0i64),
                    cnt == count_true(done@),
                    forall|v: int|
                        0 <= v < n && #[trigger] dist@[v] is Some ==> {
                            &&& valid_walk(a, b, source, walks[v])
                            &&& walk_end(a, source, walks[v]) == v
                            &&& walk_weight(a, walks[v]) == dist@[v]->0
                            &&& 0 <= dist@[v]->0
                        },
                    forall|v: int| 0 <= v < n && #[trigger] dist@[v] is Some ==> walks[v].len() <= cnt,
                    forall|v: int| 0 <= v < n && #[trigger] done@[v] ==> dist@[v] is Some,
                    forall|x: int| 0 <= x < n && #[trigger] done@[x] ==> dist@[x]->0 <= du,
                    forall|x: int, y: int|
                        0 <= x < n && 0 <= y < n && #[trigger] done@[x] && !#[trigger] done@[y]
                            && dist@[y] is Some ==> dist@[x]->0 <= dist@[y]->0,
                    forall|y: int| 0 <= y < n && !done@[y] && #[trigger] dist@[y] is Some ==> du <= dist@[y]->0,
                    forall|x: int, f: int|
                        0 <= x < n && x != u && done@[x] && passable(b, source, x as usize) && 0 <= f
                            < a[x].len() ==> {
                            &&& dist@[(#[trigger] a[x]@[f]).0 as int] is Some
                            &&& dist@[a[x]@[f].0 as int]->0 <= dist@[x]->0 + a[x]@[f].1
                        },
                    forall|f: int|
                        0 <= f < e ==> {
                            &&& dist@[(#[trigger] a[u as int]@[f]).0 as int] is Some
                            &&& dist@[a[u as int]@[f].0 as int]->0 <= du + a[u as int]@[f].1
                        },
            {
                let (v, w) = adj[u][e];
                assert(a[u as int]@[e as int] == (v, w));
                assert(v < n);
                let ghost nw = walks[u as int].push((u, e));
                proof {
                    lemma_walk_push(a, b, source, walks[u as int], (u, e));
                    assert(nw.len() <= cnt);
                    lemma_walk_fits(a, b, source, nw);
                    assert(walk_weight(a, nw) == du + w);
                }
                let nd = du + w;
                let better = match dist[v] {
                    None => true,
                    Some(fd) => nd < fd,
                };
                if better {
                    proof {
                        walks = walks.update(v as int, nw);
                    }
                    dist.set(v, Some(nd));
                }
            }
        }
        proof {
            assert forall|x: int, y: int|
                0 <= x < n && 0 <= y < n && #[trigger] done@[x] && !#[trigger] done@[y]
                    && dist@[y] is Some implies dist@[x]->0 <= dist@[y]->0 by {
                if x == u as int {
                } else {
                    assert(old_done[x]);
                }
            }
        }
    }
    proof {
        assert forall|walk: Seq<(usize, usize)>|
            #![trigger valid_walk(adj@, barriers@, source, walk)]
            valid_walk(adj@, barriers@, source, walk) implies {
                &&& dist@[walk_end(adj@, source, walk) as int] is Some
                &&& dist@[walk_end(adj@, source, walk) as int]->0 <= walk_weight(adj@, walk)
            } by {
            assert forall|x: int, e: int|
                0 <= x < adj.len() && dist@[x] is Some && passable(barriers@, source, x as usize)
                    && 0 <= e < adj@[x].len() implies {
                &&& dist@[(#[trigger] adj@[x]@[e]).0 as int] is Some
                &&& dist@[adj@[x]@[e].0 as int]->0 <= dist@[x]->0 + adj@[x]@[e].1
            } by {
                assert(done@[x]);
            }
            lemma_walk_lower_bound(adj@, barriers@, source, dist@, walk);
        }
        assert forall|v: int| 0 <= v < dist.len() && #[trigger] dist@[v] is Some implies exists|
            walk: Seq<(usize, usize)>,
        |
            valid_walk(adj@, barriers@, source, walk) && walk_end(adj@, source, walk) == v
                && walk_weight(adj@, walk) == dist@[v]->0 by {
            assert(valid_walk(adj@, barriers@, source, walks[v]));
        }
    }
    dist
}

/// Sums that fit along every walk from `source` fit along the walks that
/// stop at barriers too.
pub proof fn lemma_sums_fit_with_barriers(adj: Adjacency, barriers: Seq<usize>, source: usize)
    requires
        walk_sums_fit(adj, Seq::empty(), source),
    ensures
        walk_sums_fit(adj, barriers, source),
{
    reveal(walk_sums_fit);
    assert forall|walk: Seq<(usize, usize)>|
        valid_walk(adj, barriers, source, walk) && walk.len() <= adj.len() implies walk_weight(adj, walk) <= i64::MAX by {
        assert(valid_walk(adj, Seq::empty(), source, walk)) by {
            assert forall|i: int| #![trigger walk[i]] 0 <= i < walk.len() implies passable(Seq::empty(), source, walk[i].0) by {
            }
        }
    }
}

/// Walks weigh at least nothing: no edge weight is negative.
pub proof fn lemma_walk_weight_nonneg(adj: Adjacency, walk: Seq<(usize, usize)>)
    requires
        well_formed_graph(adj),
        forall|i: int| #![trigger walk[i]] 0 <= i < walk.len() ==> walk[i].0 < adj.len() && walk[i].1 < adj[walk[i].0 as int].len(),
    ensures
        walk_weight(adj, walk) >= 0,
    decreases walk.len(),
{
    if walk.len() > 0 {
        let d = walk.drop_last();
        assert forall|i: int| #![trigger d[i]] 0 <= i < d.len() implies d[i].0 < adj.len() && d[i].1 < adj[d[i].0 as int].len() by {
            assert(d[i] == walk[i]);
        }
        lemma_walk_weight_nonneg(adj, d);
        let l = walk[walk.len() - 1];
        assert(walk.last() == l);
        assert(adj[l.0 as int]@[l.1 as int].1 >= 0);
    }
}

} // verus!

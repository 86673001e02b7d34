//! Author statistics rebuilt from the papers: each of the first twenty
//! authors of a paper (trimmed, and at least two bytes long) is credited
//! with that paper, and with a critical mark when the paper has one. The
//! caller averages the scores of the credited papers.
use vstd::prelude::*;
use crate::chars::{byte_len, chars_eq, string_from_chars, to_chars, trim, trim_chars};
use crate::chars::string_views;

verus! {

/// The authors of one paper and whether it is marked critical.
#[derive(Debug, Clone)]
pub struct PaperAuthors {
    pub authors: Vec<String>,
    pub critical: bool,
}

/// What one author was credited with: the indices of its papers (once per
/// listing) and how many of those listings are on critical papers.
#[derive(Debug)]
pub struct AuthorTally {
    pub name: String,
    pub papers: Vec<usize>,
    pub critical: usize,
}

/// The name under which an author listing is credited, if any.
pub open spec fn author_key(a: Seq<char>) -> Option<Seq<char>> {
    if byte_len(trim(a)) >= 2 {
        Some(trim(a))
    } else {
        None
    }
}

/// The listings of paper `p`: its first twenty authors.
pub open spec fn paper_credits(p: nat, authors: Seq<Seq<char>>, critical: bool) -> Seq<(nat, Seq<char>, bool)> {
    let k = if authors.len() < 20 {
        authors.len()
    } else {
        20
    };
    authors.take(k as int).map_values(|a: Seq<char>| (p, a, critical))
}

/// All listings, paper by paper.
pub open spec fn credits(papers: Seq<PaperAuthors>) -> Seq<(nat, Seq<char>, bool)>
    decreases papers.len(),
{
    if papers.len() == 0 {
        Seq::empty()
    } else {
        credits(papers.drop_last()) + paper_credits(
            (papers.len() - 1) as nat,
            string_views(papers.last().authors@),
            papers.last().critical,
        )
    }
}

/// The papers credited to `name`, one entry per listing, in order.
pub open spec fn credited_papers(cs: Seq<(nat, Seq<char>, bool)>, name: Seq<char>) -> Seq<nat>
    decreases cs.len(),
{
    if cs.len() == 0 {
        Seq::empty()
    } else {
        let rest = credited_papers(cs.drop_last(), name);
        if author_key(cs.last().1) == Some(name) {
            rest.push(cs.last().0)
        } else {
            rest
        }
    }
}

/// The number of listings of `name` on critical papers.
pub open spec fn critical_credits(cs: Seq<(nat, Seq<char>, bool)>, name: Seq<char>) -> nat
    decreases cs.len(),
{
    if cs.len() == 0 {
        0
    } else {
        let rest = critical_credits(cs.drop_last(), name);
        if author_key(cs.last().1) == Some(name) && cs.last().2 {
            rest + 1
        } else {
            rest
        }
    }
}

pub open spec fn index_views(v: Seq<usize>) -> Seq<nat> {
    v.map_values(|x: usize| x as nat)
}

/// The tallies describe the listings `cs` exactly: one tally per credited
/// name, with its papers and critical count.
pub open spec fn tallies_match(t: Seq<AuthorTally>, cs: Seq<(nat, Seq<char>, bool)>) -> bool {
    &&& forall|i: int, j: int| 0 <= i < j < t.len() ==> t[i].name@ != t[j].name@
    &&& forall|i: int|
        0 <= i < t.len() ==> {
            &&& index_views((#[trigger] t[i]).papers@) == credited_papers(cs, t[i].name@)
            &&& t[i].critical == critical_credits(cs, t[i].name@)
            &&& t[i].papers.len() > 0
        }
    &&& forall|name: Seq<char>|
        #[trigger] credited_papers(cs, name).len() > 0 ==> exists|i: int|
            0 <= i < t.len() && t[i].name@ == name
}

proof fn lemma_critical_bounded(cs: Seq<(nat, Seq<char>, bool)>, name: Seq<char>)
    ensures
        critical_credits(cs, name) <= credited_papers(cs, name).len(),
    decreases cs.len(),
{
    if cs.len() > 0 {
        lemma_critical_bounded(cs.drop_last(), name);
    }
}

fn key_of(a: &str) -> (r: Option<Vec<char>>)
    ensures
        match r {
            Some(t) => author_key(a@) == Some(t@),
            None => author_key(a@) is None,
        },
{
    let t = trim_chars(&to_chars(a));
    let s = string_from_chars(&t);
    let n = s.as_str().as_bytes().len();
    assert(n == byte_len(t@));
    if n >= 2 {
        Some(t)
    } else {
        None
    }
}

/// Credits each listing to its author name, as described in the module
/// documentation.
pub fn tally_authors(papers: &Vec<PaperAuthors>) -> (r: Vec<AuthorTally>)
    ensures
        tallies_match(r@, credits(papers@)),
{
    let mut out: Vec<AuthorTally> = Vec::new();
    for p in 0..papers.len()
        invariant
            tallies_match(out@, credits(papers@.take(p as int))),
    {
        let authors = &papers[p].authors;
        let critical = papers[p].critical;
        let k_max: usize = if authors.len() < 20 {
            authors.len()
        } else {
            20
        };
        let ghost pc = paper_credits(p as nat, string_views(authors@), critical);
        let ghost base = credits(papers@.take(p as int));
        for k in 0..k_max
            invariant
                k_max <= authors.len(),
                k_max == pc.len(),
                pc == paper_credits(p as nat, string_views(authors@), critical),
                tallies_match(out@, base + pc.take(k as int)),
        {
            let ghost done = base + pc.take(k as int);
            let ghost c = pc[k as int];
            assert(c == (p as nat, authors@[k as int]@, critical));
            assert(base + pc.take(k + 1) =~= done.push(c));
            assert((done.push(c)).drop_last() =~= done);
            match key_of(authors[k].as_str()) {
                Some(t) => {
                    let mut j: usize = 0;
                    let mut found = false;
                    while j < out.len()
                        invariant_except_break
                            !found,
                        invariant
                            j <= out.len(),
                            forall|m: int| 0 <= m < j ==> out@[m].name@ != t@,
                        ensures
                            found ==> j < out.len() && out@[j as int].name@ == t@,
                            !found ==> forall|m: int| 0 <= m < out.len() ==> out@[m].name@ != t@,
                        decreases out.len() - j,
                    {
                        if chars_eq(&to_chars(out[j].name.as_str()), &t) {
                            found = true;
                            break;
                        }
                        j += 1;
                    }
                    let ghost before = out@;
                    proof {
                        lemma_critical_bounded(done, t@);
                    }
                    if found {
                        let mut e = out.remove(j);
                        assert(e == before[j as int]);
                        assert(e.critical <= e.papers.len());
                        e.papers.push(p);
                        let nl = e.papers.len();
                        if critical {
                            e.critical = e.critical + 1;
                        }
                        out.insert(j, e);
                        assert forall|i: int| 0 <= i < out.len() implies {
                            &&& index_views((#[trigger] out@[i]).papers@) == credited_papers(
                                done.push(c),
                                out@[i].name@,
                            )
                            &&& out@[i].critical == critical_credits(done.push(c), out@[i].name@)
                            &&& out@[i].papers.len() > 0
                        } by {
                            if i == j {
                                assert(index_views(out@[i].papers@) =~= index_views(
                                    before[i].papers@,
                                ).push(p as nat));
                            } else {
                                assert(out@[i] == before[i]);
                            }
                        }
                        assert forall|a: int, b: int| 0 <= a < b < out.len() implies out@[a].name@
                            != out@[b].name@ by {
                            assert(out@[a].name == before[a].name);
                            assert(out@[b].name == before[b].name);
                        }
                        assert forall|name: Seq<char>| #[trigger]
                            credited_papers(done.push(c), name).len() > 0 implies exists|i: int|
                            0 <= i < out.len() && out@[i].name@ == name by {
                            if name == t@ {
                                assert(out@[j as int].name@ == name);
                            } else {
                                assert(credited_papers(done, name).len() > 0);
                                let i = choose|i: int| 0 <= i < before.len() && before[i].name@ == name;
                                assert(out@[i].name == before[i].name);
                            }
                        }
                        assert(tallies_match(out@, done.push(c)));
                    } else {
                        assert(credited_papers(done, t@).len() == 0) by {
                            if credited_papers(done, t@).len() > 0 {
                                let i = choose|i: int| 0 <= i < before.len() && before[i].name@ == t@;
                            }
                        }
                        let mut ps: Vec<usize> = Vec::new();
                        ps.push(p);
                        let e = AuthorTally {
                            name: string_from_chars(&t),
                            papers: ps,
                            critical: if critical {
                                1
                            } else {
                                0
                            },
                        };
                        out.push(e);
                        assert forall|i: int| 0 <= i < out.len() implies {
                            &&& index_views((#[trigger] out@[i]).papers@) == credited_papers(
                                done.push(c),
                                out@[i].name@,
                            )
                            &&& out@[i].critical == critical_credits(done.push(c), out@[i].name@)
                            &&& out@[i].papers.len() > 0
                        } by {
                            if i == before.len() {
                                assert(credited_papers(done, t@) =~= Seq::<nat>::empty());
                                assert(index_views(out@[i].papers@) =~= seq![p as nat]);
                            } else {
                                assert(out@[i] == before[i]);
                            }
                        }
                        assert forall|a: int, b: int| 0 <= a < b < out.len() implies out@[a].name@
                            != out@[b].name@ by {
                            if b == before.len() {
                                assert(out@[a] == before[a]);
                            } else {
                                assert(out@[a] == before[a]);
                                assert(out@[b] == before[b]);
                            }
                        }
                        assert forall|name: Seq<char>| #[trigger]
                            credited_papers(done.push(c), name).len() > 0 implies exists|i: int|
                            0 <= i < out.len() && out@[i].name@ == name by {
                            if name == t@ {
                                assert(out@[before.len() as int].name@ == name);
                            } else {
                                assert(credited_papers(done, name).len() > 0);
                                let i = choose|i: int| 0 <= i < before.len() && before[i].name@ == name;
                                assert(out@[i] == before[i]);
                            }
                        }
                        assert(tallies_match(out@, done.push(c)));
                    }
                },
                None => {
                    assert forall|name: Seq<char>|
                        credited_papers(done.push(c), name) == credited_papers(done, name)
                            && critical_credits(done.push(c), name) == critical_credits(done, name) by {}
                    assert forall|name: Seq<char>| #[trigger]
                        credited_papers(done.push(c), name).len() > 0 implies exists|i: int|
                        0 <= i < out.len() && out@[i].name@ == name by {
                        assert(credited_papers(done, name).len() > 0);
                    }
                    assert(tallies_match(out@, done.push(c)));
                },
            }
        }
        proof {
            assert(papers@.take(p + 1).drop_last() =~= papers@.take(p as int));
            assert(papers@.take(p + 1).last() == papers@[p as int]);
            assert(pc.take(k_max as int) =~= pc);
        }
    }
    assert(papers@.take(papers.len() as int) =~= papers@);
    out
}

// ---------------------------------------------------------------------------
// Every listing is counted once.
// ---------------------------------------------------------------------------

/// The number of listings that are credited to some name.
pub open spec fn keyed_count(cs: Seq<(nat, Seq<char>, bool)>) -> nat
    decreases cs.len(),
{
    if cs.len() == 0 {
        0
    } else {
        keyed_count(cs.drop_last()) + if author_key(cs.last().1) is Some {
            1nat
        } else {
            0nat
        }
    }
}

/// The number of papers credited over all tallies.
pub open spec fn tally_total(t: Seq<AuthorTally>) -> nat
    decreases t.len(),
{
    if t.len() == 0 {
        0
    } else {
        tally_total(t.drop_last()) + t.last().papers@.len()
    }
}

spec fn name_sum(ns: Seq<Seq<char>>, cs: Seq<(nat, Seq<char>, bool)>) -> nat
    decreases ns.len(),
{
    if ns.len() == 0 {
        0
    } else {
        name_sum(ns.drop_last(), cs) + credited_papers(cs, ns.last()).len()
    }
}

spec fn occurrences(ns: Seq<Seq<char>>, k: Seq<char>) -> nat
    decreases ns.len(),
{
    if ns.len() == 0 {
        0
    } else {
        occurrences(ns.drop_last(), k) + if ns.last() == k {
            1nat
        } else {
            0nat
        }
    }
}

proof fn lemma_occurs_once(ns: Seq<Seq<char>>, k: Seq<char>)
    requires
        forall|i: int, j: int| 0 <= i < j < ns.len() ==> ns[i] != ns[j],
    ensures
        occurrences(ns, k) == if ns.contains(k) {
            1nat
        } else {
            0nat
        },
    decreases ns.len(),
{
    if ns.len() > 0 {
        let init = ns.drop_last();
        lemma_occurs_once(init, k);
        if ns.last() == k {
            assert(!init.contains(k)) by {
                if init.contains(k) {
                    let i = choose|i: int| 0 <= i < init.len() && init[i] == k;
                    assert(ns[i] == ns[ns.len() - 1]);
                }
            }
            assert(ns[ns.len() - 1] == k);
        } else {
            assert(ns.contains(k) == init.contains(k)) by {
                if ns.contains(k) {
                    let i = choose|i: int| 0 <= i < ns.len() && ns[i] == k;
                    assert(init[i] == k);
                }
                if init.contains(k) {
                    let i = choose|i: int| 0 <= i < init.len() && init[i] == k;
                    assert(ns[i] == k);
                }
            }
        }
    }
}

proof fn lemma_name_sum_step(ns: Seq<Seq<char>>, cs: Seq<(nat, Seq<char>, bool)>, c: (nat, Seq<char>, bool))
    ensures
        name_sum(ns, cs.push(c)) == name_sum(ns, cs) + match author_key(c.1) {
            Some(k) => occurrences(ns, k),
            None => 0nat,
        },
    decreases ns.len(),
{
    assert(cs.push(c).drop_last() =~= cs);
    if ns.len() > 0 {
        lemma_name_sum_step(ns.drop_last(), cs, c);
    }
}

proof fn lemma_name_sum_empty(ns: Seq<Seq<char>>)
    ensures
        name_sum(ns, Seq::empty()) == 0,
    decreases ns.len(),
{
    if ns.len() > 0 {
        lemma_name_sum_empty(ns.drop_last());
    }
}

proof fn lemma_name_sum_covers(ns: Seq<Seq<char>>, cs: Seq<(nat, Seq<char>, bool)>)
    requires
        forall|i: int, j: int| 0 <= i < j < ns.len() ==> ns[i] != ns[j],
        forall|name: Seq<char>| #[trigger] credited_papers(cs, name).len() > 0 ==> ns.contains(name),
    ensures
        name_sum(ns, cs) == keyed_count(cs),
    decreases cs.len(),
{
    if cs.len() == 0 {
        lemma_name_sum_empty(ns);
        assert(cs =~= Seq::<(nat, Seq<char>, bool)>::empty());
    } else {
        let init = cs.drop_last();
        let c = cs.last();
        assert(init.push(c) =~= cs);
        assert forall|name: Seq<char>| #[trigger] credited_papers(init, name).len() > 0 implies ns.contains(
            name,
        ) by {
            assert(credited_papers(cs, name).len() >= credited_papers(init, name).len());
        }
        lemma_name_sum_covers(ns, init);
        lemma_name_sum_step(ns, init, c);
        assert(keyed_count(cs) == keyed_count(init) + if author_key(c.1) is Some {
            1nat
        } else {
            0nat
        });
        match author_key(c.1) {
            Some(k) => {
                assert(credited_papers(cs, k) == credited_papers(init, k).push(c.0));
                assert(credited_papers(cs, k).len() > 0);
                lemma_occurs_once(ns, k);
                assert(ns.contains(k));
                assert(occurrences(ns, k) == 1);
            },
            None => {},
        }
    }
}

spec fn tally_names(t: Seq<AuthorTally>) -> Seq<Seq<char>> {
    t.map_values(|e: AuthorTally| e.name@)
}

proof fn lemma_total_is_name_sum(t: Seq<AuthorTally>, cs: Seq<(nat, Seq<char>, bool)>)
    requires
        forall|i: int|
            0 <= i < t.len() ==> index_views((#[trigger] t[i]).papers@) == credited_papers(cs, t[i].name@),
    ensures
        tally_total(t) == name_sum(tally_names(t), cs),
    decreases t.len(),
{
    if t.len() > 0 {
        let init = t.drop_last();
        assert(tally_names(t).drop_last() =~= tally_names(init));
        assert forall|i: int| 0 <= i < init.len() implies index_views((#[trigger] init[i]).papers@)
            == credited_papers(cs, init[i].name@) by {
            assert(init[i] == t[i]);
        }
        lemma_total_is_name_sum(init, cs);
        let last = t[t.len() - 1];
        assert(index_views(last.papers@).len() == last.papers@.len());
    }
}

/// Every listing credited to a name is counted exactly once over all the
/// tallies: the tallies together hold as many papers as there are such
/// listings.
pub proof fn tallies_count_every_listing(t: Seq<AuthorTally>, cs: Seq<(nat, Seq<char>, bool)>)
    requires
        tallies_match(t, cs),
    ensures
        tally_total(t) == keyed_count(cs),
{
    lemma_total_is_name_sum(t, cs);
    let ns = tally_names(t);
    assert forall|i: int, j: int| 0 <= i < j < ns.len() implies ns[i] != ns[j] by {
        assert(ns[i] == t[i].name@);
        assert(ns[j] == t[j].name@);
    }
    assert forall|name: Seq<char>| #[trigger] credited_papers(cs, name).len() > 0 implies ns.contains(
        name,
    ) by {
        let i = choose|i: int| 0 <= i < t.len() && t[i].name@ == name;
        assert(ns[i] == name);
    }
    lemma_name_sum_covers(ns, cs);
}

} // verus!

//! The order of strings: lexicographic by character. UTF-8 keeps the order
//! of code points, so this is also the byte order that `String` compares by.
use vstd::prelude::*;
use vstd::relations::{sorted_by, total_ordering};
use crate::chars::string_views;

verus! {

/// Whether `a` sorts strictly before `b`.
pub open spec fn str_lt(a: Seq<char>, b: Seq<char>) -> bool
    decreases a.len(),
{
    if a.len() == 0 {
        b.len() > 0
    } else if b.len() == 0 {
        false
    } else if (a[0] as int) < (b[0] as int) {
        true
    } else if a[0] == b[0] {
        str_lt(a.skip(1), b.skip(1))
    } else {
        false
    }
}

pub proof fn lemma_str_lt_irreflexive(a: Seq<char>)
    ensures
        !str_lt(a, a),
    decreases a.len(),
{
    if a.len() > 0 {
        lemma_str_lt_irreflexive(a.skip(1));
    }
}

pub proof fn lemma_str_lt_total(a: Seq<char>, b: Seq<char>)
    ensures
        a == b || str_lt(a, b) || str_lt(b, a),
    decreases a.len(),
{
    if a.len() > 0 && b.len() > 0 && a[0] == b[0] {
        lemma_str_lt_total(a.skip(1), b.skip(1));
        if a.skip(1) == b.skip(1) {
            assert(a =~= seq![a[0]] + a.skip(1));
            assert(b =~= seq![b[0]] + b.skip(1));
        }
    } else if a.len() > 0 && b.len() > 0 {
        assert((a[0] as int) != (b[0] as int));
    } else if a.len() == 0 && b.len() == 0 {
        assert(a =~= b);
    }
}

pub proof fn lemma_str_lt_transitive(a: Seq<char>, b: Seq<char>, c: Seq<char>)
    requires
        str_lt(a, b),
        str_lt(b, c),
    ensures
        str_lt(a, c),
    decreases a.len(),
{
    if a.len() > 0 && b.len() > 0 && c.len() > 0 && a[0] == b[0] && b[0] == c[0] {
        lemma_str_lt_transitive(a.skip(1), b.skip(1), c.skip(1));
    }
}

/// Whether `a` sorts strictly before `b`.
pub fn chars_lt(a: &Vec<char>, b: &Vec<char>) -> (r: bool)
    ensures
        r == str_lt(a@, b@),
{
    let mut i: usize = 0;
    assert(a@.skip(0) =~= a@);
    assert(b@.skip(0) =~= b@);
    while i < a.len() && i < b.len() && a[i] == b[i]
        invariant
            i <= a.len(),
            i <= b.len(),
            str_lt(a@, b@) == str_lt(a@.skip(i as int), b@.skip(i as int)),
        decreases a.len() - i,
    {
        let ghost x = a@.skip(i as int);
        let ghost y = b@.skip(i as int);
        assert(x.skip(1) =~= a@.skip(i + 1));
        assert(y.skip(1) =~= b@.skip(i + 1));
        i += 1;
    }
    let ghost x = a@.skip(i as int);
    let ghost y = b@.skip(i as int);
    if i == a.len() {
        i < b.len()
    } else if i == b.len() {
        false
    } else {
        assert(x[0] == a@[i as int] && y[0] == b@[i as int]);
        a[i] < b[i]
    }
}

/// Whether the string `a` sorts strictly before `b`.
pub fn str_less(a: &str, b: &str) -> (r: bool)
    ensures
        r == str_lt(a@, b@),
{
    chars_lt(&crate::chars::to_chars(a), &crate::chars::to_chars(b))
}

/// `a` sorts before `b` or equals it.
pub open spec fn str_leq() -> spec_fn(Seq<char>, Seq<char>) -> bool {
    |a: Seq<char>, b: Seq<char>| !str_lt(b, a)
}

/// The order of strings is a total order.
pub proof fn lemma_str_leq_total_ordering()
    ensures
        total_ordering(str_leq()),
{
    assert forall|x: Seq<char>| #[trigger] str_leq()(x, x) by {
        lemma_str_lt_irreflexive(x);
    }
    assert forall|x: Seq<char>, y: Seq<char>| #[trigger] str_leq()(x, y) && #[trigger] str_leq()(y, x) implies x
        == y by {
        lemma_str_lt_total(x, y);
    }
    assert forall|x: Seq<char>, y: Seq<char>, z: Seq<char>| #[trigger] str_leq()(x, y) && #[trigger] str_leq()(
        y,
        z,
    ) implies str_leq()(x, z) by {
        if str_lt(z, x) {
            lemma_str_lt_total(x, y);
            if str_lt(x, y) {
                lemma_str_lt_transitive(z, x, y);
            }
        }
    }
    assert forall|x: Seq<char>, y: Seq<char>| #[trigger] str_leq()(x, y) || #[trigger] str_leq()(y, x) by {
        lemma_str_lt_total(x, y);
        if str_lt(x, y) && str_lt(y, x) {
            lemma_str_lt_transitive(x, y, x);
            lemma_str_lt_irreflexive(x);
        }
    }
}

/// Sorts strings in increasing order, as `sort` does on `String`s.
pub fn sort_strings(v: Vec<String>) -> (r: Vec<String>)
    ensures
        string_views(r@) == string_views(v@).sort_by(str_leq()),
{
    proof {
        lemma_str_leq_total_ordering();
    }
    let ghost vv = string_views(v@);
    let mut out: Vec<String> = Vec::new();
    let mut rest = v;
    let ghost mut taken: Seq<Seq<char>> = Seq::empty();
    assert(string_views(out@) =~= taken);
    assert(vv =~= taken + string_views(rest@));
    while rest.len() > 0
        invariant
            total_ordering(str_leq()),
            vv == taken + string_views(rest@),
            sorted_by(string_views(out@), str_leq()),
            string_views(out@).to_multiset() == taken.to_multiset(),
        decreases rest.len(),
    {
        let ghost rb = rest@;
        let x = rest.remove(0);
        let ghost xs = string_views(out@);
        let xc = crate::chars::to_chars(x.as_str());
        let mut pos: usize = 0;
        while pos < out.len() && !chars_lt(&xc, &crate::chars::to_chars(out[pos].as_str()))
            invariant
                pos <= out.len(),
                xs == string_views(out@),
                xc@ == x@,
                forall|k: int| 0 <= k < pos ==> !str_lt(x@, #[trigger] xs[k]),
            decreases out.len() - pos,
        {
            pos += 1;
        }
        let ghost old_taken = taken;
        proof {
            taken = taken.push(x@);
        }
        out.insert(pos, x);
        proof {
            let ys = string_views(out@);
            assert(ys =~= xs.insert(pos as int, x@));
            assert(string_views(rb) =~= seq![x@] + string_views(rest@));
            assert(vv =~= taken + string_views(rest@));
            vstd::seq_lib::to_multiset_insert(xs, pos as int, x@);
            assert(ys.to_multiset() == xs.to_multiset().insert(x@));
            assert(taken.to_multiset() == old_taken.to_multiset().insert(x@)) by {
                broadcast use vstd::seq_lib::to_multiset_build;
            }
            assert forall|i: int, j: int| 0 <= i < j < ys.len() implies #[trigger] str_leq()(ys[i], ys[j]) by {
                if j < pos {
                    assert(str_leq()(xs[i], xs[j]));
                } else if j == pos {
                    assert(!str_lt(x@, xs[i]));
                } else if i == pos {
                    if pos < xs.len() {
                        assert(str_lt(x@, xs[pos as int]));
                        if (pos as int) < j - 1 {
                            assert(str_leq()(xs[pos as int], xs[j - 1]));
                        }
                        if str_lt(xs[j - 1], x@) {
                            lemma_str_lt_transitive(xs[j - 1], x@, xs[pos as int]);
                            if (pos as int) < j - 1 {
                                assert(!str_lt(xs[j - 1], xs[pos as int]));
                            } else {
                                lemma_str_lt_irreflexive(xs[pos as int]);
                            }
                        }
                    }
                } else if i < pos {
                    assert(str_leq()(xs[i], xs[j - 1]));
                } else {
                    assert(str_leq()(xs[i - 1], xs[j - 1]));
                }
            }
        }
    }
    proof {
        assert(string_views(rest@) =~= Seq::<Seq<char>>::empty());
        assert(taken =~= vv);
        vv.lemma_sort_by_ensures(str_leq());
        vstd::seq_lib::lemma_sorted_unique(string_views(out@), vv.sort_by(str_leq()), str_leq());
    }
    out
}

} // verus!

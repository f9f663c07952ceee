//! Sorting pairs of integers in their lexicographic order, which is the order
//! `Ord` gives to tuples. Ranges, cut points, match indices and scored picker
//! entries are all sorted through this one routine.
use vstd::prelude::*;
use vstd::relations::*;
use vstd::seq_lib::*;
use vstd::multiset::*;

verus! {

/// The lexicographic order on `(usize, usize)`, as `Ord` for tuples defines it.
pub open spec fn pair_leq() -> spec_fn((usize, usize), (usize, usize)) -> bool {
    |a: (usize, usize), b: (usize, usize)| a.0 < b.0 || (a.0 == b.0 && a.1 <= b.1)
}

pub proof fn lemma_pair_leq_total()
    ensures
        total_ordering(pair_leq()),
{
}

/// `pair_leq` computed.
pub fn pair_le(a: (usize, usize), b: (usize, usize)) -> (r: bool)
    ensures
        r == pair_leq()(a, b),
{
    a.0 < b.0 || (a.0 == b.0 && a.1 <= b.1)
}

proof fn lemma_insert_multiset(s: Seq<(usize, usize)>, p: int, x: (usize, usize))
    requires
        0 <= p <= s.len(),
    ensures
        s.insert(p, x).to_multiset() =~= s.to_multiset().insert(x),
{
    broadcast use group_to_multiset_ensures;
    broadcast use group_multiset_properties;

    let t = s.insert(p, x);
    assert(t.remove(p) =~= s);
    assert(t.to_multiset().remove(x) =~= s.to_multiset());
    assert(t.contains(x)) by {
        assert(t[p] == x);
    }
    assert(t.to_multiset().count(x) > 0);
}

/// `v` sorted by `pair_leq`: what `sort_unstable` yields on a vector of
/// pairs (equal pairs are indistinguishable, so stability does not matter).
pub fn sort_pairs(v: &Vec<(usize, usize)>) -> (r: Vec<(usize, usize)>)
    ensures
        r@ == v@.sort_by(pair_leq()),
{
    broadcast use group_to_multiset_ensures;

    let mut r: Vec<(usize, usize)> = Vec::new();
    let mut i: usize = 0;
    while i < v.len()
        invariant
            i <= v.len(),
            sorted_by(r@, pair_leq()),
            r@.to_multiset() == v@.take(i as int).to_multiset(),
        decreases v.len() - i,
    {
        let x = v[i];
        let mut p: usize = 0;
        while p < r.len() && pair_le(r[p], x)
            invariant
                p <= r.len(),
                forall|k: int| 0 <= k < p ==> pair_leq()(#[trigger] r@[k], x),
            decreases r.len() - p,
        {
            p = p + 1;
        }
        let ghost old_r = r@;
        r.insert(p, x);
        proof {
            lemma_insert_multiset(old_r, p as int, x);
            assert(v@.take(i + 1) =~= v@.take(i as int).push(x));
            to_multiset_build(v@.take(i as int), x);
            assert(r@ == old_r.insert(p as int, x));
            assert(r@.to_multiset() =~= v@.take(i + 1).to_multiset());
            assert forall|a: int, b: int| 0 <= a < b < r@.len() implies #[trigger] pair_leq()(
                r@[a],
                r@[b],
            ) by {
                if b < p {
                    assert(r@[a] == old_r[a] && r@[b] == old_r[b]);
                } else if b == p {
                    assert(r@[a] == old_r[a]);
                } else if a < p {
                    assert(r@[a] == old_r[a] && r@[b] == old_r[b - 1]);
                    assert(pair_leq()(old_r[a], old_r[b - 1]));
                } else if a == p {
                    assert(r@[b] == old_r[b - 1]);
                    assert(!pair_leq()(old_r[p as int], x));
                    assert(pair_leq()(old_r[p as int], old_r[b - 1]) || p == b - 1);
                } else {
                    assert(r@[a] == old_r[a - 1] && r@[b] == old_r[b - 1]);
                }
            }
        }
        i = i + 1;
    }
    proof {
        assert(v@.take(i as int) =~= v@);
        v@.lemma_sort_by_ensures(pair_leq());
        lemma_sorted_unique(r@, v@.sort_by(pair_leq()), pair_leq());
    }
    r
}

} // verus!

//! Sorting index lists.

use vstd::prelude::*;
use vstd::relations::{sorted_by, total_ordering};

verus! {

/// The usual order on `usize`.
pub open spec fn usize_leq() -> spec_fn(usize, usize) -> bool {
    |a: usize, b: usize| a <= b
}

/// `<=` is a total order on `usize`.
pub proof fn lemma_usize_leq_total()
    ensures
        total_ordering(usize_leq()),
{
}

/// Sorts `v` into non-decreasing order.
pub fn sort_usizes(v: &Vec<usize>) -> (r: Vec<usize>)
    ensures
        r@ == v@.sort_by(usize_leq()),
{
    let mut r: Vec<usize> = Vec::new();
    let mut i: usize = 0;
    assert(r@ =~= v@.take(0));
    while i < v.len()
        invariant
            i <= v@.len(),
            sorted_by(r@, usize_leq()),
            r@.to_multiset() == v@.take(i as int).to_multiset(),
        decreases v@.len() - i,
    {
        let x = v[i];
        let mut pos: usize = 0;
        while pos < r.len() && r[pos] <= x
            invariant
                pos <= r@.len(),
                forall|j: int| 0 <= j < pos ==> r@[j] <= x,
            decreases r@.len() - pos,
        {
            pos = pos + 1;
        }
        let ghost before = r@;
        r.insert(pos, x);
        proof {
            broadcast use vstd::seq_lib::group_to_multiset_ensures;
            assert(v@.take(i + 1) =~= v@.take(i as int).push(x));
            assert(r@ == before.insert(pos as int, x));
            assert forall|a: int, b: int| 0 <= a < b < r@.len() implies #[trigger] usize_leq()(
                r@[a],
                r@[b],
            ) by {
                if b < pos {
                    assert(usize_leq()(before[a], before[b]));
                } else if b == pos {
                    assert(before[a] <= x);
                } else if a < pos {
                    assert(before[a] <= x);
                    assert(!(before[pos as int] <= x));
                    assert(usize_leq()(before[pos as int], before[b - 1]) || pos == b - 1);
                } else if a == pos {
                    assert(!(before[pos as int] <= x));
                    assert(usize_leq()(before[pos as int], before[b - 1]) || pos == b - 1);
                } else {
                    assert(usize_leq()(before[a - 1], before[b - 1]));
                }
            }
        }
        i = i + 1;
    }
    proof {
        assert(v@.take(i as int) =~= v@);
        lemma_usize_leq_total();
        v@.lemma_sort_by_ensures(usize_leq());
        vstd::seq_lib::lemma_sorted_unique(r@, v@.sort_by(usize_leq()), usize_leq());
    }
    r
}

} // verus!

//! Choosing the features a tree node may split on: every feature not yet
//! used on the path from the root, shuffled, and the first few of them.

use vstd::prelude::*;
use crate::order::{sort_usizes, usize_leq, lemma_usize_leq_total};
use crate::random::{range_seq, index_range, shuffle_in_place};

verus! {

/// A value below `n`.
pub open spec fn below(n: usize) -> spec_fn(usize) -> bool {
    |c: usize| c < n
}

/// The positions in `0..n` that hold an already chosen feature: one per
/// chosen feature below `n`, in the order the features were chosen.
pub open spec fn chosen_positions(n: usize, chosen: Seq<usize>) -> Seq<usize> {
    chosen.filter(below(n))
}

/// Removing the `k`-th of the sorted positions `q` at `q[k] - k` stays in
/// range for every `k`.
pub open spec fn removal_fits(q: Seq<usize>) -> bool {
    forall|k: int| 0 <= k < q.len() ==> k <= #[trigger] q[k]
}

/// `s` after removing, for each `k` in turn, the element at `q[k] - k`.
pub open spec fn remove_shifted(s: Seq<usize>, q: Seq<usize>) -> Seq<usize>
    decreases q.len(),
{
    if q.len() == 0 {
        s
    } else {
        remove_shifted(s, q.drop_last()).remove(q.last() - (q.len() - 1))
    }
}

/// The features `0..n` with the positions of the chosen ones removed, the
/// positions taken in increasing order and each shifted down by the number
/// removed before it; `None` where a shifted position would be negative.
pub open spec fn available_features_spec(n: usize, chosen: Seq<usize>) -> Option<Seq<usize>> {
    let q = chosen_positions(n, chosen).sort_by(usize_leq());
    if removal_fits(q) {
        Some(remove_shifted(range_seq(n as nat), q))
    } else {
        None
    }
}

/// The features among `0..n` that a node may still split on, given the
/// features `chosen` on the path above it.
pub fn available_features(n: usize, chosen: &Vec<usize>) -> (r: Option<Vec<usize>>)
    ensures
        match r {
            Some(v) => available_features_spec(n, chosen@) == Some(v@),
            None => available_features_spec(n, chosen@) is None,
        },
{
    let mut feature_indexes = index_range(n);
    let mut positions: Vec<usize> = Vec::new();
    let mut c: usize = 0;
    while c < chosen.len()
        invariant
            c <= chosen@.len(),
            feature_indexes@ == range_seq(n as nat),
            positions@ == chosen_positions(n, chosen@.take(c as int)),
        decreases chosen@.len() - c,
    {
        let chosen_feature = chosen[c];
        let ghost before = positions@;
        let mut index: usize = 0;
        while index < feature_indexes.len()
            invariant
                index <= n,
                feature_indexes@ == range_seq(n as nat),
                positions@ == if chosen_feature < index {
                    before.push(chosen_feature)
                } else {
                    before
                },
            decreases n - index,
        {
            if feature_indexes[index] == chosen_feature {
                positions.push(index);
            }
            index = index + 1;
        }
        proof {
            assert(chosen@.take(c + 1) =~= chosen@.take(c as int).push(chosen_feature));
            chosen@.take(c as int).lemma_filter_push(chosen_feature, below(n));
        }
        c = c + 1;
    }
    assert(chosen@.take(c as int) =~= chosen@);
    let sorted = sort_usizes(&positions);
    let ghost q = sorted@;
    proof {
        lemma_usize_leq_total();
        positions@.lemma_sort_by_ensures(usize_leq());
        assert forall|k: int| 0 <= k < q.len() implies #[trigger] q[k] < n by {
            assert(q.contains(q[k]));
            if !positions@.contains(q[k]) {
                assert(!q.contains(q[k]));
            }
            let j = choose|j: int| 0 <= j < positions@.len() && positions@[j] == q[k];
            broadcast use vstd::seq_lib::group_filter_ensures;
            assert(chosen@.filter(below(n)) == positions@);
            assert(below(n)(positions@[j]));
        }
    }
    let mut k: usize = 0;
    while k < sorted.len()
        invariant
            k <= q.len(),
            q == sorted@,
            q == chosen_positions(n, chosen@).sort_by(usize_leq()),
            forall|j: int| 0 <= j < q.len() ==> #[trigger] q[j] < n,
            forall|j: int| 0 <= j < k ==> j <= #[trigger] q[j],
            feature_indexes@ == remove_shifted(range_seq(n as nat), q.take(k as int)),
            feature_indexes@.len() == n - k,
        decreases q.len() - k,
    {
        let position = sorted[k];
        if position < k {
            assert(!removal_fits(q));
            return None;
        }
        proof {
            assert(q.take(k + 1).drop_last() =~= q.take(k as int));
        }
        feature_indexes.remove(position - k);
        k = k + 1;
    }
    assert(q.take(k as int) =~= q);
    Some(feature_indexes)
}

/// Why no candidate features could be picked.
#[derive(Debug, Clone, Copy, PartialEq, Eq, Structural)]
pub enum PickError {
    /// Removing the chosen features would step before the list's start
    /// (a feature chosen twice).
    PositionUnderflow,
    /// Fewer features remain than are to be considered.
    TooFewFeatures,
}

/// The first `count` elements of `v`, which must have at least that many.
pub fn take_prefix(v: &Vec<usize>, count: usize) -> (r: Vec<usize>)
    requires
        count <= v@.len(),
    ensures
        r@ == v@.take(count as int),
{
    let mut r: Vec<usize> = Vec::new();
    let mut index: usize = 0;
    while index < count
        invariant
            index <= count <= v@.len(),
            r@ == v@.take(index as int),
        decreases count - index,
    {
        r.push(v[index]);
        index = index + 1;
        assert(r@ =~= v@.take(index as int));
    }
    r
}

/// Picks `number_of_feature_to_consider` features at random among those a
/// node may still split on: the available features, shuffled, and the
/// first of them.
pub fn pick_features(n: usize, chosen: &Vec<usize>, number_of_feature_to_consider: usize) -> (r:
    Result<Vec<usize>, PickError>)
    ensures
        match r {
            Ok(v) => exists|avail: Seq<usize>, p: Seq<usize>|
                {
                    &&& available_features_spec(n, chosen@) == Some(avail)
                    &&& avail.len() >= number_of_feature_to_consider
                    &&& p.to_multiset() == avail.to_multiset()
                    &&& v@ == p.take(number_of_feature_to_consider as int)
                },
            Err(PickError::PositionUnderflow) => available_features_spec(n, chosen@) is None,
            Err(PickError::TooFewFeatures) => exists|avail: Seq<usize>|
                {
                    &&& available_features_spec(n, chosen@) == Some(avail)
                    &&& avail.len() < number_of_feature_to_consider
                },
        },
{
    let mut feature_indexes = match available_features(n, chosen) {
        Some(v) => v,
        None => {
            return Err(PickError::PositionUnderflow);
        },
    };
    let ghost avail = feature_indexes@;
    shuffle_in_place(&mut feature_indexes);
    proof {
        vstd::seq_lib::to_multiset_len(avail);
        vstd::seq_lib::to_multiset_len(feature_indexes@);
    }
    if feature_indexes.len() < number_of_feature_to_consider {
        return Err(PickError::TooFewFeatures);
    }
    let chosen_feature_indexes = take_prefix(&feature_indexes, number_of_feature_to_consider);
    proof {
        assert(available_features_spec(n, chosen@) == Some(avail));
    }
    Ok(chosen_feature_indexes)
}

/// A value that does not occur in `q`.
pub open spec fn not_in(q: Seq<usize>) -> spec_fn(usize) -> bool {
    |f: usize| !q.contains(f)
}

/// Each element is greater than the ones before it.
pub open spec fn strictly_increasing(q: Seq<usize>) -> bool {
    forall|i: int, j: int| 0 <= i < j < q.len() ==> #[trigger] q[i] < #[trigger] q[j]
}

proof fn lemma_filter_congruent(s: Seq<usize>, p1: spec_fn(usize) -> bool, p2: spec_fn(usize) -> bool)
    requires
        forall|i: int| 0 <= i < s.len() ==> p1(#[trigger] s[i]) == p2(s[i]),
    ensures
        s.filter(p1) == s.filter(p2),
    decreases s.len(),
{
    if s.len() > 0 {
        let e = s.drop_last();
        assert forall|i: int| 0 <= i < e.len() implies p1(#[trigger] e[i]) == p2(e[i]) by {
            assert(e[i] == s[i]);
        }
        lemma_filter_congruent(e, p1, p2);
        assert(e.push(s.last()) =~= s);
        e.lemma_filter_push(s.last(), p1);
        e.lemma_filter_push(s.last(), p2);
    }
}

proof fn lemma_remove_shifted_len(s: Seq<usize>, q: Seq<usize>)
    requires
        forall|k: int| 0 <= k < q.len() ==> k <= #[trigger] q[k] < s.len(),
    ensures
        remove_shifted(s, q).len() == s.len() - q.len(),
    decreases q.len(),
{
    if q.len() > 0 {
        let e = q.drop_last();
        assert forall|k: int| 0 <= k < e.len() implies k <= #[trigger] e[k] < s.len() by {
            assert(e[k] == q[k]);
        }
        lemma_remove_shifted_len(s, e);
        assert(q.last() == q[q.len() - 1]);
    }
}

proof fn lemma_remove_shifted_push(s: Seq<usize>, a: usize, q: Seq<usize>)
    requires
        forall|k: int| 0 <= k < q.len() ==> k <= #[trigger] q[k] < s.len(),
    ensures
        remove_shifted(s.push(a), q) == remove_shifted(s, q).push(a),
    decreases q.len(),
{
    if q.len() > 0 {
        let e = q.drop_last();
        assert forall|k: int| 0 <= k < e.len() implies k <= #[trigger] e[k] < s.len() by {
            assert(e[k] == q[k]);
        }
        lemma_remove_shifted_push(s, a, e);
        lemma_remove_shifted_len(s, e);
        assert(q.last() == q[q.len() - 1]);
        let x = remove_shifted(s, e);
        let i = q.last() - (q.len() - 1);
        assert(x.push(a).remove(i) =~= x.remove(i).push(a));
    }
}

proof fn lemma_range_push(n: nat)
    requires
        n > 0,
    ensures
        range_seq(n) == range_seq((n - 1) as nat).push((n - 1) as usize),
{
    assert(range_seq(n) =~= range_seq((n - 1) as nat).push((n - 1) as usize));
}

proof fn lemma_removal_is_filter(n: nat, q: Seq<usize>)
    requires
        strictly_increasing(q),
        forall|k: int| 0 <= k < q.len() ==> #[trigger] q[k] < n,
        n <= usize::MAX + 1,
    ensures
        forall|k: int| 0 <= k < q.len() ==> k <= #[trigger] q[k],
        remove_shifted(range_seq(n), q) == range_seq(n).filter(not_in(q)),
    decreases n,
{
    lemma_increasing_fits(q);
    if n == 0 {
        if q.len() > 0 {
            assert(q[0] < 0);
        }
        assert(range_seq(0) =~= Seq::<usize>::empty());
    } else {
        let m = (n - 1) as nat;
        let top = (n - 1) as usize;
        lemma_range_push(n);
        if q.len() > 0 && q.last() == top {
            let e = q.drop_last();
            assert forall|k: int| 0 <= k < e.len() implies #[trigger] e[k] < m by {
                assert(e[k] == q[k]);
                assert(q[k] < q[q.len() - 1]);
            }
            assert(strictly_increasing(e)) by {
                assert forall|i: int, j: int| 0 <= i < j < e.len() implies #[trigger] e[i] < #[trigger] e[j] by {
                    assert(e[i] == q[i] && e[j] == q[j]);
                }
            }
            lemma_removal_is_filter(m, e);
            lemma_increasing_fits(e);
            assert forall|k: int| 0 <= k < e.len() implies k <= #[trigger] e[k] < range_seq(m).len() by {}
            lemma_remove_shifted_push(range_seq(m), top, e);
            lemma_remove_shifted_len(range_seq(m), e);
            let x = remove_shifted(range_seq(m), e);
            assert(e =~= q.drop_last());
            assert(remove_shifted(range_seq(n), q) == x.push(top).remove(q.last() - (q.len() - 1)));
            assert(x.push(top).remove(x.len() as int) =~= x);
            range_seq(m).lemma_filter_push(top, not_in(q));
            assert(q.contains(top)) by {
                assert(q[q.len() - 1] == top);
            }
            assert forall|i: int| 0 <= i < range_seq(m).len() implies not_in(q)(#[trigger] range_seq(m)[i]) == not_in(e)(range_seq(m)[i]) by {
                let f = range_seq(m)[i];
                if q.contains(f) {
                    let j = choose|j: int| 0 <= j < q.len() && q[j] == f;
                    if j == q.len() - 1 {
                        assert(f == top);
                    } else {
                        assert(e[j] == f);
                    }
                }
                if e.contains(f) {
                    let j = choose|j: int| 0 <= j < e.len() && e[j] == f;
                    assert(q[j] == f);
                }
            }
            lemma_filter_congruent(range_seq(m), not_in(q), not_in(e));
        } else {
            assert forall|k: int| 0 <= k < q.len() implies #[trigger] q[k] < m by {
                if k < q.len() - 1 {
                    assert(q[k] < q[q.len() - 1]);
                }
            }
            lemma_removal_is_filter(m, q);
            assert forall|k: int| 0 <= k < q.len() implies k <= #[trigger] q[k] < range_seq(m).len() by {}
            lemma_remove_shifted_push(range_seq(m), top, q);
            range_seq(m).lemma_filter_push(top, not_in(q));
            assert(!q.contains(top)) by {
                if q.contains(top) {
                    let j = choose|j: int| 0 <= j < q.len() && q[j] == top;
                    assert(q[j] < m);
                }
            }
        }
    }
}

proof fn lemma_increasing_fits(q: Seq<usize>)
    requires
        strictly_increasing(q),
    ensures
        forall|k: int| 0 <= k < q.len() ==> k <= #[trigger] q[k],
    decreases q.len(),
{
    if q.len() > 0 {
        let e = q.drop_last();
        assert(strictly_increasing(e)) by {
            assert forall|i: int, j: int| 0 <= i < j < e.len() implies #[trigger] e[i] < #[trigger] e[j] by {
                assert(e[i] == q[i] && e[j] == q[j]);
            }
        }
        lemma_increasing_fits(e);
        assert forall|k: int| 0 <= k < q.len() implies k <= #[trigger] q[k] by {
            if k < q.len() - 1 {
                assert(e[k] == q[k]);
            } else if k > 0 {
                assert(e[k - 1] == q[k - 1]);
                assert(q[k - 1] < q[k]);
            }
        }
    }
}

/// When no feature below `n` was chosen twice, the available features are
/// exactly those of `0..n` that were not chosen, in increasing order: a
/// split never reuses a feature already used above it.
pub proof fn lemma_available_features_exclude_chosen(n: usize, chosen: Seq<usize>)
    requires
        chosen_positions(n, chosen).no_duplicates(),
    ensures
        available_features_spec(n, chosen) == Some(range_seq(n as nat).filter(not_in(chosen))),
{
    broadcast use vstd::seq_lib::group_filter_ensures;
    let p = chosen_positions(n, chosen);
    let q = p.sort_by(usize_leq());
    lemma_usize_leq_total();
    p.lemma_sort_by_ensures(usize_leq());
    p.lemma_multiset_has_no_duplicates();
    assert forall|x: usize| q.to_multiset().contains(x) implies q.to_multiset().count(x) == 1 by {}
    q.lemma_multiset_has_no_duplicates_conv();
    assert(strictly_increasing(q)) by {
        assert forall|i: int, j: int| 0 <= i < j < q.len() implies #[trigger] q[i] < #[trigger] q[j] by {
            assert(usize_leq()(q[i], q[j]));
        }
    }
    assert forall|x: usize| q.contains(x) <==> p.contains(x) by {
        vstd::seq_lib::to_multiset_contains(q, x);
        vstd::seq_lib::to_multiset_contains(p, x);
    }
    assert forall|k: int| 0 <= k < q.len() implies #[trigger] q[k] < n by {
        assert(q.contains(q[k]));
        let j = choose|j: int| 0 <= j < p.len() && p[j] == q[k];
        assert(below(n)(p[j]));
    }
    lemma_removal_is_filter(n as nat, q);
    assert forall|i: int| 0 <= i < range_seq(n as nat).len() implies not_in(q)(#[trigger] range_seq(n as nat)[i]) == not_in(chosen)(range_seq(n as nat)[i]) by {
        let f = range_seq(n as nat)[i];
        assert(f < n);
        if chosen.contains(f) {
            let j = choose|j: int| 0 <= j < chosen.len() && chosen[j] == f;
            assert(below(n)(chosen[j]));
            assert(p.contains(f));
        }
        if p.contains(f) {
            chosen.lemma_filter_contains_rev(below(n), f);
        }
    }
    lemma_filter_congruent(range_seq(n as nat), not_in(q), not_in(chosen));
}

} // verus!

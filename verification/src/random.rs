//! Randomness from the thread-local generator of `rand`.

use vstd::prelude::*;
use rand::seq::SliceRandom;
use rand::Rng;

verus! {

/// Shuffles `v` in place with `SliceRandom::shuffle` on the thread-local
/// generator. Trusted: rand's shuffle only swaps elements, so the result
/// holds the same elements, each as often; which order comes out is left
/// open, as it depends on the generator's state.
#[verifier::external_body]
pub(crate) fn shuffle_in_place(v: &mut Vec<usize>)
    ensures
        final(v)@.to_multiset() == old(v)@.to_multiset(),
{
    v.shuffle(&mut rand::thread_rng());
}

/// Draws a number from `0..upper` with `Rng::gen_range` on the thread-local
/// generator. Trusted: rand returns a value inside the half-open range and
/// panics on an empty one, which `requires` rules out; the value itself is
/// left open.
#[verifier::external_body]
pub(crate) fn random_below(upper: usize) -> (r: usize)
    requires
        upper > 0,
    ensures
        r < upper,
{
    rand::thread_rng().gen_range(0..upper)
}

/// The numbers `0..n` in increasing order.
pub open spec fn range_seq(n: nat) -> Seq<usize> {
    Seq::new(n, |i: int| i as usize)
}

/// Builds the list `0..n`.
pub fn index_range(n: usize) -> (r: Vec<usize>)
    ensures
        r@ == range_seq(n as nat),
{
    let mut r: Vec<usize> = Vec::new();
    let mut i: usize = 0;
    while i < n
        invariant
            i <= n,
            r@ == range_seq(i as nat),
        decreases n - i,
    {
        r.push(i);
        i = i + 1;
        assert(r@ =~= range_seq(i as nat));
    }
    r
}

/// The indexes `0..n` in a random order.
pub fn shuffled_range(n: usize) -> (r: Vec<usize>)
    ensures
        r@.to_multiset() == range_seq(n as nat).to_multiset(),
{
    let mut r = index_range(n);
    shuffle_in_place(&mut r);
    r
}

/// `count` numbers drawn independently from `0..upper`.
pub fn random_picks(count: usize, upper: usize) -> (r: Vec<usize>)
    requires
        count > 0 ==> upper > 0,
    ensures
        r@.len() == count,
        forall|k: int| 0 <= k < count ==> #[trigger] r@[k] < upper,
{
    let mut r: Vec<usize> = Vec::new();
    let mut i: usize = 0;
    while i < count
        invariant
            i <= count,
            count > 0 ==> upper > 0,
            r@.len() == i,
            forall|k: int| 0 <= k < i ==> #[trigger] r@[k] < upper,
        decreases count - i,
    {
        let x = random_below(upper);
        r.push(x);
        i = i + 1;
    }
    r
}

} // verus!

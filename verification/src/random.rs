use rand::prelude::SliceRandom;
use rand::Rng;
use vstd::prelude::*;

verus! {

/// Draws a number uniformly from `low..high` with `rand::Rng::gen_range`
/// on the thread-local generator (`rand::thread_rng`).
///
/// Trusted: the contract claims only that the result lies in the range,
/// which is what `gen_range` documents; which value comes back is chance.
/// `gen_range` panics on an empty range, which `requires` rules out.
#[verifier::external_body]
pub(crate) fn gen_range(low: usize, high: usize) -> (r: usize)
    requires
        low < high,
    ensures
        low <= r < high,
{
    rand::thread_rng().gen_range(low..high)
}

/// Shuffles the slice in place with `rand::seq::SliceRandom::shuffle` on the
/// thread-local generator.
///
/// Trusted: the contract claims that the result is a permutation of the
/// input (same length, same multiset of elements); `shuffle` swaps elements
/// pairwise (Fisher-Yates). Which permutation comes back is chance.
#[verifier::external_body]
pub(crate) fn shuffle<'a>(v: &mut Vec<&'a str>)
    ensures
        final(v)@.len() == old(v)@.len(),
        final(v)@.to_multiset() == old(v)@.to_multiset(),
{
    v.shuffle(&mut rand::thread_rng());
}

} // verus!

//! Thin trusted wrappers around the random number generator. Nothing is
//! assumed of the randomness beyond the documented range of each call.

use vstd::prelude::*;
use rand::seq::SliceRandom;

verus! {

/// Relies on `rand::random_range` over an inclusive range: the result lies
/// within the bounds.
#[verifier::external_body]
pub(crate) fn random_in_range(lo: usize, hi: usize) -> (r: usize)
    requires
        lo <= hi,
    ensures
        lo <= r <= hi,
{
    rand::random_range(lo..=hi)
}

/// Relies on `rand::random::<u8>`: nothing is assumed of the result.
#[verifier::external_body]
pub(crate) fn random_byte() -> u8 {
    rand::random()
}

/// Relies on `rand::seq::SliceRandom::shuffle`: the slice is permuted in
/// place, so it holds exactly the same elements afterwards.
#[verifier::external_body]
pub(crate) fn shuffle_indices(v: &mut Vec<usize>)
    ensures
        final(v)@.to_multiset() == old(v)@.to_multiset(),
{
    v.shuffle(&mut rand::rng());
}

} // verus!

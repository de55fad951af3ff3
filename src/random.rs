//! The source of randomness: rand's thread-local generator.
use vstd::prelude::*;
use rand::seq::SliceRandom;
use rand::Rng;

verus! {

/// Relies on `rand::thread_rng` and `Rng::gen_range` over `0..=size`: the
/// range is never empty, so the call does not panic, and the value drawn lies
/// in it.
#[verifier::external_body]
pub(crate) fn random_offset(size: usize) -> (r: usize)
    ensures
        r <= size,
{
    rand::thread_rng().gen_range(0..=size)
}

/// Relies on `SliceRandom::shuffle` for slices, driven by `rand::thread_rng`:
/// it only swaps items of the slice, so the result holds the same items.
#[verifier::external_body]
pub(crate) fn shuffle_in_place<T>(v: &mut Vec<T>)
    ensures
        final(v)@.len() == old(v)@.len(),
        final(v)@.to_multiset() == old(v)@.to_multiset(),
{
    v.as_mut_slice().shuffle(&mut rand::thread_rng())
}

} // verus!

//! Random rearrangement, which the `rand` crate provides.

use vstd::prelude::*;
use rand::rngs::ThreadRng;
use rand::seq::SliceRandom;

verus! {

/// `rand::rngs::ThreadRng`: a handle to the thread's random number generator.
#[verifier::external_type_specification]
#[verifier::external_body]
pub struct ExThreadRng(ThreadRng);

/// `rand::thread_rng`: the handle to this thread's generator. Nothing is
/// claimed of it.
#[verifier::external_body]
pub(crate) fn thread_rng() -> ThreadRng {
    rand::thread_rng()
}

/// `SliceRandom::shuffle` on a slice: it only ever exchanges two elements of
/// the slice, so whatever the generator yields, the slice afterwards holds
/// the same values the same number of times.
#[verifier::external_body]
pub(crate) fn shuffle(data: &mut Vec<u64>, rng: &mut ThreadRng)
    ensures
        final(data)@.to_multiset() == old(data)@.to_multiset(),
{
    data.shuffle(rng)
}

} // verus!

//! Random order, from the `rand` crate.

use rand::rngs::ThreadRng;
use rand::seq::SliceRandom;
use vstd::prelude::*;

verus! {

/// The generator of random numbers that `rand` keeps for each thread.
#[verifier::external_type_specification]
#[verifier::external_body]
pub struct ExThreadRng(ThreadRng);

/// `rand::thread_rng` hands out the generator of the running thread. Nothing
/// is claimed of it.
pub assume_specification[ rand::thread_rng ]() -> (rng: ThreadRng)
;

/// `SliceRandom::shuffle` of `rand` puts the items of a slice in a random
/// order, in place, by exchanging items: afterwards the list holds the same
/// pairs as before, each as often as before. Nothing is claimed of their order.
#[verifier::external_body]
pub(crate) fn shuffle(list: &mut Vec<(String, String)>, rng: &mut ThreadRng)
    ensures
        final(list).deep_view().to_multiset() == old(list).deep_view().to_multiset(),
{
    list.shuffle(rng);
}

} // verus!

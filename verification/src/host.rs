//! What the library takes from outside itself: the host's parallelism, a
//! clock and a source of randomness. Verus takes the contracts in this file
//! on trust.

use vstd::prelude::*;
use rand::seq::SliceRandom;

verus! {

/// A reading of the monotonic clock. Nothing inside it is visible here.
#[verifier::external_type_specification]
#[verifier::external_body]
pub struct ExInstant(std::time::Instant);

/// The generator that `rand` keeps for the calling thread. Nothing inside it
/// is visible here.
#[verifier::external_type_specification]
#[verifier::external_body]
pub struct ExThreadRng(rand::rngs::ThreadRng);

/// `std::time::Instant::now` reads the clock. Nothing is claimed of the
/// reading.
pub assume_specification[ std::time::Instant::now ]() -> (now: std::time::Instant)
;

/// `std::time::Instant::elapsed` gives the time since `start` was read.
/// Nothing is claimed of its length.
pub assume_specification[ std::time::Instant::elapsed ](start: &std::time::Instant) -> (elapsed:
    core::time::Duration)
;

/// `num_cpus::get` reports how many logical processors the host grants this
/// process. The number depends on the machine, its scheduler and its control
/// groups, so nothing is claimed of it; callers test it.
pub assume_specification[ num_cpus::get ]() -> (count: usize)
;

/// `rand::thread_rng` hands out the calling thread's generator, seeded by the
/// operating system. Nothing is claimed of it. It takes no argument, so no
/// argument can make it fail; it does fail if the operating system has no
/// seed to give.
pub assume_specification[ rand::thread_rng ]() -> (rng: rand::rngs::ThreadRng)
;

/// `rand::seq::SliceRandom::shuffle` reorders `items` in place by swapping
/// pairs of them, so the items afterwards are the items before, each as often
/// as before. Which order comes out is left open: it differs from call to
/// call.
#[verifier::external_body]
pub(crate) fn shuffle_with(items: &mut Vec<usize>, rng: &mut rand::rngs::ThreadRng)
    ensures
        final(items)@.to_multiset() == old(items)@.to_multiset(),
{
    items.shuffle(rng);
}

} // verus!

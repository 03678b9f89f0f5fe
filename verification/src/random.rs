//! The random source: the thread-local generator of the `rand` crate. What
//! Verus knows of it is stated here and nowhere proved.

use crate::board::Position;
use rand::seq::SliceRandom;
use rand::Rng;
use vstd::prelude::*;

verus! {

/// `rand::rngs::ThreadRng`, a handle to the generator of the current thread.
/// Nothing is known of its state.
#[verifier::external_type_specification]
#[verifier::external_body]
pub struct ExThreadRng(rand::rngs::ThreadRng);

/// `rand::thread_rng` hands out the generator of the current thread, seeded
/// by the system. Nothing is claimed of it.
pub assume_specification[ rand::thread_rng ]() -> (rng: rand::rngs::ThreadRng);

/// `SliceRandom::shuffle` on a slice of positions: it only swaps elements,
/// so the cells afterwards are the cells before, each as often as before.
/// Their order is left to chance.
#[verifier::external_body]
pub(crate) fn shuffle(cells: &mut Vec<Position>, rng: &mut rand::rngs::ThreadRng)
    ensures
        final(cells)@.to_multiset() == old(cells)@.to_multiset(),
{
    cells.shuffle(rng);
}

/// `Rng::gen_range` on `0..n`: some index below `n`. The call panics on an
/// empty range, so `n` is positive.
#[verifier::external_body]
pub(crate) fn index_below(n: usize, rng: &mut rand::rngs::ThreadRng) -> (i: usize)
    requires
        n > 0,
    ensures
        i < n,
{
    rng.gen_range(0..n)
}

} // verus!

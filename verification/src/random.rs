//! The random generator that breaks ties during routing.
//!
//! The generator is `rand`'s `StdRng`. What it draws is not predicted here:
//! the contracts below state only what holds of every draw.

use vstd::prelude::*;
use rand::rngs::StdRng;
use rand::seq::SliceRandom;
use rand::{Rng, SeedableRng};
use crate::geometry::Orientation;
use crate::grid::GridPoint;

verus! {

/// `rand::rngs::StdRng`, carried through as an opaque value.
#[verifier::external_type_specification]
#[verifier::external_body]
pub struct ExStdRng(StdRng);

/// Calls `StdRng::seed_from_u64`. Nothing is claimed of the generator that
/// comes back.
#[verifier::external_body]
pub(crate) fn seeded_rng(seed: u64) -> (rng: StdRng) {
    StdRng::seed_from_u64(seed)
}

/// Calls `SliceRandom::shuffle` on the buffer. The claim is that the buffer
/// holds the same states afterwards, each as often as before: the shuffle
/// only swaps elements.
#[verifier::external_body]
pub(crate) fn shuffle_states(buffer: &mut Vec<(GridPoint, Orientation)>, rng: &mut StdRng)
    ensures
        final(buffer)@.to_multiset() == old(buffer)@.to_multiset(),
{
    buffer.shuffle(rng);
}

/// Calls `Rng::gen_range` with the inclusive range from `low` to `high`.
/// The claim is that the number drawn lies in the range. An empty range
/// makes the call panic and is left out.
#[verifier::external_body]
pub(crate) fn random_in_range(rng: &mut StdRng, low: i32, high: i32) -> (r: i32)
    requires
        low <= high,
    ensures
        low <= r <= high,
{
    rng.gen_range(low..=high)
}

} // verus!

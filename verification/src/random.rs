//! The random source of the carving walk. Nothing in this file is proved:
//! each item states what the `rand` crate is taken to do.

use rand::rngs::StdRng;
use rand::seq::SliceRandom;
use rand::SeedableRng;
use vstd::prelude::*;

verus! {

/// `rand::rngs::StdRng`, the generator that the walk draws from. Its state is
/// not modelled.
#[verifier::external_type_specification]
#[verifier::external_body]
pub struct ExStdRng(StdRng);

/// Calls `rand::random::<u64>()`, which draws from the thread-local generator.
/// Nothing is claimed of the value.
#[verifier::external_body]
pub(crate) fn fresh_seed() -> u64 {
    rand::random::<u64>()
}

/// Calls `SeedableRng::seed_from_u64` for `StdRng`. Nothing is claimed of the
/// generator that comes back.
#[verifier::external_body]
pub(crate) fn seeded(seed: u64) -> StdRng {
    StdRng::seed_from_u64(seed)
}

/// Calls `SliceRandom::shuffle` on the four entries. The shuffle only swaps
/// entries, so whatever the generator yields, the array afterwards holds the
/// same entries as before, each as often as before.
#[verifier::external_body]
pub(crate) fn shuffle(sides: &mut [usize; 4], rng: &mut StdRng)
    ensures
        final(sides)@.to_multiset() == old(sides)@.to_multiset(),
{
    sides.shuffle(rng);
}

} // verus!

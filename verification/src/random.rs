//! The pseudo-random source of the search.

use rand::rngs::StdRng;
use rand::Rng;
use rand::SeedableRng;
use vstd::prelude::*;

verus! {

/// `rand::rngs::StdRng`, the generator that the search draws from. Nothing
/// is known of its state.
#[verifier::external_type_specification]
#[verifier::external_body]
pub struct ExStdRng(StdRng);

/// Calls `SeedableRng::seed_from_u64` for `StdRng`.
///
/// Trusted: the call returns for every seed. Nothing is claimed of the
/// generator it returns.
#[verifier::external_body]
pub(crate) fn seeded(seed: u64) -> StdRng {
    StdRng::seed_from_u64(seed)
}

/// Calls `Rng::gen_range` on the inclusive range `low..=high`.
///
/// Trusted: for a range that is not empty the call returns a value inside
/// it. Which one is not stated: it depends on the generator's state.
#[verifier::external_body]
pub(crate) fn draw(rng: &mut StdRng, low: usize, high: usize) -> (value: usize)
    requires
        low <= high,
    ensures
        low <= value <= high,
{
    rng.gen_range(low..=high)
}

} // verus!

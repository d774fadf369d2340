//! The pseudo-random generator used during board construction, behind
//! trusted wrappers. The generator is a value created from a resolved seed,
//! scoped to one construction; nothing is promised of the numbers drawn
//! beyond their range, so every caller is verified for every outcome.
use vstd::prelude::*;

use rand::Rng;
use rand::SeedableRng;
use rand_pcg::Pcg32;

verus! {

#[verifier::external_type_specification]
#[verifier::external_body]
pub struct ExLcg64Xsh32(rand_pcg::Lcg64Xsh32);

/// Relies on rand_pcg's `Lcg64Xsh32` (the standard pcg32) and rand's
/// `SeedableRng::seed_from_u64` to build a deterministic generator from a
/// 64-bit seed.
#[verifier::external_body]
pub(crate) fn rng_from_seed(seed: u64) -> Pcg32 {
    Pcg32::seed_from_u64(seed)
}

/// Relies on rand's `Rng::gen_range` over the half-open range `0..n`, which
/// panics only on an empty range and returns a value drawn from within the
/// range.
#[verifier::external_body]
pub(crate) fn rng_below(rng: &mut Pcg32, n: usize) -> (r: usize)
    requires
        n > 0,
    ensures
        r < n,
{
    rng.gen_range(0..n)
}

/// Relies on rand's `OsRng`, an operating-system entropy source, for the
/// seed of a board built without an explicit one. Nothing is promised of
/// the value.
#[verifier::external_body]
pub(crate) fn os_seed() -> u64 {
    rand::rngs::OsRng.gen()
}

} // verus!

//! The pseudo-random source: the two draws the simulation makes from it, and
//! its seeding by the operating system.

use rand::Rng;
use rand::SeedableRng;
use rand::rngs::{OsRng, StdRng};
use vstd::prelude::*;

verus! {

/// `rand::rngs::StdRng`, carried through the library as an opaque value.
#[verifier::external_type_specification]
#[verifier::external_body]
pub struct ExStdRng(StdRng);

/// Calls `rand::Rng::gen_ratio`: a Bernoulli trial that succeeds with
/// probability `numerator / denominator`.
///
/// Trusted: the call panics unless `0 < denominator` and
/// `numerator <= denominator`; a zero numerator never succeeds and a
/// numerator equal to the denominator always does. Nothing else is claimed
/// of the outcome.
#[verifier::external_body]
pub(crate) fn sample_ratio(rng: &mut StdRng, numerator: u32, denominator: u32) -> (hit: bool)
    requires
        0 < denominator,
        numerator <= denominator,
    ensures
        numerator == 0 ==> !hit,
        numerator == denominator ==> hit,
{
    rng.gen_ratio(numerator, denominator)
}

/// Calls `rand::Rng::gen_range` on `0..bound`: a uniformly drawn index.
///
/// Trusted: the call panics on an empty range, and the value drawn lies in
/// the range.
#[verifier::external_body]
pub(crate) fn sample_below(rng: &mut StdRng, bound: usize) -> (index: usize)
    requires
        0 < bound,
    ensures
        index < bound,
{
    rng.gen_range(0..bound)
}

/// `rand::Error`, carried through the library as an opaque value.
#[verifier::external_type_specification]
#[verifier::external_body]
pub struct ExRandError(rand::Error);

/// Calls `rand::SeedableRng::from_rng` on `rand::rngs::OsRng`: a generator
/// seeded by the operating system, or the error of the operating system's
/// source. Nothing is claimed of either.
#[verifier::external_body]
pub(crate) fn seed_from_os() -> Result<StdRng, rand::Error> {
    StdRng::from_rng(OsRng)
}

} // verus!

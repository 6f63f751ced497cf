//! Random draws, from the thread-local generator of the `rand` crate.
use vstd::prelude::*;
use rand::rngs::ThreadRng;
use rand::Rng;

verus! {

#[verifier::external_type_specification]
#[verifier::external_body]
pub struct ExThreadRng(ThreadRng);

/// A handle on the thread-local generator, through `rand::rng`.
/// Nothing is stated of it.
#[verifier::external_body]
pub(crate) fn thread_rng() -> ThreadRng {
    rand::rng()
}

/// Draws `true` with probability `numerator / denominator`, through
/// `rand::Rng::random_ratio`.
///
/// Trusted: `random_ratio` panics when `denominator == 0` or
/// `numerator > denominator` (left out by `requires`); its documentation
/// promises `true` when `numerator == denominator` and `false` when
/// `numerator == 0`. Any other outcome is left open: it is random.
#[verifier::external_body]
pub(crate) fn random_ratio(rng: &mut ThreadRng, numerator: u32, denominator: u32) -> (b: bool)
    requires
        0 < denominator,
        numerator <= denominator,
    ensures
        numerator == denominator ==> b,
        numerator == 0 ==> !b,
{
    rng.random_ratio(numerator, denominator)
}

/// Draws an index uniformly from `0..bound`, through
/// `rand::Rng::random_range`.
///
/// Trusted: `random_range` panics on an empty range (left out by `requires`)
/// and returns a value inside the range; which one is random.
#[verifier::external_body]
pub(crate) fn random_index(rng: &mut ThreadRng, bound: usize) -> (i: usize)
    requires
        0 < bound,
    ensures
        i < bound,
{
    rng.random_range(0..bound)
}

} // verus!

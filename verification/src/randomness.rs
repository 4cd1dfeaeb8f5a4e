use vstd::prelude::*;
use rand::Rng;
use rand::rngs::ThreadRng;

verus! {

/// The thread-local random number generator of `rand`.
#[verifier::external_type_specification]
#[verifier::external_body]
pub struct ExThreadRng(rand::rngs::ThreadRng);

/// `rand::rng()`: a handle on the current thread's generator.  Nothing is
/// claimed about its state.
#[verifier::external_body]
pub(crate) fn thread_rng() -> ThreadRng {
    rand::rng()
}

/// `Rng::random_ratio`: true with probability `numerator / denominator`.
/// As its documentation says, it is always false for a zero numerator and
/// always true when numerator and denominator are equal; it panics when
/// the denominator is zero or smaller than the numerator, which the
/// `requires` excludes.  Which way any other draw goes is left open.
#[verifier::external_body]
pub(crate) fn random_ratio(rng: &mut ThreadRng, numerator: u32, denominator: u32) -> (b: bool)
    requires
        0 < denominator,
        numerator <= denominator,
    ensures
        numerator == 0 ==> !b,
        numerator == denominator ==> b,
{
    rng.random_ratio(numerator, denominator)
}

/// `Rng::random_range` on `low..=high`: some value of that range (the call
/// panics on an empty range, which the `requires` excludes).  Which value is
/// left open.
#[verifier::external_body]
pub(crate) fn random_in_range(rng: &mut ThreadRng, low: usize, high: usize) -> (r: usize)
    requires
        low <= high,
    ensures
        low <= r <= high,
{
    rng.random_range(low..=high)
}

} // verus!

//! The random choices of the library, drawn from the `rand` crate.
//!
//! Nothing is known of a random value but its range: the functions that
//! use one are verified for every value that may come back.
use rand::rngs::ThreadRng;
use rand::Rng;
use vstd::prelude::*;

verus! {

#[verifier::external_type_specification]
#[verifier::external_body]
pub struct ExThreadRng(ThreadRng);

/// `rand::thread_rng`: a handle to the random number generator of the
/// current thread. Nothing is claimed of it.
pub assume_specification[ rand::thread_rng ]() -> (rng: ThreadRng)
;

/// `Rng::gen_range` on a half-open range of `usize`: a number from `low` up
/// to, and without, `high`. The call panics on an empty range, which the
/// precondition leaves out.
#[verifier::external_body]
pub(crate) fn gen_range(rng: &mut ThreadRng, low: usize, high: usize) -> (r: usize)
    requires
        low < high,
    ensures
        low <= r < high,
{
    rng.gen_range(low..high)
}

/// `Rng::gen_ratio`: `true` with a chance of `numerator` in `denominator`.
/// The call panics where the denominator is zero or smaller than the
/// numerator, which the precondition leaves out. Nothing is claimed of the
/// result.
#[verifier::external_body]
pub(crate) fn gen_ratio(rng: &mut ThreadRng, numerator: u32, denominator: u32) -> (r: bool)
    requires
        denominator > 0,
        numerator <= denominator,
{
    rng.gen_ratio(numerator, denominator)
}

/// `Rng::gen` for `u64`: any 64-bit number. Nothing is claimed of it.
#[verifier::external_body]
pub(crate) fn gen_u64(rng: &mut ThreadRng) -> (r: u64) {
    rng.gen()
}

} // verus!

//! The source of randomness for fresh waves.

use rand::rngs::StdRng;
use rand::Rng;
use vstd::prelude::*;

verus! {

/// Declares `rand::rngs::StdRng`, the generator that the library draws
/// from. Nothing is known of what it holds.
#[verifier::external_type_specification]
#[verifier::external_body]
pub struct ExStdRng(StdRng);

/// Calls `rand::Rng::gen_range` on a `StdRng`. The crate documents the result
/// as a value of the half-open range from `low` to `high`, and a panic where
/// `low >= high`. Nothing else is known of the value drawn.
#[verifier::external_body]
pub(crate) fn gen_range(rng: &mut StdRng, low: u32, high: u32) -> (r: u32)
    requires
        low < high,
    ensures
        low <= r < high,
{
    rng.gen_range(low, high)
}

} // verus!

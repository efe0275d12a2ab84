//! Trusted boundary to the `rand` crate: the seedable random source that
//! matrix and network construction draw from. The source is passed in by the
//! caller, so runs are reproducible from a fixed seed.

use vstd::prelude::*;

verus! {

#[verifier::external_type_specification]
#[verifier::external_body]
pub struct ExStdRng(rand::rngs::StdRng);

/// Relies on `rand::RngExt::random_range` over `min..max` on `i64`: the
/// result is a uniform draw from the half-open range, and the call panics
/// only when the range is empty.
#[verifier::external_body]
pub(crate) fn random_in_range(rng: &mut rand::rngs::StdRng, min: i64, max: i64) -> (r: i64)
    requires
        min < max,
    ensures
        min <= r < max,
{
    rand::RngExt::random_range(rng, min..max)
}

} // verus!

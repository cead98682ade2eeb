//! The one source of randomness used by random coordinates and playouts.

use vstd::prelude::*;

verus! {

/// Relies on rand::random: draws one uniformly random 64-bit value from the
/// thread-local generator. Nothing can be promised of a random value.
#[verifier::external_body]
pub(crate) fn random_u64() -> u64 {
    rand::random::<u64>()
}

} // verus!

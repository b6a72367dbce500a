//! The one source of randomness the database draws from.

use vstd::prelude::*;

verus! {

/// Relies on rand::random: one 64-bit value from the thread-local
/// generator. Nothing is assumed about it; callers cope with every outcome.
#[verifier::external_body]
pub(crate) fn random_u64() -> u64 {
    rand::random::<u64>()
}

} // verus!

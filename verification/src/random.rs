//! Random draws, taken from the `rand` crate.

use vstd::prelude::*;

verus! {

/// Draws a `u64` from the thread-local generator of `rand` (`rand::random`). Nothing is promised
/// of the value: any `u64` may come back, and two calls may return anything.
#[verifier::external_body]
pub(crate) fn random_u64() -> u64 {
    rand::random::<u64>()
}

} // verus!

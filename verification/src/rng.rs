//! The random source used to resolve genuine overlap conflicts.

use vstd::prelude::*;

verus! {

/// Relies on `rand::random::<bool>()`: a fair coin from the thread-local
/// generator.  Nothing is promised of the outcome; every caller must be
/// correct whichever value comes back.
#[verifier::external_body]
pub(crate) fn flip() -> bool {
    rand::random::<bool>()
}

} // verus!

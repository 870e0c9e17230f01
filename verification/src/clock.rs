//! The wall clock.

use vstd::prelude::*;

verus! {

/// The current time in whole seconds since 1970-01-01T00:00:00Z.
///
/// Trusted: the body calls `chrono::Utc::now()` and reads the result with
/// `DateTime::timestamp()`. Nothing is claimed of the value, which depends on
/// the machine's clock; two calls may differ. `Utc::now()` itself panics on a
/// machine whose clock stands before 1970.
#[verifier::external_body]
pub(crate) fn current_epoch_seconds() -> i64 {
    chrono::Utc::now().timestamp()
}

} // verus!

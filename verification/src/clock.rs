//! The wall clock, by which a search is cut off.

use std::time::{Duration, Instant};
use vstd::prelude::*;

verus! {

/// A point in time, as the system's monotonic clock gives it.
#[verifier::external_type_specification]
#[verifier::external_body]
pub struct ExInstant(Instant);

/// The present moment.
///
/// Calls `std::time::Instant::now`. The result depends on when the call is
/// made: the contract says nothing of it.
#[verifier::external_body]
pub(crate) fn start_timer() -> (timer: Instant) {
    Instant::now()
}

/// The time that has passed since `timer` was started.
///
/// Calls `std::time::Instant::elapsed`. The result depends on when the call
/// is made: the contract says nothing of it.
#[verifier::external_body]
pub(crate) fn elapsed_since(timer: &Instant) -> (passed: Duration) {
    timer.elapsed()
}

/// Whether the duration `passed` is at least `allowed`.
///
/// Applies the comparison `>=` of `std::time::Duration`. No verified code
/// looks into a duration: the contract says nothing of the result.
#[verifier::external_body]
pub(crate) fn at_least(passed: &Duration, allowed: &Duration) -> (late: bool) {
    passed >= allowed
}

} // verus!

//! Reading the monotonic clock.
use vstd::prelude::*;
use std::time::{Duration, Instant};

verus! {

#[verifier::external_type_specification]
#[verifier::external_body]
pub struct ExInstant(Instant);

/// Calls `std::time::Instant::now`; nothing is promised of the instant read.
#[verifier::external_body]
pub(crate) fn instant_now() -> (r: Instant) {
    Instant::now()
}

/// Calls `std::time::Instant::elapsed`; nothing is promised of the time read.
#[verifier::external_body]
pub(crate) fn instant_elapsed(i: &Instant) -> (r: Duration) {
    i.elapsed()
}

/// Calls `std::time::Duration::as_nanos`; the nanoseconds of a `Duration`
/// are not visible to the library, so nothing is promised of them.
#[verifier::external_body]
pub(crate) fn duration_as_nanos(d: &Duration) -> (r: u128) {
    d.as_nanos()
}

} // verus!

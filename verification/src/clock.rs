//! Reading the monotonic clock, for the timings that uploads report.
use vstd::prelude::*;
use std::time::{Duration, Instant};

verus! {

#[verifier::external_type_specification]
#[verifier::external_body]
pub struct ExInstant(Instant);

/// Calls `Instant::now`. Nothing is promised of the reading.
#[verifier::external_body]
pub(crate) fn now() -> Instant {
    Instant::now()
}

/// Calls `Instant::elapsed`: the time since `start`. Nothing is promised of
/// the duration, which depends on the clock.
#[verifier::external_body]
pub(crate) fn elapsed(start: &Instant) -> Duration {
    start.elapsed()
}

/// Calls `Duration::new(0, 0)`: no time at all. Nothing is promised of the
/// value beyond its type.
#[verifier::external_body]
pub(crate) fn zero_duration() -> Duration {
    Duration::new(0, 0)
}

/// Calls `Duration::saturating_add`: the sum of two durations, the largest
/// duration where it would overflow. Nothing is promised of the value.
#[verifier::external_body]
pub(crate) fn add_durations(a: Duration, b: Duration) -> Duration {
    a.saturating_add(b)
}

/// Calls `Duration::as_nanos`: the whole nanoseconds of a duration.
/// Nothing is promised of the number, as nothing is known of the duration.
#[verifier::external_body]
pub(crate) fn as_nanos(d: &Duration) -> u128 {
    d.as_nanos()
}

} // verus!

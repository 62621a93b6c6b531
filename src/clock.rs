//! Readings of the monotonic clock, in milliseconds since an origin.
use vstd::prelude::*;

verus! {

#[verifier::external_type_specification]
#[verifier::external_body]
pub struct ExInstant(std::time::Instant);

/// Relies on `std::time::Instant::now`: a fresh origin for later readings.
#[verifier::external_body]
pub(crate) fn instant_now() -> (r: std::time::Instant) {
    std::time::Instant::now()
}

/// Relies on `std::time::Instant::elapsed`: the time since `origin`.
/// Nothing is promised of the value, which depends on the clock.
#[verifier::external_body]
pub(crate) fn elapsed_since(origin: &std::time::Instant) -> (r: std::time::Duration) {
    origin.elapsed()
}

/// Relies on `std::time::Duration::as_millis`: whole milliseconds of `d`,
/// cut to 64 bits.
#[verifier::external_body]
pub(crate) fn whole_millis(d: std::time::Duration) -> (r: u64) {
    d.as_millis() as u64
}

/// Relies on `std::time::Duration::as_nanos`: whole nanoseconds of `d`.
#[verifier::external_body]
pub(crate) fn whole_nanos(d: std::time::Duration) -> (r: u128) {
    d.as_nanos()
}

/// Whole milliseconds elapsed since `origin`.
pub(crate) fn millis_since(origin: &std::time::Instant) -> (r: u64) {
    whole_millis(elapsed_since(origin))
}

} // verus!

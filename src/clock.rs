//! The monotonic clock that stamps entries.
use vstd::prelude::*;

verus! {

#[verifier::external_type_specification]
#[verifier::external_body]
pub struct ExInstant(std::time::Instant);

/// Relies on `std::time::Instant::now`: a reading of the monotonic clock, used as the
/// origin from which a queue counts its timestamps. Nothing is known of its value.
#[verifier::external_body]
pub(crate) fn instant_now() -> (r: std::time::Instant) {
    std::time::Instant::now()
}

/// Relies on `std::time::Instant::elapsed`: the time that has passed since `origin`.
/// It depends on when it is called, so nothing is stated of it.
#[verifier::external_body]
pub(crate) fn elapsed_since(origin: &std::time::Instant) -> (r: core::time::Duration) {
    origin.elapsed()
}

/// Relies on `core::time::Duration::as_nanos`: the whole number of nanoseconds in a duration.
pub assume_specification[ core::time::Duration::as_nanos ](d: &core::time::Duration) -> u128;

/// Nanoseconds passed since `origin`, read from the monotonic clock.
pub(crate) fn nanos_since(origin: &std::time::Instant) -> (r: u128) {
    let d = elapsed_since(origin);
    d.as_nanos()
}

} // verus!

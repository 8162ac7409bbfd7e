//! Trusted access to the platform clocks.
//!
//! Timing is inherently outside what can be reasoned about: nothing is
//! promised of the values these return beyond their types.

use vstd::prelude::*;

verus! {

#[verifier::external_type_specification]
#[verifier::external_body]
pub struct ExInstant(std::time::Instant);

/// Relies on std::time::Instant::now: an opaque monotonic clock reading.
#[verifier::external_body]
pub(crate) fn instant_now() -> std::time::Instant {
    std::time::Instant::now()
}

/// Relies on std::time::Instant::elapsed: nanoseconds elapsed since `start`,
/// saturating at `u64::MAX`. The value depends on the clock, so nothing is
/// promised of it.
#[verifier::external_body]
pub(crate) fn elapsed_ns_since(start: &std::time::Instant) -> u64 {
    u64::try_from(start.elapsed().as_nanos()).unwrap_or(u64::MAX)
}

/// Relies on std::time::SystemTime::now: milliseconds since the Unix epoch,
/// zero when the clock reads earlier than the epoch. The value depends on
/// the clock, so nothing is promised of it.
#[verifier::external_body]
pub(crate) fn now_unix_millis() -> u64 {
    let since_epoch = std::time::SystemTime::now().duration_since(
        std::time::UNIX_EPOCH,
    ).unwrap_or_default();
    u64::try_from(since_epoch.as_millis()).unwrap_or(u64::MAX)
}

} // verus!

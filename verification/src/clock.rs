//! Time as the tiers read it: nanoseconds on a monotonic clock.

use std::time::{Duration, Instant};
use vstd::prelude::*;

verus! {

/// `std::time::Instant`, carried as an opaque value.
#[verifier::external_type_specification]
#[verifier::external_body]
pub struct ExInstant(Instant);

/// The whole nanoseconds in `d` (what `Duration::as_nanos` returns).
pub uninterp spec fn duration_as_nanos(d: Duration) -> u128;

/// A time-to-live in nanoseconds (None: no limit).
pub open spec fn ttl_nanos(ttl: Option<Duration>) -> Option<u128> {
    match ttl {
        Some(d) => Some(duration_as_nanos(d)),
        None => None,
    }
}

/// The current instant of the machine's monotonic clock.
///
/// Trusted: calls `Instant::now()`; nothing is stated of the instant returned.
#[verifier::external_body]
pub(crate) fn clock_now() -> Instant {
    Instant::now()
}

/// The time that has passed since `start`.
///
/// Trusted: calls `Instant::elapsed`; the result depends on the clock, so
/// nothing is stated of it.
#[verifier::external_body]
pub(crate) fn elapsed_since(start: &Instant) -> Duration {
    start.elapsed()
}

/// The whole nanoseconds in `d`.
///
/// Trusted: calls `Duration::as_nanos`, whose result is named `duration_as_nanos`.
#[verifier::external_body]
pub(crate) fn nanos_of(d: Duration) -> (n: u128)
    ensures
        n == duration_as_nanos(d),
{
    d.as_nanos()
}

/// A duration of `secs` whole seconds.
///
/// Trusted: calls `Duration::from_secs`, which std documents as the duration of
/// that many whole seconds, so it holds `secs * 10^9` nanoseconds.
#[verifier::external_body]
pub(crate) fn seconds(secs: u64) -> (d: Duration)
    ensures
        duration_as_nanos(d) == secs * 1_000_000_000,
{
    Duration::from_secs(secs)
}

} // verus!

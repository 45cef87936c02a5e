//! The store's clock: nanoseconds since the store was made.

use vstd::prelude::*;
use std::time::{Duration, Instant};

verus! {

#[verifier::external_type_specification]
#[verifier::external_body]
pub struct ExInstant(Instant);

/// Calls `Instant::now`. Nothing is promised of the instant it reads.
#[verifier::external_body]
pub(crate) fn instant_now() -> Instant {
    Instant::now()
}

/// Calls `Instant::elapsed`: the time since `epoch`, as the monotonic clock
/// reads it. Nothing is promised of it.
#[verifier::external_body]
pub(crate) fn elapsed_since(epoch: &Instant) -> Duration {
    epoch.elapsed()
}

/// Calls `Duration::as_nanos`: the whole nanoseconds of a duration. A
/// `Duration` is opaque here, so nothing is stated of the number.
#[verifier::external_body]
pub(crate) fn duration_nanos(d: &Duration) -> u128 {
    d.as_nanos()
}

/// Calls `Duration::from_nanos`. A `Duration` is opaque here, so nothing is
/// stated of the result.
#[verifier::external_body]
pub(crate) fn duration_from_nanos(ns: u64) -> Duration {
    Duration::from_nanos(ns)
}

/// Nanoseconds since `epoch`, as the clock reads them now.
pub(crate) fn nanos_since(epoch: &Instant) -> u128 {
    let d = elapsed_since(epoch);
    duration_nanos(&d)
}

} // verus!

use vstd::prelude::*;
use std::time::{Duration, Instant, SystemTime};

verus! {

/// A point in time of the monotonic clock; opaque to the library.
#[verifier::external_type_specification]
#[verifier::external_body]
pub struct ExInstant(Instant);

/// A point in time of the system clock; opaque to the library.
#[verifier::external_type_specification]
#[verifier::external_body]
pub struct ExSystemTime(SystemTime);

/// `Instant::now` reads the monotonic clock; nothing is claimed of what it returns.
pub assume_specification[ Instant::now ]() -> Instant;

/// `Instant::elapsed` reads the clock again; nothing is claimed of the span it returns.
pub assume_specification[ Instant::elapsed ](i: &Instant) -> Duration;

/// `Duration::as_nanos` gives the length of a span in nanoseconds; as spans are
/// opaque here, nothing is claimed of the number.
pub assume_specification[ Duration::as_nanos ](d: &Duration) -> u128;

/// `Duration::as_secs` gives the whole seconds of a span; as spans are opaque here,
/// nothing is claimed of the number.
pub assume_specification[ Duration::as_secs ](d: &Duration) -> u64;

/// `SystemTime::now` reads the system clock; nothing is claimed of what it returns.
pub assume_specification[ SystemTime::now ]() -> SystemTime;

/// Calls `SystemTime::duration_since` with the Unix epoch; it fails when the time
/// lies before the epoch. Nothing is claimed of the span or of when it fails.
#[verifier::external_body]
fn since_unix_epoch(t: &SystemTime) -> Option<Duration> {
    t.duration_since(std::time::UNIX_EPOCH).ok()
}

/// Nanoseconds that have passed since `since`, by the monotonic clock.
pub fn nanos_since(since: &Instant) -> u128 {
    let d = since.elapsed();
    d.as_nanos()
}

/// Whole seconds since the Unix epoch by the system clock; zero for a clock set
/// before the epoch.
pub fn unix_seconds_now() -> u64 {
    let now = SystemTime::now();
    match since_unix_epoch(&now) {
        Some(d) => d.as_secs(),
        None => 0,
    }
}

} // verus!

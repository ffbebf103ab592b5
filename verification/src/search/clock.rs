//! The two things a search reads from outside: the wall clock and the stop
//! flag another thread may raise.
use std::sync::atomic::{AtomicBool, Ordering};
use std::time::{Duration, Instant};
use vstd::prelude::*;

verus! {

/// A point in time, for measuring how long a search has run.
#[verifier::external_type_specification]
#[verifier::external_body]
pub struct ExInstant(Instant);

/// The current time: `Instant::now`. Nothing is claimed of the value.
#[verifier::external_body]
pub fn instant_now() -> Instant {
    Instant::now()
}

/// The time since `start`: `Instant::elapsed`. Nothing is claimed of the
/// value, which depends on the clock.
#[verifier::external_body]
pub fn elapsed_since(start: &Instant) -> Duration {
    start.elapsed()
}

/// A duration in whole milliseconds: `Duration::as_millis`. Nothing is
/// claimed of the value, which only the duration's hidden fields determine.
#[verifier::external_body]
pub fn duration_millis(d: &Duration) -> u128 {
    d.as_millis()
}

/// Whether the stop flag is raised.
pub fn stop_requested(stop: &AtomicBool) -> bool {
    stop.load(Ordering::Relaxed)
}

/// Milliseconds since `start`, saturating at `u64::MAX`.
pub fn elapsed_ms(start: &Instant) -> u64 {
    let d = elapsed_since(start);
    let ms = duration_millis(&d);
    if ms > u64::MAX as u128 {
        u64::MAX
    } else {
        ms as u64
    }
}

} // verus!

//! Performance measurement: a simple timer over the system's monotonic clock.
//!
//! Readings of the clock depend on when they are taken, so nothing is
//! promised about the durations returned; the timer only packages the calls.

use vstd::prelude::*;

verus! {

#[verifier::external_type_specification]
#[verifier::external_body]
pub struct ExInstant(std::time::Instant);

/// Relies on std::time::Instant::now: an opaque reading of the monotonic
/// clock; no two readings are related by anything the library states.
#[verifier::external_body]
fn instant_now() -> std::time::Instant {
    std::time::Instant::now()
}

/// Relies on std::time::Instant::elapsed: the time since the instant, as an
/// opaque duration.
#[verifier::external_body]
fn instant_elapsed(start: &std::time::Instant) -> std::time::Duration {
    start.elapsed()
}

/// Simple timer for measuring execution time.
pub struct Timer {
    start: std::time::Instant,
}

impl Timer {
    /// Create a new timer and start measuring.
    pub fn new() -> Self {
        Self { start: instant_now() }
    }

    /// Get the elapsed time since the timer was created or last reset.
    pub fn elapsed(&self) -> std::time::Duration {
        instant_elapsed(&self.start)
    }

    /// Restart the timer.
    pub fn reset(&mut self) {
        self.start = instant_now();
    }
}

impl Default for Timer {
    fn default() -> Self {
        Self::new()
    }
}

} // verus!

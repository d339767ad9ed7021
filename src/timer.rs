//! A stopwatch that sums the time between `start` and `stop` calls.
use std::time::Instant;
use vstd::prelude::*;

verus! {

#[verifier::external_type_specification]
#[verifier::external_body]
pub struct ExInstant(Instant);

/// Relies on `Instant::now`: the current reading of the monotonic clock.
#[verifier::external_body]
fn now() -> Instant {
    Instant::now()
}

/// Relies on `Instant::saturating_duration_since`: the time from `earlier`
/// to `later` in nanoseconds, zero when `later` is not after `earlier`.
#[verifier::external_body]
fn nanos_between(earlier: &Instant, later: &Instant) -> u128 {
    later.saturating_duration_since(*earlier).as_nanos()
}

/// Sums the time spent between `start` and `stop`.
pub struct Timer {
    start: Instant,
    elapsed_nanos: u128,
}

impl Timer {
    /// The time summed so far, in nanoseconds.
    pub closed spec fn elapsed(self) -> nat {
        self.elapsed_nanos as nat
    }

    /// A timer started now, with nothing summed.
    pub fn new() -> (r: Timer)
        ensures
            r.elapsed() == 0,
    {
        Timer { start: now(), elapsed_nanos: 0 }
    }

    /// Restarts the current interval.
    pub fn start(&mut self)
        ensures
            final(self).elapsed() == old(self).elapsed(),
    {
        self.start = now();
    }

    /// Adds the time since the last `start`, as read from the clock.
    pub fn stop(&mut self)
        ensures
            final(self).elapsed() >= old(self).elapsed(),
    {
        let t = now();
        let d = nanos_between(&self.start, &t);
        self.add_interval(d);
    }

    /// Adds an interval of `nanos` nanoseconds, saturating at the largest
    /// count.
    pub fn add_interval(&mut self, nanos: u128)
        ensures
            final(self).elapsed() == if old(self).elapsed() + nanos <= u128::MAX {
                old(self).elapsed() + nanos
            } else {
                u128::MAX as int
            },
    {
        self.elapsed_nanos = self.elapsed_nanos.saturating_add(nanos);
    }

    /// Forgets the time summed so far.
    pub fn reset(&mut self)
        ensures
            final(self).elapsed() == 0,
    {
        self.elapsed_nanos = 0;
    }

    /// The time summed so far, in nanoseconds.
    pub fn elapsed_nanos(&self) -> (r: u128)
        ensures
            r == self.elapsed(),
    {
        self.elapsed_nanos
    }
}

} // verus!

//! The injected clock — the determinism seam for time-based behavior.
//!
//! The lifecycle's cooling periods are the time-sensitive decisions of the
//! runtime. They never read the wall clock directly: they call
//! [`Clock::now`], so tests inject a [`FakeClock`] and the transition log is
//! deterministic.

use vstd::prelude::*;

verus! {

/// A time source. `now()` returns milliseconds; nothing is promised of the
/// value, so every decision that depends on it is stated for every reading.
pub trait Clock {
    /// The current time in milliseconds.
    fn now(&self) -> u64;
}

/// The wall clock (production).
#[derive(Debug, Default, Clone, Copy)]
pub struct RealClock;

/// Milliseconds since the Unix epoch, or 0 when the system clock reads
/// before the epoch.
///
/// Calls `std::time::SystemTime::now` and `duration_since(UNIX_EPOCH)`; the
/// reading depends on the machine's clock, so nothing is stated of it.
#[verifier::external_body]
fn wall_clock_ms() -> u64 {
    std::time::SystemTime::now().duration_since(std::time::UNIX_EPOCH).map_or(0, |d| d.as_millis() as u64)
}

impl Clock for RealClock {
    fn now(&self) -> u64 {
        wall_clock_ms()
    }
}

/// A deterministic, test-injectable clock.
#[derive(Debug, Default, Clone, Copy)]
pub struct FakeClock {
    t: u64,
}

impl FakeClock {
    /// The clock's current reading.
    pub closed spec fn time(&self) -> u64 {
        self.t
    }

    /// Create a clock at time 0.
    pub fn new() -> (r: Self)
        ensures
            r.time() == 0,
    {
        FakeClock { t: 0 }
    }

    /// Advance the clock by `ms` milliseconds (saturating at `u64::MAX`).
    pub fn advance(&mut self, ms: u64)
        ensures
            final(self).time() == (if old(self).time() + ms > u64::MAX {
                u64::MAX as int
            } else {
                old(self).time() + ms
            }),
    {
        self.t = self.t.saturating_add(ms);
    }
}

impl Clock for FakeClock {
    fn now(&self) -> (r: u64)
        ensures
            r == self.time(),
    {
        self.t
    }
}

} // verus!

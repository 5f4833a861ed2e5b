//! Spans of time, points in time and the monotonic clock.

use vstd::prelude::*;

verus! {

/// A span of time, in whole nanoseconds.
#[derive(Debug, Clone, Copy, PartialEq, Eq, Structural)]
pub struct Duration {
    pub nanos: u128,
}

impl Duration {
    pub fn from_secs(secs: u64) -> (d: Duration)
        ensures
            d.nanos == secs * 1_000_000_000,
    {
        Duration { nanos: secs as u128 * 1_000_000_000 }
    }

    pub fn from_millis(millis: u64) -> (d: Duration)
        ensures
            d.nanos == millis * 1_000_000,
    {
        Duration { nanos: millis as u128 * 1_000_000 }
    }

    pub fn is_zero(&self) -> (r: bool)
        ensures
            r == (self.nanos == 0),
    {
        self.nanos == 0
    }
}

/// A point in time, in nanoseconds. The readings of a [`Clock`] count from its
/// first one.
#[derive(Debug, Clone, Copy, PartialEq, Eq, Structural)]
pub struct Timestamp {
    pub nanos: u128,
}

/// The nanoseconds from `earlier` to `later`; none where `earlier` is the later
/// of the two.
pub open spec fn elapsed(later: Timestamp, earlier: Timestamp) -> int {
    if later.nanos >= earlier.nanos {
        later.nanos - earlier.nanos
    } else {
        0
    }
}

/// What has elapsed, added to the earlier of two points in time, gives the later;
/// nothing has elapsed where they come in the other order.
pub proof fn elapsed_leads_to_the_later(later: Timestamp, earlier: Timestamp)
    ensures
        earlier.nanos <= later.nanos ==> earlier.nanos + elapsed(later, earlier) == later.nanos,
        earlier.nanos >= later.nanos ==> elapsed(later, earlier) == 0,
{
}

impl Timestamp {
    pub fn duration_since(&self, earlier: Timestamp) -> (d: Duration)
        ensures
            d.nanos == elapsed(*self, earlier),
    {
        if self.nanos >= earlier.nanos {
            Duration { nanos: self.nanos - earlier.nanos }
        } else {
            Duration { nanos: 0 }
        }
    }
}

/// `std::time::Instant`, carried by [`Clock`] and never looked into.
#[verifier::external_type_specification]
#[verifier::external_body]
pub struct ExInstant(std::time::Instant);

/// `Instant::now`. Nothing is claimed of the instant.
#[verifier::external_body]
fn read_instant() -> (now: std::time::Instant) {
    std::time::Instant::now()
}

/// `Instant::elapsed`, in nanoseconds. It depends on when it is called, so
/// nothing is claimed of the number.
#[verifier::external_body]
fn nanos_since(origin: &std::time::Instant) -> (nanos: u128) {
    origin.elapsed().as_nanos()
}

/// The first reading of a clock, in nanoseconds. It is large, so that there are
/// timestamps before a clock was started.
pub const FIRST_READING: u128 = 0x1_0000_0000_0000_0000;

/// A monotonic clock. Events and the engine that correlates them are to be
/// timed by one clock.
#[derive(Debug, Clone, Copy)]
pub struct Clock {
    origin: std::time::Instant,
}

impl Clock {
    /// A clock that is at its first reading now. When that is, nothing says.
    pub fn start() -> (clock: Clock) {
        Clock { origin: read_instant() }
    }

    /// The present reading: the first one, and the nanoseconds since. How many they
    /// are depends on when it is called, so all that is said is that no reading
    /// comes before the first.
    pub fn now(&self) -> (now: Timestamp)
        ensures
            now.nanos >= FIRST_READING,
    {
        Timestamp { nanos: FIRST_READING.saturating_add(nanos_since(&self.origin)) }
    }
}

} // verus!

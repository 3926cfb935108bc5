//! The one clock everything is timed by.
//!
//! Time is kept as nanoseconds since the clock was started, so that what depends
//! on it can be stated as arithmetic. Anything that needs the time either reads
//! it here or is handed a reading.

use std::time::{Duration, Instant};
use vstd::prelude::*;

verus! {

pub const MILLISECOND: u64 = 1_000_000;

pub const SECOND: u64 = 1_000_000_000;

/// A point on the system's monotonic clock.
#[verifier::external_type_specification]
#[verifier::external_body]
pub struct ExInstant(std::time::Instant);

/// Reads the system's monotonic clock. What it reads is not promised.
pub assume_specification[ Instant::now ]() -> Instant
;

/// Time since `instant`. How much has passed is not promised.
pub assume_specification[ Instant::elapsed ](instant: &Instant) -> Duration
;

/// A span of time in whole nanoseconds. A [`Duration`] is opaque, so nothing is
/// said about which number that is.
pub assume_specification[ Duration::as_nanos ](duration: &Duration) -> u128
;

#[derive(Clone, Copy, Debug)]
pub struct Clock {
    origin: Instant,
}

impl Clock {
    /// When the clock was started.
    pub closed spec fn origin(self) -> Instant {
        self.origin
    }

    /// Whether the clock can read `reading`: it stands for a time that may have
    /// passed since the clock was started. Which times may have passed is not
    /// promised.
    pub open spec fn can_read(self, reading: u64) -> bool {
        exists|span: Duration, nanos: u128| #[trigger]
            call_ensures(Instant::elapsed, (&self.origin(),), span) && #[trigger] call_ensures(
                Duration::as_nanos,
                (&span,),
                nanos,
            ) && reading == clamped(nanos)
    }

    /// Starts a clock at the moment the system's clock shows.
    pub fn start() -> (clock: Clock)
        ensures
            call_ensures(Instant::now, (), clock.origin()),
    {
        Clock { origin: Instant::now() }
    }

    /// Nanoseconds since the clock was started, which stay at the largest
    /// reading there is should they ever run past it.
    pub fn now(&self) -> (reading: u64)
        ensures
            self.can_read(reading),
    {
        let span = self.origin.elapsed();
        let nanos: u128 = span.as_nanos();
        assert(call_ensures(Instant::elapsed, (&self.origin(),), span));
        assert(call_ensures(Duration::as_nanos, (&span,), nanos));
        clamp(nanos)
    }
}

/// The reading for a number of nanoseconds.
pub open spec fn clamped(nanos: u128) -> u64 {
    if nanos <= u64::MAX {
        nanos as u64
    } else {
        u64::MAX
    }
}

pub fn clamp(nanos: u128) -> (reading: u64)
    ensures
        reading == clamped(nanos),
{
    if nanos <= u64::MAX as u128 {
        nanos as u64
    } else {
        u64::MAX
    }
}

/// How long after `earlier` the reading `later` was taken, or nothing where the
/// two are the other way round.
pub open spec fn passed(earlier: u64, later: u64) -> u64 {
    if earlier <= later {
        (later - earlier) as u64
    } else {
        0
    }
}

/// How long after `earlier` the reading `later` was taken.
pub fn between(earlier: u64, later: u64) -> (span: u64)
    ensures
        span == passed(earlier, later),
{
    later.saturating_sub(earlier)
}

/// Readings in order are as far apart as it says: from the first to the last takes as
/// long as from the first to one between and on from there, and no time passes
/// backwards.
pub proof fn spans_add_up(
    first: u64,
    middle: u64,
    last: u64,
    begun: u64,
    rest: u64,
    whole: u64,
    backwards: u64,
)
    requires
        first <= middle <= last,
        call_ensures(between, (first, middle), begun),
        call_ensures(between, (middle, last), rest),
        call_ensures(between, (first, last), whole),
        call_ensures(between, (last, first), backwards),
    ensures
        begun + rest == whole,
        first + whole == last,
        backwards == 0,
{
}

/// A reading is the nanoseconds that have passed, for as long as they can be counted,
/// and later readings are no lower.
pub proof fn readings_only_grow(earlier: u128, later: u128, low: u64, high: u64)
    requires
        earlier <= later,
        call_ensures(clamp, (earlier,), low),
        call_ensures(clamp, (later,), high),
    ensures
        low <= high,
        earlier <= u64::MAX ==> low == earlier,
        low < u64::MAX ==> low == earlier,
        earlier > u64::MAX ==> low == u64::MAX,
{
}

} // verus!

//! The monotonic clock that waiting times are measured on.

use std::time::Instant;
use vstd::prelude::*;

verus! {

/// A moment on a pool's clock: nanoseconds since the clock was started,
/// negative for moments before that.
pub type Nanos = i64;

/// `std::time::Instant`, carried through and never looked into.
#[verifier::external_type_specification]
#[verifier::external_body]
pub struct ExInstant(Instant);

/// A clock whose readings never decrease.
pub struct Clock {
    started: Instant,
    latest: Nanos,
}

/// Calls `Instant::now`. Nothing is claimed of the moment that it returns.
#[verifier::external_body]
fn instant_now() -> Instant {
    Instant::now()
}

/// Calls `Instant::elapsed` and gives the duration in nanoseconds, its lowest 64
/// bits. The duration depends on the time, so nothing is claimed of it.
#[verifier::external_body]
fn nanos_elapsed(started: &Instant) -> u64 {
    started.elapsed().as_nanos() as u64
}

/// The moment that many nanoseconds after a clock's start, `i64::MAX` at the
/// latest.
pub fn moment(nanos: u64) -> (r: Nanos)
    ensures
        r == (if nanos <= i64::MAX {
            nanos as int
        } else {
            i64::MAX as int
        }),
{
    if nanos <= i64::MAX as u64 {
        nanos as i64
    } else {
        i64::MAX
    }
}

impl Clock {
    /// The instant that moments are counted from.
    pub closed spec fn started(self) -> Instant {
        self.started
    }

    /// The latest moment that was read; zero before the first reading.
    pub closed spec fn latest(self) -> Nanos {
        self.latest
    }

    /// `after` is this clock once it has been read: its latest moment is the
    /// nanoseconds that `nanos_elapsed` returned for its start, `i64::MAX` at most,
    /// or the latest moment read before if that is later.
    pub closed spec fn read_once(self, after: Clock) -> bool {
        &&& after.started == self.started
        &&& exists|nanos: u64|
            {
                &&& #[trigger] call_ensures(nanos_elapsed, (&self.started,), nanos)
                &&& after.latest >= self.latest
                &&& after.latest >= nanos || after.latest == i64::MAX
                &&& after.latest == self.latest || after.latest == nanos || (after.latest
                    == i64::MAX && nanos > i64::MAX)
            }
    }

    /// Start a clock at the present moment. Which moment that is depends on
    /// the time, so nothing is stated of it; whatever it is, [`Clock::now`] counts
    /// from there.
    pub fn start() -> (r: Clock)
        ensures
            r.latest() == 0,
    {
        Clock { started: instant_now(), latest: 0 }
    }

    /// Take `reading` for the present moment, or the latest moment read before if
    /// that is later.
    pub fn advance(&mut self, reading: Nanos) -> (r: Nanos)
        ensures
            r == (if reading >= old(self).latest() {
                reading
            } else {
                old(self).latest()
            }),
            final(self).latest() == r,
            final(self).started() == old(self).started(),
    {
        if reading > self.latest {
            self.latest = reading;
        }
        self.latest
    }

    /// Read the clock: the nanoseconds that `elapsed` returns for its start,
    /// `i64::MAX` at most, or the latest moment read before if that is later.
    pub fn read<F: Fn(&Instant) -> u64>(&mut self, elapsed: F) -> (r: Nanos)
        requires
            call_requires(elapsed, (&old(self).started(),)),
        ensures
            exists|nanos: u64|
                {
                    &&& #[trigger] call_ensures(elapsed, (&old(self).started(),), nanos)
                    &&& r >= nanos || r == i64::MAX
                    &&& r == old(self).latest() || r == nanos || (r == i64::MAX && nanos
                        > i64::MAX)
                },
            r >= old(self).latest(),
            final(self).latest() == r,
            final(self).started() == old(self).started(),
    {
        let nanos: u64 = elapsed(&self.started);
        self.advance(moment(nanos))
    }

    /// The present moment: never earlier than any moment read before.
    pub fn now(&mut self) -> (r: Nanos)
        ensures
            r >= old(self).latest(),
            final(self).latest() == r,
            final(self).started() == old(self).started(),
            old(self).read_once(*final(self)),
    {
        self.read(nanos_elapsed)
    }
}

/// A clock that has been read shows the time: its latest moment is the number of
/// nanoseconds that `nanos_elapsed` returned for the instant it was started at,
/// unless a moment read before was later, or that number exceeds `i64::MAX`.
proof fn law_reading_is_the_elapsed_time(before: Clock, after: Clock)
    requires
        before.read_once(after),
    ensures
        after.started() == before.started(),
        exists|nanos: u64|
            {
                &&& #[trigger] call_ensures(nanos_elapsed, (&before.started(),), nanos)
                &&& before.latest() <= nanos <= i64::MAX ==> after.latest() == nanos
                &&& nanos < before.latest() ==> after.latest() == before.latest()
                &&& nanos > i64::MAX ==> after.latest() == i64::MAX
            },
{
    let nanos = choose|nanos: u64|
        {
            &&& #[trigger] call_ensures(nanos_elapsed, (&before.started,), nanos)
            &&& after.latest >= before.latest
            &&& after.latest >= nanos || after.latest == i64::MAX
            &&& after.latest == before.latest || after.latest == nanos || (after.latest
                == i64::MAX && nanos > i64::MAX)
        };
    assert(call_ensures(nanos_elapsed, (&before.started(),), nanos));
}

/// A clock that has been read counts from where it did and has not gone back.
pub proof fn law_reading_never_goes_back(before: Clock, after: Clock)
    requires
        before.read_once(after),
    ensures
        after.started() == before.started(),
        after.latest() >= before.latest(),
{
}

} // verus!

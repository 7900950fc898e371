//! Points in time on a monotonic clock, held as plain numbers.

use vstd::prelude::*;

verus! {

/// Nanoseconds in a second.
pub const NANOS_PER_SEC: u128 = 1_000_000_000;

/// Nanoseconds in a millisecond.
pub const NANOS_PER_MILLI: u128 = 1_000_000;

/// The latest point that a [`Clock`] can show: a span of time in the standard library is at
/// most `u64::MAX` seconds and 999,999,999 nanoseconds long.
pub const LAST_READING: u128 = 18_446_744_073_709_551_615_999_999_999;

/// A point in time: nanoseconds since the start of a [`Clock`]. Points on different clocks
/// are not to be compared.
#[derive(Debug, Clone, Copy, PartialEq, Eq, Structural)]
pub struct Instant {
    pub nanos: u128,
}

impl Instant {
    /// The point `nanos` nanoseconds later, or the last one that can be held.
    pub open spec fn later(self, nanos: int) -> Instant {
        Instant {
            nanos: if self.nanos + nanos <= u128::MAX {
                (self.nanos + nanos) as u128
            } else {
                u128::MAX
            },
        }
    }

    /// A clock can show this point. Such a point is far enough from the last one that can be
    /// held for any lifetime to end where it should, see [`law_lifetime_is_not_cut`].
    pub open spec fn is_reading(self) -> bool {
        self.nanos <= LAST_READING
    }

    /// The point `secs` seconds later.
    pub fn after_secs(self, secs: u64) -> (at: Instant)
        ensures
            at == self.later(secs * NANOS_PER_SEC),
    {
        Instant { nanos: self.nanos.saturating_add(secs as u128 * NANOS_PER_SEC) }
    }

    /// The point `millis` milliseconds later.
    pub fn after_millis(self, millis: u64) -> (at: Instant)
        ensures
            at == self.later(millis * NANOS_PER_MILLI),
    {
        Instant { nanos: self.nanos.saturating_add(millis as u128 * NANOS_PER_MILLI) }
    }
}

/// A lifetime that begins when a clock is read ends exactly that much later: no number of
/// seconds or milliseconds that can be asked for goes past the last point that can be held.
pub proof fn law_lifetime_is_not_cut(now: Instant, nanos: int)
    requires
        now.is_reading(),
        0 <= nanos <= u64::MAX * NANOS_PER_SEC,
    ensures
        now.later(nanos).nanos == now.nanos + nanos,
{
}

/// A later point is exactly as many nanoseconds later as it should be, or the last one that
/// 128 bits hold. A second is 1,000,000,000 nanoseconds and a millisecond 1,000,000.
pub proof fn law_later_points(now: Instant, nanos: int)
    requires
        nanos >= 0,
    ensures
        now.nanos + nanos <= 0xffff_ffff_ffff_ffff_ffff_ffff_ffff_ffff ==> now.later(nanos).nanos
            == now.nanos + nanos,
        now.nanos + nanos > 0xffff_ffff_ffff_ffff_ffff_ffff_ffff_ffff ==> now.later(nanos).nanos
            == 0xffff_ffff_ffff_ffff_ffff_ffff_ffff_ffff,
        NANOS_PER_SEC == 1_000_000_000,
        NANOS_PER_MILLI == 1_000_000,
{
}

/// A point in time of the system's monotonic clock.
#[verifier::external_type_specification]
#[verifier::external_body]
pub struct ExInstant(std::time::Instant);

/// `std::time::Instant::now` reads the monotonic clock. Nothing is claimed of the reading.
pub assume_specification[ std::time::Instant::now ]() -> std::time::Instant;

/// `std::time::Instant::elapsed`, in nanoseconds. It gives a `std::time::Duration`, which
/// holds whole seconds as a `u64` and less than a billion nanoseconds beside them; that
/// bounds the number. Nothing else is claimed of it: it rests on when the call is made.
#[verifier::external_body]
fn elapsed_nanos(origin: &std::time::Instant) -> (nanos: u128)
    ensures
        nanos <= LAST_READING,
{
    origin.elapsed().as_nanos()
}

/// A monotonic clock that counts from when it was made.
#[derive(Clone, Copy)]
pub struct Clock {
    origin: std::time::Instant,
}

impl Clock {
    /// The clock counts from a reading of the system's monotonic clock.
    pub closed spec fn began(&self) -> bool {
        call_ensures(std::time::Instant::now, (), self.origin)
    }

    /// The point is one that the clock shows: what the system measures as the time since the
    /// clock began.
    pub closed spec fn shows(&self, now: Instant) -> bool {
        call_ensures(elapsed_nanos, (&self.origin,), now.nanos)
    }

    /// A clock that starts now. When that is rests on when the call is made.
    pub fn start() -> (clock: Clock)
        ensures
            clock.began(),
    {
        Clock { origin: std::time::Instant::now() }
    }

    /// The current point in time: the time since the clock was started. How much that is
    /// rests on when the call is made; what is done with it is stated by the functions that
    /// take it as an argument.
    pub fn now(&self) -> (now: Instant)
        ensures
            self.shows(now),
            now.is_reading(),
    {
        Instant { nanos: elapsed_nanos(&self.origin) }
    }
}

/// What a clock shows is what the system measures as the time since the clock began, and it
/// began at a reading of the system's clock.
proof fn law_clock_shows_the_time_since_it_began(clock: Clock, now: Instant)
    ensures
        clock.shows(now) <==> call_ensures(elapsed_nanos, (&clock.origin,), now.nanos),
        clock.began() <==> call_ensures(std::time::Instant::now, (), clock.origin),
        clock.shows(now) ==> now.nanos <= 18_446_744_073_709_551_615_999_999_999,
{
}

} // verus!

//! Wall-clock time.

use std::time::{SystemTime, UNIX_EPOCH};
use vstd::prelude::*;

verus! {

/// A point of the system clock.
#[verifier::external_type_specification]
#[verifier::external_body]
pub struct ExSystemTime(SystemTime);

/// The seconds since the Unix epoch that a point of the clock holds, and the nanoseconds beyond
/// them; `None` before the epoch.
pub uninterp spec fn clock_reading(at: SystemTime) -> Option<(u64, u32)>;

/// `SystemTime::now`: the present point of the clock. Which one it is is left open.
#[verifier::external_body]
fn clock_now() -> SystemTime {
    SystemTime::now()
}

/// `SystemTime::duration_since`, from the Unix epoch on: the time that the point of the clock
/// holds, with less than a second of nanoseconds; `None` before the epoch.
#[verifier::external_body]
fn time_since_epoch(at: SystemTime) -> (r: Option<(u64, u32)>)
    ensures
        r == clock_reading(at),
        is_reading(r),
{
    let since = at.duration_since(UNIX_EPOCH).ok()?;
    Some((since.as_secs(), since.subsec_nanos()))
}

/// A reading of the clock is one of a whole number of nanoseconds.
pub open spec fn is_reading(time: Option<(u64, u32)>) -> bool {
    match time {
        Some((_, nanos)) => nanos < 1_000_000_000,
        None => true,
    }
}

/// Seconds and nanoseconds since the Unix epoch by a reading; zero before the epoch.
pub open spec fn since_epoch(time: Option<(u64, u32)>) -> (u64, u32) {
    match time {
        Some(t) => t,
        None => (0, 0),
    }
}

/// The present reading of the clock; `None` before the epoch.
pub(crate) fn system_time() -> (r: Option<(u64, u32)>)
    ensures
        exists|at: SystemTime| r == #[trigger] clock_reading(at),
        is_reading(r),
{
    let at = clock_now();
    time_since_epoch(at)
}

/// Seconds since the Unix epoch and the nanoseconds beyond them; zero before the epoch.
pub(crate) fn unix_time() -> (r: (u64, u32))
    ensures
        exists|at: SystemTime|
            is_reading(#[trigger] clock_reading(at)) && r == since_epoch(clock_reading(at)),
{
    match system_time() {
        Some(t) => t,
        None => (0, 0),
    }
}

/// Whole microseconds of a time, as far as they fit in 64 bits.
pub open spec fn micros_of_time(secs: u64, nanos: u32) -> int {
    (secs * 1_000_000 + nanos / 1000) % 0x1_0000_0000_0000_0000
}

/// Microseconds of a time given in seconds and nanoseconds.
pub fn time_to_micros(secs: u64, nanos: u32) -> (r: u64)
    ensures
        r == micros_of_time(secs, nanos),
{
    let micros: u128 = secs as u128 * 1_000_000 + (nanos / 1000) as u128;
    (micros % 0x1_0000_0000_0000_0000) as u64
}

/// Whole seconds since the Unix epoch.
pub fn now_unix() -> (r: u64)
    ensures
        exists|at: SystemTime| r == since_epoch(#[trigger] clock_reading(at)).0,
{
    unix_time().0
}

/// A time in microseconds is its whole seconds a million times, and the whole microseconds of its
/// nanoseconds.
pub proof fn law_micros_of_a_time(secs: u64, nanos: u32)
    requires
        nanos < 1_000_000_000,
        secs <= 18_000_000_000_000,
    ensures
        micros_of_time(secs, nanos) / 1_000_000 == secs,
        (micros_of_time(secs, nanos) % 1_000_000) * 1000 <= nanos < (micros_of_time(secs, nanos)
            % 1_000_000) * 1000 + 1000,
        since_epoch(Some((secs, nanos))) == (secs, nanos),
        since_epoch(None) == (0u64, 0u32),
{
}

} // verus!

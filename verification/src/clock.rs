//! The wall clock, in whole seconds since the Unix epoch.

use std::time::{Duration, SystemTime, SystemTimeError, UNIX_EPOCH};
use vstd::prelude::*;

verus! {

/// The machine's clock cannot be read as a time since the Unix epoch.
#[derive(Debug, Clone, Copy, PartialEq, Eq, Structural)]
pub enum ClockError {
    /// The clock stands before the epoch.
    BeforeEpoch,
}

/// `std::time::SystemTime`, carried through unread.
#[verifier::external_type_specification]
#[verifier::external_body]
pub struct ExSystemTime(SystemTime);

/// `std::time::SystemTimeError`, carried through unread.
#[verifier::external_type_specification]
#[verifier::external_body]
pub struct ExSystemTimeError(SystemTimeError);

/// `std::time::SystemTime::now`. Nothing is claimed of the time that it reads.
pub assume_specification[ SystemTime::now ]() -> SystemTime;

/// The whole seconds that a duration holds, as `std::time::Duration::as_secs` counts them.
pub uninterp spec fn duration_secs(duration: Duration) -> u64;

/// `std::time::Duration::as_secs`. Claims that the number of whole seconds is a function
/// of the duration.
pub assume_specification[ Duration::as_secs ](duration: &Duration) -> (seconds: u64)
    ensures
        seconds == duration_secs(*duration),
;

/// Calls `std::time::SystemTime::duration_since` with the Unix epoch. Nothing is
/// claimed of the result, which rests on the time.
#[verifier::external_body]
fn since_epoch(time: SystemTime) -> Result<Duration, SystemTimeError> {
    time.duration_since(UNIX_EPOCH)
}

/// The whole seconds of a time since the epoch, or the failure to measure it.
pub open spec fn measured(elapsed: Result<Duration, SystemTimeError>) -> Result<u64, ClockError> {
    match elapsed {
        Ok(elapsed) => Ok(duration_secs(elapsed)),
        Err(_) => Err(ClockError::BeforeEpoch),
    }
}

/// Whether `reading` is what the clock can show: the measure of the time from the epoch
/// to a time that the system gave.
pub closed spec fn clock_shows(reading: Result<u64, ClockError>) -> bool {
    exists|time: SystemTime, elapsed: Result<Duration, SystemTimeError>|
        {
            &&& #[trigger] call_ensures(SystemTime::now, (), time)
            &&& #[trigger] call_ensures(since_epoch, (time,), elapsed)
            &&& reading == measured(elapsed)
        }
}

/// The clock shows nothing but what was measured of a time that the system gave.
proof fn clock_shows_what_was_measured(reading: Result<u64, ClockError>)
    requires
        clock_shows(reading),
    ensures
        exists|time: SystemTime, elapsed: Result<Duration, SystemTimeError>|
            {
                &&& #[trigger] call_ensures(SystemTime::now, (), time)
                &&& #[trigger] call_ensures(since_epoch, (time,), elapsed)
                &&& match (elapsed, reading) {
                    (Ok(elapsed), Ok(seconds)) => seconds == duration_secs(elapsed),
                    (Err(_), Err(_)) => true,
                    _ => false,
                }
            },
{
}

/// The whole seconds of a time since the epoch, or the failure to measure it.
pub fn whole_seconds(elapsed: Result<Duration, SystemTimeError>) -> (seconds: Result<
    u64,
    ClockError,
>)
    ensures
        seconds == measured(elapsed),
        match elapsed {
            Ok(elapsed) => seconds == Ok::<u64, ClockError>(duration_secs(elapsed)),
            Err(_) => seconds == Err::<u64, _>(ClockError::BeforeEpoch),
        },
{
    match elapsed {
        Ok(elapsed) => Ok(elapsed.as_secs()),
        Err(_) => Err(ClockError::BeforeEpoch),
    }
}

/// Reads the clock.
pub fn unix_now() -> (now: Result<u64, ClockError>)
    ensures
        clock_shows(now),
{
    let time = SystemTime::now();
    let elapsed = since_epoch(time);
    assert(call_ensures(SystemTime::now, (), time));
    assert(call_ensures(since_epoch, (time,), elapsed));
    whole_seconds(elapsed)
}

} // verus!

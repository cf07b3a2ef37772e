//! The time of day.
use std::time::{Duration, SystemTime, SystemTimeError};
use vstd::prelude::*;

verus! {

/// A point in time.
#[verifier::external_type_specification]
#[verifier::external_body]
pub struct ExSystemTime(SystemTime);

/// How far a point in time lies before another.
#[verifier::external_type_specification]
#[verifier::external_body]
pub struct ExSystemTimeError(SystemTimeError);

/// `SystemTime::now` reads the system clock; nothing is claimed of what it shows.
pub assume_specification[ SystemTime::now ]() -> SystemTime
;

/// `SystemTime::duration_since` measures the time between two points, or fails if
/// they are the other way round. What the clock shows is not known.
pub assume_specification[ SystemTime::duration_since ](
    this: &SystemTime,
    earlier: SystemTime,
) -> Result<Duration, SystemTimeError>
;

/// The whole milliseconds of a duration.
pub uninterp spec fn duration_ms(d: Duration) -> u128;

/// `Duration::as_millis` gives the whole milliseconds of a duration.
pub assume_specification[ Duration::as_millis ](this: &Duration) -> (r: u128)
    ensures
        r == duration_ms(*this),
;

/// `SystemTime::UNIX_EPOCH`: the start of the year 1970.
#[verifier::external_body]
fn epoch() -> SystemTime {
    SystemTime::UNIX_EPOCH
}

/// Milliseconds since the epoch as a signed integer: the low 64 bits. Before the
/// epoch there are none.
pub open spec fn clock_reading(since_epoch: Option<u128>) -> i64 {
    match since_epoch {
        Some(ms) => ms as i64,
        None => 0,
    }
}

/// Milliseconds since the epoch as a signed integer.
pub fn read_clock(since_epoch: Option<u128>) -> (r: i64)
    ensures
        r == clock_reading(since_epoch),
        since_epoch is Some && since_epoch->0 <= i64::MAX ==> r == since_epoch->0,
{
    match since_epoch {
        Some(ms) => #[verifier::truncate]
        (ms as i64),
        None => 0,
    }
}

/// The whole milliseconds of a duration that was measured; none where the measurement
/// failed.
pub open spec fn measured_ms(measured: Result<Duration, SystemTimeError>) -> Option<u128> {
    match measured {
        Ok(duration) => Some(duration_ms(duration)),
        Err(_) => None,
    }
}

/// The whole milliseconds of a duration that was measured.
pub fn millis_of(measured: Result<Duration, SystemTimeError>) -> (r: Option<u128>)
    ensures
        r == measured_ms(measured),
{
    match measured {
        Ok(duration) => Some(duration.as_millis()),
        Err(_) => None,
    }
}

/// Milliseconds since the epoch, if the clock is past it. What the clock shows is not
/// known.
pub fn since_epoch_ms() -> (r: Option<u128>)
    ensures
        exists|measured: Result<Duration, SystemTimeError>| r == #[trigger] measured_ms(measured),
{
    let measured = SystemTime::now().duration_since(epoch());
    let ghost reading = measured;
    let r = millis_of(measured);
    proof {
        assert(r == measured_ms(reading));
    }
    r
}

/// The time of day in milliseconds.
pub fn now_ms() -> (r: i64)
    ensures
        exists|measured: Result<Duration, SystemTimeError>|
            r == clock_reading(#[trigger] measured_ms(measured)),
{
    let since_epoch = since_epoch_ms();
    read_clock(since_epoch)
}

/// The clock shows the milliseconds since the epoch as they are, as long as they fit, and
/// nothing before the epoch.
pub proof fn law_what_the_clock_shows(ms: u128)
    ensures
        ms <= i64::MAX ==> clock_reading(Some(ms)) == ms,
        clock_reading(None) == 0,
{
}

} // verus!

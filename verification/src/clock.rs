//! The wall clock, as the timestamp of a record.

use std::time::{Duration, SystemTime, SystemTimeError, UNIX_EPOCH};
use vstd::prelude::*;

verus! {

/// A point in time of the system's clock. Nothing is known of its value.
#[verifier::external_type_specification]
#[verifier::external_body]
pub struct ExSystemTime(SystemTime);

/// The error of a clock that stands before the point it is measured from.
#[verifier::external_type_specification]
#[verifier::external_body]
pub struct ExSystemTimeError(SystemTimeError);

/// `SystemTime::now` reads the system's clock. Nothing is claimed of what
/// it returns.
pub assume_specification[ SystemTime::now ]() -> (now: SystemTime)
;

/// `SystemTime::duration_since`, measured from the UNIX epoch: the time that
/// has passed since then, or an error where the clock stands before it.
/// Nothing is claimed of which.
#[verifier::external_body]
fn since_unix_epoch(now: &SystemTime) -> (r: Result<Duration, SystemTimeError>) {
    now.duration_since(UNIX_EPOCH)
}

/// `Duration::as_millis` gives the whole milliseconds of a duration. Nothing
/// is claimed of the number.
pub assume_specification[ Duration::as_millis ](elapsed: &Duration) -> (millis: u128)
;

/// The timestamp that a reading of the clock gives: the low 64 bits of the
/// milliseconds since the UNIX epoch, and none for a clock that stands
/// before the epoch.
pub open spec fn timestamp_for(elapsed: Option<u128>) -> Option<u64> {
    match elapsed {
        Some(millis) => Some((millis % 0x1_0000_0000_0000_0000) as u64),
        None => None,
    }
}

/// A number of milliseconds as a timestamp: its low 64 bits.
pub fn timestamp_of_millis(millis: u128) -> (timestamp: u64)
    ensures
        timestamp == millis % 0x1_0000_0000_0000_0000,
{
    (millis % 0x1_0000_0000_0000_0000u128) as u64
}

/// The timestamp that a reading of the clock gives. `elapsed` holds the
/// milliseconds since the UNIX epoch, or nothing where the clock stands
/// before the epoch; there is no timestamp then.
pub fn timestamp_of(elapsed: Option<u128>) -> (timestamp: Option<u64>)
    ensures
        timestamp == timestamp_for(elapsed),
{
    match elapsed {
        Some(millis) => Some(timestamp_of_millis(millis)),
        None => None,
    }
}

/// The milliseconds since the UNIX epoch by the system's clock, and `None`
/// where the clock stands before the epoch. The timestamp is informational:
/// no rule of the store reads it.
pub fn current_timestamp() -> Option<u64> {
    let now = SystemTime::now();
    let elapsed = match since_unix_epoch(&now) {
        Ok(elapsed) => Some(elapsed.as_millis()),
        Err(_) => None,
    };
    timestamp_of(elapsed)
}

} // verus!

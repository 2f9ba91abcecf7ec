//! Wall-clock time in whole seconds since the Unix epoch.
use vstd::prelude::*;
use std::time::{Duration, SystemTime};

verus! {

/// `std::time::SystemTime`, carried through opaquely.
#[verifier::external_type_specification]
#[verifier::external_body]
pub struct ExSystemTime(SystemTime);

/// Calls `std::time::SystemTime::now`. Nothing is promised of the instant it
/// returns: it depends on the system clock.
#[verifier::external_body]
fn system_now() -> SystemTime {
    SystemTime::now()
}

/// Calls `SystemTime::duration_since(UNIX_EPOCH)`; `None` when the instant lies
/// before the epoch (the call's error). Nothing is promised of the duration: it
/// depends on the instant.
#[verifier::external_body]
fn since_unix_epoch(t: &SystemTime) -> Option<Duration> {
    match t.duration_since(std::time::UNIX_EPOCH) {
        Ok(d) => Some(d),
        Err(_) => None,
    }
}

/// Calls `Duration::as_secs`. The duration is opaque here, so nothing is
/// promised of the number.
#[verifier::external_body]
fn whole_seconds(d: &Duration) -> u64 {
    d.as_secs()
}

/// Whole seconds since the epoch from the clock's reading: the seconds where
/// the reading lies after the epoch, 0 where it lies before.
pub fn seconds_or_zero(since_epoch: Option<u64>) -> (r: u64)
    ensures
        r == match since_epoch {
            Some(s) => s,
            None => 0,
        },
{
    match since_epoch {
        Some(s) => s,
        None => 0,
    }
}

/// The current time in whole seconds since the Unix epoch; 0 when the
/// system clock reads a time before the epoch. The number itself is the
/// system clock's and is not stated.
pub fn unix_time_secs() -> u64 {
    let now = system_now();
    let since = match since_unix_epoch(&now) {
        Some(d) => Some(whole_seconds(&d)),
        None => None,
    };
    seconds_or_zero(since)
}

} // verus!

//! Wall-clock timestamps in milliseconds since the Unix epoch.

use std::time::{Duration, SystemTime, SystemTimeError, UNIX_EPOCH};
use vstd::prelude::*;

verus! {

#[verifier::external_type_specification]
#[verifier::external_body]
pub struct ExSystemTime(SystemTime);

#[verifier::external_type_specification]
#[verifier::external_body]
pub struct ExSystemTimeError(SystemTimeError);

/// Calls `std::time::SystemTime::now`; the result depends on the clock, so
/// nothing is stated of it.
#[verifier::external_body]
fn system_now() -> SystemTime {
    SystemTime::now()
}

/// Calls `std::time::SystemTime::duration_since` with the Unix epoch; it
/// fails when the clock reads a time before the epoch. Nothing is stated of
/// the value, which depends on the clock reading.
#[verifier::external_body]
fn since_unix_epoch(t: &SystemTime) -> Result<Duration, SystemTimeError> {
    t.duration_since(UNIX_EPOCH)
}

/// The whole number of milliseconds in a duration, as
/// `std::time::Duration::as_millis` gives it.
pub uninterp spec fn duration_as_millis(d: Duration) -> u128;

/// Calls `std::time::Duration::as_millis`, a pure function of the duration,
/// named `duration_as_millis`.
#[verifier::external_body]
fn whole_millis(d: &Duration) -> (ms: u128)
    ensures
        ms == duration_as_millis(*d),
{
    d.as_millis()
}

/// The whole milliseconds of an elapsed time, or 0 for the error that a
/// reading before the epoch gives.
pub open spec fn millis_of_elapsed(elapsed: Result<Duration, SystemTimeError>) -> u128 {
    match elapsed {
        Ok(d) => duration_as_millis(d),
        Err(_) => 0,
    }
}

/// The whole milliseconds of the time elapsed since the epoch, or 0 when the
/// clock read a time before the epoch.
pub fn millis_or_zero(elapsed: Result<Duration, SystemTimeError>) -> (ms: u128)
    ensures
        ms == millis_of_elapsed(elapsed),
{
    match elapsed {
        Ok(d) => whole_millis(&d),
        Err(_) => 0,
    }
}

/// Milliseconds since the Unix epoch, or 0 when the clock reads a time
/// before the epoch: the result is what `millis_or_zero` makes of the time
/// elapsed since the epoch, whichever time the clock gave.
pub fn now_ms() -> (ms: u128)
    ensures
        exists|elapsed: Result<Duration, SystemTimeError>| ms == #[trigger] millis_of_elapsed(elapsed),
{
    let t = system_now();
    let elapsed = since_unix_epoch(&t);
    let ghost g = elapsed;
    let ms = millis_or_zero(elapsed);
    assert(ms == millis_of_elapsed(g));
    ms
}

} // verus!

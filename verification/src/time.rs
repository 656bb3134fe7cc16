use chrono::TimeZone;
use vstd::prelude::*;

verus! {

/// A UTC instant: whole seconds since the Unix epoch and the nanoseconds
/// since the last whole second.
#[derive(Clone, Copy, Debug, PartialEq, Eq, Structural)]
pub struct Timestamp {
    pub secs: i64,
    pub nanos: u32,
}

/// The first second chrono can represent: -262143-01-01T00:00:00 UTC.
pub const MIN_UTC_SECS: i64 = -8334601228800;

/// The last second chrono can represent: +262142-12-31T23:59:59 UTC.
pub const MAX_UTC_SECS: i64 = 8210266876799;

/// Whether `(secs, nanos)` is a UTC instant: the second lies within chrono's
/// date range, and the nanoseconds stay below one second, or below two in the
/// last second of a minute (a leap second).
pub open spec fn chrono_accepts(secs: i64, nanos: u32) -> bool {
    &&& MIN_UTC_SECS <= secs <= MAX_UTC_SECS
    &&& nanos < 1_000_000_000 || (nanos < 2_000_000_000 && (secs as int) % 60 == 59)
}

/// A timestamp that chrono accepts.
pub open spec fn valid_instant(t: Timestamp) -> bool {
    chrono_accepts(t.secs, t.nanos)
}

/// Calls `chrono::TimeZone::timestamp_opt` on `Utc`. Claims that it gives an
/// instant exactly when `chrono_accepts` holds (`DateTime::from_timestamp`:
/// the day must be a `NaiveDate`, and `NaiveTime::from_num_seconds_from_midnight_opt`
/// refuses nanoseconds of two seconds or more, and of one second or more
/// outside the 59th second of a minute).
#[verifier::external_body]
pub(crate) fn utc_instant_exists(secs: i64, nanos: u32) -> (r: bool)
    ensures
        r == chrono_accepts(secs, nanos),
{
    chrono::Utc.timestamp_opt(secs, nanos).single().is_some()
}

/// `std::time::SystemTime`, a reading of the system clock.
#[verifier::external_type_specification]
#[verifier::external_body]
pub struct ExSystemTime(std::time::SystemTime);

/// Calls `std::time::SystemTime::now`. What it returns depends on when it is
/// called and on how the machine's clock is set, so nothing is claimed of it.
#[verifier::external_body]
fn system_clock() -> std::time::SystemTime {
    std::time::SystemTime::now()
}

/// Calls `SystemTime::duration_since` with `std::time::UNIX_EPOCH`: the time
/// elapsed since the epoch, or `None` where the reading lies before it (the
/// call's `Err` case). Nothing is claimed of the duration: it depends on the
/// reading, which is opaque here.
#[verifier::external_body]
fn since_unix_epoch(t: &std::time::SystemTime) -> Option<core::time::Duration> {
    match t.duration_since(std::time::UNIX_EPOCH) {
        Ok(d) => Some(d),
        Err(_) => None,
    }
}

/// Calls `Duration::as_secs`: the whole seconds of a duration, which is
/// opaque here, so nothing is claimed of the value.
#[verifier::external_body]
fn whole_seconds(d: &core::time::Duration) -> u64 {
    d.as_secs()
}

/// Calls `Duration::subsec_nanos`. Its documentation says the result is the
/// fractional part of the duration in nanoseconds, always below one second.
#[verifier::external_body]
fn subsecond_nanos(d: &core::time::Duration) -> (r: u32)
    ensures
        r < 1_000_000_000,
{
    d.subsec_nanos()
}

/// The UTC instant `secs` seconds and `nanos` nanoseconds after the Unix
/// epoch, or `None` past the last second chrono represents.
pub fn instant_of_elapsed(secs: u64, nanos: u32) -> (r: Option<Timestamp>)
    requires
        nanos < 1_000_000_000,
    ensures
        r == (if secs <= MAX_UTC_SECS as u64 {
            Some(Timestamp { secs: secs as i64, nanos })
        } else {
            None::<Timestamp>
        }),
        r matches Some(t) ==> valid_instant(t),
{
    if secs <= MAX_UTC_SECS as u64 {
        Some(Timestamp { secs: secs as i64, nanos })
    } else {
        None
    }
}

/// Reads the system clock as a UTC instant at or after the Unix epoch.
/// `None` where the clock reads before the epoch or past the last second
/// chrono represents; which instant comes back otherwise depends on the time
/// of the call, and is the elapsed time since the epoch as
/// `instant_of_elapsed` turns it into an instant.
pub fn read_clock() -> (r: Option<Timestamp>)
    ensures
        r matches Some(t) ==> valid_instant(t) && t.secs >= 0,
{
    let reading = system_clock();
    match since_unix_epoch(&reading) {
        None => None,
        Some(elapsed) => {
            let secs = whole_seconds(&elapsed);
            let nanos = subsecond_nanos(&elapsed);
            instant_of_elapsed(secs, nanos)
        },
    }
}

} // verus!

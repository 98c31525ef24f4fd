//! What the clock on the wall says: the local date and time of a moment.

use vstd::prelude::*;
use chrono::{Datelike, TimeZone, Timelike};

verus! {

/// A date and a time of day in the local time zone.
#[derive(Debug, Clone, Copy, PartialEq, Eq, Structural)]
pub struct LocalTime {
    pub year: i32,
    pub month: u32,
    pub day: u32,
    pub hour: u32,
    pub minute: u32,
    pub second: u32,
}

/// The first second that has a local time: the beginning of the year -262143.
pub const FIRST_SECOND: i64 = -8_334_601_228_800;

/// The last second that has a local time: the end of the year 262142.
pub const LAST_SECOND: i64 = 8_210_266_876_799;

/// Whether the numbers of a date and a time lie where they belong.
pub open spec fn well_formed(t: LocalTime) -> bool {
    &&& 1 <= t.month <= 12
    &&& 1 <= t.day <= 31
    &&& t.hour <= 23
    &&& t.minute <= 59
    &&& t.second <= 59
}

/// The number of a day of the calendar, counted from the first of January
/// 1970. Years are counted from March, so that the leap day is the last of its
/// year.
pub open spec fn day_number(year: int, month: int, day: int) -> int {
    let from_march = if month <= 2 {
        year - 1
    } else {
        year
    };
    let months = if month <= 2 {
        month + 9
    } else {
        month - 3
    };
    365 * from_march + from_march / 4 - from_march / 100 + from_march / 400 + (153 * months + 2)
        / 5 + day - 1 - 719_468
}

/// The seconds from the beginning of 1970 to a date and a time, as a clock in
/// one place counts them.
pub open spec fn wall_seconds(t: LocalTime) -> int {
    86_400 * day_number(t.year as int, t.month as int, t.day as int) + 3_600 * t.hour + 60
        * t.minute + t.second
}

/// Whether a local time lies less than a day from a number of seconds since
/// 1970: no time zone is further off than that.
pub open spec fn less_than_a_day_off(t: LocalTime, at: int) -> bool {
    -86_400 < wall_seconds(t) - at < 86_400
}

/// Calls `chrono::Local.timestamp_opt` for a number of seconds since 1970 and
/// takes the result apart with chrono's getters. There is a result for every
/// second in chrono's range and for no other, its numbers are well formed, and
/// it lies less than a day from those seconds: chrono takes no offset of a day
/// or more. Which local time it is depends on the machine's time zone, and is
/// not stated.
#[verifier::external_body]
pub(crate) fn local_time(at: i64) -> (r: Option<LocalTime>)
    ensures
        match r {
            Some(t) => FIRST_SECOND <= at <= LAST_SECOND && well_formed(t)
                && less_than_a_day_off(t, at as int),
            None => !(FIRST_SECOND <= at <= LAST_SECOND),
        },
{
    chrono::Local.timestamp_opt(at, 0).single().map(|when| LocalTime {
        year: when.year(),
        month: when.month(),
        day: when.day(),
        hour: when.hour(),
        minute: when.minute(),
        second: when.second(),
    })
}

/// Calls `chrono::Local::now` and takes the result apart with chrono's
/// getters. Its numbers are well formed; which time it is, is not stated.
#[verifier::external_body]
pub(crate) fn local_now() -> (r: LocalTime)
    ensures
        well_formed(r),
{
    let when = chrono::Local::now();
    LocalTime {
        year: when.year(),
        month: when.month(),
        day: when.day(),
        hour: when.hour(),
        minute: when.minute(),
        second: when.second(),
    }
}

/// Calls `std::time::SystemTime::now` and measures it from the beginning of
/// 1970: whole seconds, and the microseconds past them. There is nothing to
/// say where the clock stands before 1970.
#[verifier::external_body]
pub(crate) fn unix_time() -> (r: Option<(u64, u32)>)
    ensures
        match r {
            Some((_, micros)) => micros < 1_000_000,
            None => true,
        },
{
    std::time::SystemTime::now()
        .duration_since(std::time::UNIX_EPOCH)
        .ok()
        .map(|d| (d.as_secs(), d.subsec_micros()))
}

} // verus!

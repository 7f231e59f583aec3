//! The civil calendar and the rendering of instants. Both are chrono's work: this module
//! states what the library relies on and makes the calls.

use chrono::{DateTime, NaiveDate};
use chrono_tz::Tz;
use std::fmt::Write;
use vstd::prelude::*;

verus! {

/// A timezone of the IANA database, as `chrono_tz` holds it. The library carries such a value
/// from the resolver to the renderer and never looks inside.
#[verifier::external_type_specification]
#[verifier::external_body]
pub struct ExTz(Tz);

/// Leap years of the proleptic Gregorian calendar.
pub open spec fn is_leap_year(year: int) -> bool {
    year % 4 == 0 && (year % 100 != 0 || year % 400 == 0)
}

/// The number of days of a month, for `month` from 1 to 12.
pub open spec fn days_in_month(year: int, month: int) -> int {
    if month == 2 {
        if is_leap_year(year) {
            29
        } else {
            28
        }
    } else if month == 4 || month == 6 || month == 9 || month == 11 {
        30
    } else {
        31
    }
}

/// The day exists in the calendar.
pub open spec fn is_civil_date(year: int, month: int, day: int) -> bool {
    1 <= month <= 12 && 1 <= day <= days_in_month(year, month)
}

/// The time exists on a clock that shows no leap second.
pub open spec fn is_clock_time(hour: int, minute: int, second: int) -> bool {
    0 <= hour < 24 && 0 <= minute < 60 && 0 <= second < 60
}

/// The day exists in the calendar and the time on the clock.
pub open spec fn is_civil_time(
    year: int,
    month: int,
    day: int,
    hour: int,
    minute: int,
    second: int,
) -> bool {
    is_civil_date(year, month, day) && is_clock_time(hour, minute, second)
}

/// The leap years from the year 1 to `year`, both counted. For a year before the year 1 the
/// count is negative: it takes back the leap years after `year`, up to the year 0.
pub open spec fn leap_years_through(year: int) -> int {
    year / 4 - year / 100 + year / 400
}

/// The days from 1970-01-01 to the first day of `year`; negative before 1970.
pub open spec fn days_before_year(year: int) -> int {
    365 * (year - 1970) + leap_years_through(year - 1) - leap_years_through(1969)
}

/// The days of `year` that lie before its month `month`.
pub open spec fn days_before_month(year: int, month: int) -> int
    decreases month,
{
    if month <= 1 {
        0
    } else {
        days_before_month(year, month - 1) + days_in_month(year, month - 1)
    }
}

/// The days from 1970-01-01 to the given day of the proleptic Gregorian calendar.
pub open spec fn days_from_1970(year: int, month: int, day: int) -> int {
    days_before_year(year) + days_before_month(year, month) + day - 1
}

/// The seconds from 1970-01-01 00:00:00 to the given civil date and time, leap seconds not
/// counted: 86 400 for each day and those of the day that has begun.
pub open spec fn civil_seconds(
    year: int,
    month: int,
    day: int,
    hour: int,
    minute: int,
    second: int,
) -> int {
    86_400 * days_from_1970(year, month, day) + 3_600 * hour + 60 * minute + second
}

/// The seconds of the years 0 to 9999 lie between those of their first and their last
/// second.
#[verifier::rlimit(60)]
pub proof fn lemma_civil_seconds_bounds(
    year: int,
    month: int,
    day: int,
    hour: int,
    minute: int,
    second: int,
)
    requires
        0 <= year <= 9999,
        is_civil_time(year, month, day, hour, minute, second),
    ensures
        -62_167_219_200 <= civil_seconds(year, month, day, hour, minute, second)
            <= 253_402_300_799,
{
    reveal_with_fuel(days_before_month, 13);
    // the day is one of the 366 of its year at most, and of 365 in the year 9999
    assert(0 <= days_before_month(year, month) + day - 1 <= 365);
    assert(-719_528 <= days_before_year(year) <= 2_932_532);
    if year == 9999 {
        assert(days_before_month(year, month) + day - 1 <= 364);
    } else {
        assert(days_before_year(year) + 365 <= 2_932_532);
    }
}

/// The instant `secs` seconds and `nanos` nanoseconds after 1970-01-01 00:00:00 UTC, shown in
/// the timezone `tz` in RFC 3339 form: what `DateTime::to_rfc3339` returns for it. `None`
/// where chrono has no date for the instant.
pub uninterp spec fn rfc3339_text(tz: Tz, secs: int, nanos: int) -> Option<Seq<char>>;

/// The same instant shown in `tz` as the strftime-style `format` lays it out: what
/// `DateTime::format` writes. `None` where chrono has no date for the instant or rejects the
/// format.
pub uninterp spec fn formatted_text(tz: Tz, secs: int, nanos: int, format: Seq<char>) -> Option<
    Seq<char>,
>;

/// Calls `NaiveDate::from_ymd_opt`, `NaiveDate::and_hms_opt` and, on the UTC reading of the
/// result, `DateTime::timestamp`.
///
/// Trusted: chrono documents that the first returns `None` exactly for a day that the
/// calendar lacks and the second exactly for an hour, minute or second out of range (60
/// seconds included). Its calendar is the proleptic Gregorian one, and its timestamp counts
/// 86 400 seconds for each day since 1970-01-01 and adds the seconds since midnight.
#[verifier::external_body]
pub(crate) fn civil_timestamp(
    year: i32,
    month: u32,
    day: u32,
    hour: u32,
    minute: u32,
    second: u32,
) -> (r: Option<i64>)
    requires
        0 <= year <= 9999,
    ensures
        r is Some <==> is_civil_time(
            year as int,
            month as int,
            day as int,
            hour as int,
            minute as int,
            second as int,
        ),
        r matches Some(t) ==> t == civil_seconds(
            year as int,
            month as int,
            day as int,
            hour as int,
            minute as int,
            second as int,
        ),
{
    let date = NaiveDate::from_ymd_opt(year, month, day)?;
    let moment = date.and_hms_opt(hour, minute, second)?;
    Some(moment.and_utc().timestamp())
}

/// Calls `DateTime::from_timestamp`, moves the result into `tz` with
/// `DateTime::with_timezone` and calls `DateTime::to_rfc3339`.
///
/// Trusted: the text depends on the three arguments alone.
#[verifier::external_body]
pub(crate) fn render_rfc3339(tz: Tz, secs: i64, nanos: u32) -> (r: Option<String>)
    ensures
        match r {
            Some(text) => rfc3339_text(tz, secs as int, nanos as int) == Some(text@),
            None => rfc3339_text(tz, secs as int, nanos as int) is None,
        },
{
    let utc = DateTime::from_timestamp(secs, nanos)?;
    Some(utc.with_timezone(&tz).to_rfc3339())
}

/// Calls `DateTime::from_timestamp`, moves the result into `tz` with
/// `DateTime::with_timezone` and writes what `DateTime::format` gives for `format`.
///
/// Trusted: the text, and whether there is one, depends on the four arguments alone.
#[verifier::external_body]
pub(crate) fn render_formatted(tz: Tz, secs: i64, nanos: u32, format: &str) -> (r: Option<String>)
    ensures
        match r {
            Some(text) => formatted_text(tz, secs as int, nanos as int, format@) == Some(text@),
            None => formatted_text(tz, secs as int, nanos as int, format@) is None,
        },
{
    let utc = DateTime::from_timestamp(secs, nanos)?;
    let mut text = String::new();
    match write!(text, "{}", utc.with_timezone(&tz).format(format)) {
        Ok(()) => Some(text),
        Err(_) => None,
    }
}

} // verus!

//! Datetimes as the planner handles them: a count of seconds since
//! 1970-01-01 00:00:00, leap seconds not counted, with no time zone. What it
//! takes to read and write them in a `strftime`-style format is chrono's.

use chrono::{DateTime, NaiveDateTime, NaiveTime, Timelike};
use std::fmt::Write;
use vstd::prelude::*;

verus! {

/// The datetime that chrono's `NaiveDateTime::parse_from_str` reads from
/// `text` in the format `fmt`, as seconds since 1970-01-01 00:00:00; none
/// where it reads none.
pub uninterp spec fn spec_parse_datetime(text: Seq<char>, fmt: Seq<char>) -> Option<i64>;

/// The text that chrono writes for the datetime `secs` in the format `fmt`
/// (`DateTime::from_timestamp(secs, 0)`, then its naive datetime's
/// `format(fmt)` written out); none where `secs` lies outside chrono's range
/// or the format cannot be written.
pub uninterp spec fn spec_format_datetime(secs: i64, fmt: Seq<char>) -> Option<Seq<char>>;

/// Whether chrono's `DateTime::from_timestamp(secs, 0)` gives a datetime,
/// that is, whether `secs` lies within chrono's range.
pub uninterp spec fn spec_datetime_in_range(secs: i64) -> bool;

/// The time of day that chrono's `NaiveTime::parse_from_str` reads from
/// `text` in the format `fmt`, as (hour, minute, second); none where it reads
/// none.
pub uninterp spec fn spec_parse_time(text: Seq<char>, fmt: Seq<char>) -> Option<(u32, u32, u32)>;

/// Calls chrono's `NaiveDateTime::parse_from_str(text, fmt)` and turns the
/// datetime it reads into its count of seconds
/// (`and_utc().timestamp()`). The contract only names the result.
#[verifier::external_body]
pub(crate) fn parse_datetime(text: &str, fmt: &str) -> (r: Option<i64>)
    ensures
        r == spec_parse_datetime(text@, fmt@),
{
    match NaiveDateTime::parse_from_str(text, fmt) {
        Ok(d) => Some(d.and_utc().timestamp()),
        Err(_) => None,
    }
}

/// Calls chrono's `DateTime::from_timestamp(secs, 0)`, and writes the naive
/// datetime it gives with `format(fmt)`. The contract names the result, and
/// claims that there is none where `from_timestamp` gives none.
#[verifier::external_body]
pub(crate) fn format_datetime(secs: i64, fmt: &str) -> (r: Option<String>)
    ensures
        r.deep_view() == spec_format_datetime(secs, fmt@),
        !spec_datetime_in_range(secs) ==> r is None,
{
    let dt = match DateTime::from_timestamp(secs, 0) {
        Some(dt) => dt.naive_utc(),
        None => return None,
    };
    let mut out = String::new();
    match write!(out, "{}", dt.format(fmt)) {
        Ok(()) => Some(out),
        Err(_) => None,
    }
}

/// Calls chrono's `DateTime::from_timestamp(secs, 0)` and tells whether it
/// gives a datetime. The contract only names the result.
#[verifier::external_body]
pub(crate) fn datetime_in_range(secs: i64) -> (b: bool)
    ensures
        b == spec_datetime_in_range(secs),
{
    DateTime::from_timestamp(secs, 0).is_some()
}

/// Calls chrono's `NaiveTime::parse_from_str(text, fmt)` and gives the
/// hour, minute and second of the time it reads. The contract names the
/// result and claims the ranges that chrono documents for `hour` (0 to 23),
/// `minute` (0 to 59) and `second` (0 to 59).
#[verifier::external_body]
pub(crate) fn parse_time(text: &str, fmt: &str) -> (r: Option<(u32, u32, u32)>)
    ensures
        r == spec_parse_time(text@, fmt@),
        r matches Some((h, m, s)) ==> h < 24 && m < 60 && s < 60,
{
    match NaiveTime::parse_from_str(text, fmt) {
        Ok(t) => Some((t.hour(), t.minute(), t.second())),
        Err(_) => None,
    }
}

/// The start (midnight) of the day that holds `secs`.
pub open spec fn day_start(secs: int) -> int {
    secs - secs % 86400
}

/// The day of the week of the datetime `secs`, counted from Sunday as 0
/// (1970-01-01 was a Thursday; the calendar is the proleptic Gregorian one,
/// whose weeks run on without a break).
pub open spec fn weekday_from_sunday(secs: int) -> int {
    (secs / 86400 + 4) % 7
}

/// The day of the week of the datetime `secs`, counted from Monday as 0.
pub open spec fn weekday_from_monday(secs: int) -> int {
    (secs / 86400 + 3) % 7
}

/// The start of the day that holds `secs`.
pub fn start_of_day(secs: i64) -> (r: i64)
    requires
        secs >= i64::MIN + 86400,
    ensures
        r == day_start(secs as int),
{
    let q = secs % 86400;
    if q < 0 {
        secs - (q + 86400)
    } else {
        secs - q
    }
}

/// The day of the week of `secs`, from Sunday (`from_monday` false) or from
/// Monday (`from_monday` true).
pub fn day_of_week(secs: i64, from_monday: bool) -> (r: u32)
    ensures
        r < 7,
        from_monday ==> r == weekday_from_monday(secs as int),
        !from_monday ==> r == weekday_from_sunday(secs as int),
{
    let q = secs % 86400;
    let days: i64 = if q < 0 { secs / 86400 - 1 } else { secs / 86400 };
    let shift: i64 = if from_monday { 3 } else { 4 };
    let w = (days % 7 + shift + 7) % 7;
    w as u32
}

} // verus!

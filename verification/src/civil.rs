//! Calendar dates and wall-clock times as plain values, and the calls into
//! `chrono` and `chrono-tz` that parse, convert and format them.
//!
//! The display lives in Helsinki: local times are interpreted in the
//! `Europe/Helsinki` zone of `chrono-tz`, whose rules are compiled into that
//! crate, so each conversion depends on its arguments alone.
use chrono::{Datelike, TimeZone, Timelike};
use std::fmt::Write;
use vstd::prelude::*;


verus! {

/// A proleptic Gregorian calendar date.
#[derive(Clone, Copy, Debug, PartialEq, Eq, Structural)]
pub struct CivilDate {
    pub year: i32,
    pub month: u32,
    pub day: u32,
}

/// A date together with a time of day, in no particular time zone.
#[derive(Clone, Copy, Debug, PartialEq, Eq, Structural)]
pub struct CivilDateTime {
    pub date: CivilDate,
    pub hour: u32,
    pub minute: u32,
    pub second: u32,
}

/// Midnight at the start of `date`.
pub open spec fn midnight(date: CivilDate) -> CivilDateTime {
    CivilDateTime { date, hour: 0, minute: 0, second: 0 }
}

// ---------------------------------------------------------------------------
// Names for what chrono computes
// ---------------------------------------------------------------------------

/// What `NaiveDateTime::parse_from_str(s, fmt)` yields, as plain fields.
pub uninterp spec fn naive_datetime_parsed(s: Seq<char>, fmt: Seq<char>) -> Option<CivilDateTime>;

/// What `NaiveDate::parse_from_str(s, fmt)` yields, as plain fields.
pub uninterp spec fn naive_date_parsed(s: Seq<char>, fmt: Seq<char>) -> Option<CivilDate>;

/// The proleptic Gregorian leap years.
pub open spec fn is_leap_year(y: int) -> bool {
    y % 4 == 0 && (y % 100 != 0 || y % 400 == 0)
}

pub open spec fn days_in_month(y: int, m: int) -> int {
    if m == 2 {
        if is_leap_year(y) {
            29
        } else {
            28
        }
    } else if m == 4 || m == 6 || m == 9 || m == 11 {
        30
    } else {
        31
    }
}

/// The first and last years that chrono's dates can hold.
pub open spec fn min_year() -> int {
    -262143
}

pub open spec fn max_year() -> int {
    262142
}

/// A date that exists and that chrono can hold.
pub open spec fn valid_date(d: CivilDate) -> bool {
    &&& min_year() <= d.year <= max_year()
    &&& 1 <= d.month <= 12
    &&& 1 <= d.day <= days_in_month(d.year as int, d.month as int)
}

/// Days from 1970-01-01 to `d` (negative before it), in the proleptic
/// Gregorian calendar.
pub open spec fn days_from_civil(d: CivilDate) -> int {
    let y = if d.month <= 2 {
        d.year - 1
    } else {
        d.year as int
    };
    let era = y / 400;
    let yoe = y - era * 400;
    let mp = if d.month > 2 {
        d.month - 3
    } else {
        d.month + 9
    };
    let doy = (153 * mp + 2) / 5 + d.day - 1;
    let doe = yoe * 365 + yoe / 4 - yoe / 100 + doy;
    era * 146097 + doe - 719468
}

/// The date `z` days after 1970-01-01.
pub open spec fn civil_from_days(z: int) -> CivilDate {
    let z2 = z + 719468;
    let era = z2 / 146097;
    let doe = z2 - era * 146097;
    let yoe = (doe - doe / 1460 + doe / 36524 - doe / 146096) / 365;
    let doy = doe - (365 * yoe + yoe / 4 - yoe / 100);
    let mp = (5 * doy + 2) / 153;
    let day = doy - (153 * mp + 2) / 5 + 1;
    let month = if mp < 10 {
        mp + 3
    } else {
        mp - 9
    };
    let year = yoe + era * 400 + if month <= 2 {
        1int
    } else {
        0int
    };
    CivilDate { year: year as i32, month: month as u32, day: day as u32 }
}

/// The Unix timestamp of `dt` read as a UTC wall-clock time, if `dt` is a
/// valid date and time (a second below 60).
pub open spec fn utc_timestamp_of(dt: CivilDateTime) -> Option<i64> {
    if valid_date(dt.date) && dt.hour < 24 && dt.minute < 60 && dt.second < 60 {
        Some(
            (days_from_civil(dt.date) * 86400 + dt.hour * 3600 + dt.minute * 60 + dt.second) as i64,
        )
    } else {
        None
    }
}

/// The Unix timestamp of `dt` read as a Helsinki wall-clock time, if that
/// local time occurs exactly once.
pub uninterp spec fn helsinki_timestamp_of(dt: CivilDateTime) -> Option<i64>;

/// The Helsinki wall-clock time at Unix timestamp `ts`, if chrono can
/// represent it.
pub uninterp spec fn helsinki_civil_of(ts: i64) -> Option<CivilDateTime>;

/// The weekday of a valid date, counted in days from Sunday (1970-01-01 was
/// a Thursday).
pub open spec fn weekday_from_sunday_of(date: CivilDate) -> Option<u32> {
    if valid_date(date) {
        Some(((days_from_civil(date) + 4) % 7) as u32)
    } else {
        None
    }
}

/// The date `days` days after a valid `date`, if chrono can hold it.
pub open spec fn date_plus_days(date: CivilDate, days: i64) -> Option<CivilDate> {
    let z: int = days_from_civil(date) + days as int;
    let first = CivilDate { year: -262143i32, month: 1u32, day: 1u32 };
    let last = CivilDate { year: 262142i32, month: 12u32, day: 31u32 };
    if valid_date(date) && days_from_civil(first) <= z && z <= days_from_civil(last) {
        Some(civil_from_days(z))
    } else {
        None
    }
}

/// The decimal digits of `n`, with zeros in front up to `width` characters.
pub open spec fn zero_padded(n: nat, width: nat) -> Seq<char> {
    let d = crate::text::decimal_digits(n);
    if d.len() >= width {
        d
    } else {
        Seq::new((width - d.len()) as nat, |i: int| '0') + d
    }
}

/// A date as `YYYY-MM-DD` (`%Y-%m-%d`), for a valid date of the years 0 to
/// 9999; other dates as chrono formats them.
pub open spec fn iso_date_text(d: CivilDate) -> Option<Seq<char>> {
    if valid_date(d) && 0 <= d.year <= 9999 {
        Some(
            zero_padded(d.year as nat, 4) + "-"@ + zero_padded(d.month as nat, 2) + "-"@
                + zero_padded(d.day as nat, 2),
        )
    } else {
        formatted_date(d, "%Y-%m-%d"@)
    }
}

/// A valid time of day as `HH:MM` (`%H:%M`); other values as chrono formats
/// them.
pub open spec fn hour_minute_text(dt: CivilDateTime) -> Option<Seq<char>> {
    if valid_date(dt.date) && dt.hour < 24 && dt.minute < 60 && dt.second < 60 {
        Some(zero_padded(dt.hour as nat, 2) + ":"@ + zero_padded(dt.minute as nat, 2))
    } else {
        formatted_datetime(dt, "%H:%M"@)
    }
}

/// A valid date formatted by chrono with the format string `fmt`.
pub uninterp spec fn formatted_date(date: CivilDate, fmt: Seq<char>) -> Option<Seq<char>>;

/// A valid date and time formatted by chrono with the format string `fmt`.
pub uninterp spec fn formatted_datetime(dt: CivilDateTime, fmt: Seq<char>) -> Option<Seq<char>>;

// ---------------------------------------------------------------------------
// Calls into chrono
// ---------------------------------------------------------------------------

/// Calls `chrono::NaiveDateTime::parse_from_str`; the result is taken apart
/// into its fields. What is trusted: the fields are a function of the text
/// and the format alone.
#[verifier::external_body]
pub(crate) fn parse_naive_datetime(s: &str, fmt: &str) -> (r: Option<CivilDateTime>)
    ensures
        r == naive_datetime_parsed(s@, fmt@),
{
    match chrono::NaiveDateTime::parse_from_str(s, fmt) {
        Ok(dt) => Some(CivilDateTime {
            date: CivilDate { year: dt.year(), month: dt.month(), day: dt.day() },
            hour: dt.hour(),
            minute: dt.minute(),
            second: dt.second(),
        }),
        Err(_) => None,
    }
}

/// Calls `chrono::NaiveDate::parse_from_str`; the result is taken apart into
/// its fields. What is trusted: the fields are a function of the text and the
/// format alone.
#[verifier::external_body]
pub(crate) fn parse_naive_date(s: &str, fmt: &str) -> (r: Option<CivilDate>)
    ensures
        r == naive_date_parsed(s@, fmt@),
{
    match chrono::NaiveDate::parse_from_str(s, fmt) {
        Ok(d) => Some(CivilDate { year: d.year(), month: d.month(), day: d.day() }),
        Err(_) => None,
    }
}

/// Calls `TimeZone::from_utc_datetime` on `chrono::Utc` and takes the
/// timestamp; fields that name no valid date or time give `None`. What is
/// trusted: the result is a function of the fields alone.
#[verifier::external_body]
pub(crate) fn utc_timestamp(dt: &CivilDateTime) -> (r: Option<i64>)
    ensures
        r == utc_timestamp_of(*dt),
{
    let naive = chrono::NaiveDate::from_ymd_opt(dt.date.year, dt.date.month, dt.date.day)
        .and_then(|d| d.and_hms_opt(dt.hour, dt.minute, dt.second));
    match naive {
        Some(n) => Some(chrono::Utc.from_utc_datetime(&n).timestamp()),
        None => None,
    }
}

/// Calls `TimeZone::from_local_datetime` on `chrono_tz::Europe::Helsinki` and
/// keeps the unique result (`LocalResult::single`); fields that name no valid
/// date or time give `None`. What is trusted: the result is a function of the
/// fields alone, and the instant it names shows `dt` on a Helsinki clock
/// again (the local time of the instant that a unique local time maps to is
/// that local time).
#[verifier::external_body]
pub(crate) fn helsinki_timestamp(dt: &CivilDateTime) -> (r: Option<i64>)
    ensures
        r == helsinki_timestamp_of(*dt),
        r matches Some(t) ==> helsinki_civil_of(t) == Some(*dt),
{
    let naive = chrono::NaiveDate::from_ymd_opt(dt.date.year, dt.date.month, dt.date.day)
        .and_then(|d| d.and_hms_opt(dt.hour, dt.minute, dt.second));
    match naive {
        Some(n) => match chrono_tz::Europe::Helsinki.from_local_datetime(&n).single() {
            Some(t) => Some(t.timestamp()),
            None => None,
        },
        None => None,
    }
}

/// Calls `TimeZone::timestamp_opt(ts, 0)` on `chrono_tz::Europe::Helsinki`
/// and keeps the unique result, taken apart into its local fields. What is
/// trusted: the result is a function of `ts` alone.
#[verifier::external_body]
pub(crate) fn helsinki_civil(ts: i64) -> (r: Option<CivilDateTime>)
    ensures
        r == helsinki_civil_of(ts),
{
    match chrono_tz::Europe::Helsinki.timestamp_opt(ts, 0).single() {
        Some(t) => Some(CivilDateTime {
            date: CivilDate { year: t.year(), month: t.month(), day: t.day() },
            hour: t.hour(),
            minute: t.minute(),
            second: t.second(),
        }),
        None => None,
    }
}

/// Calls `Weekday::num_days_from_sunday` on the weekday of a date. What is
/// trusted: the result is a function of the date alone, and below 7 as
/// chrono documents.
#[verifier::external_body]
pub(crate) fn weekday_from_sunday(date: &CivilDate) -> (r: Option<u32>)
    ensures
        r == weekday_from_sunday_of(*date),
        r matches Some(w) ==> w < 7,
{
    match chrono::NaiveDate::from_ymd_opt(date.year, date.month, date.day) {
        Some(d) => Some(d.weekday().num_days_from_sunday()),
        None => None,
    }
}

/// Calls `NaiveDate::checked_add_signed` with `TimeDelta::try_days(days)`.
/// What is trusted: the result is a function of the arguments alone.
#[verifier::external_body]
pub(crate) fn add_days(date: &CivilDate, days: i64) -> (r: Option<CivilDate>)
    ensures
        r == date_plus_days(*date, days),
{
    let start = chrono::NaiveDate::from_ymd_opt(date.year, date.month, date.day);
    match (start, chrono::TimeDelta::try_days(days)) {
        (Some(d), Some(delta)) => match d.checked_add_signed(delta) {
            Some(n) => Some(CivilDate { year: n.year(), month: n.month(), day: n.day() }),
            None => None,
        },
        _ => None,
    }
}

/// Calls `NaiveDate::format(fmt)` and renders it into a string; an invalid
/// date or a format that fails to render gives `None`. What is trusted: the
/// result is a function of the arguments alone.
#[verifier::external_body]
pub(crate) fn format_date(date: &CivilDate, fmt: &str) -> (r: Option<String>)
    ensures
        r matches Some(s) ==> formatted_date(*date, fmt@) == Some(s@),
        r is None ==> formatted_date(*date, fmt@) is None,
        fmt@ == "%Y-%m-%d"@ ==> (match r {
            Some(s) => iso_date_text(*date) == Some(s@),
            None => iso_date_text(*date) is None,
        }),
{
    match chrono::NaiveDate::from_ymd_opt(date.year, date.month, date.day) {
        Some(d) => {
            let mut out = String::new();
            match write!(out, "{}", d.format(fmt)) {
                Ok(()) => Some(out),
                Err(_) => None,
            }
        },
        None => None,
    }
}

/// Calls `NaiveDateTime::format(fmt)` and renders it into a string; an
/// invalid date or time, or a format that fails to render, gives `None`. What
/// is trusted: the result is a function of the arguments alone.
#[verifier::external_body]
pub(crate) fn format_datetime(dt: &CivilDateTime, fmt: &str) -> (r: Option<String>)
    ensures
        r matches Some(s) ==> formatted_datetime(*dt, fmt@) == Some(s@),
        r is None ==> formatted_datetime(*dt, fmt@) is None,
        fmt@ == "%H:%M"@ ==> (match r {
            Some(s) => hour_minute_text(*dt) == Some(s@),
            None => hour_minute_text(*dt) is None,
        }),
{
    let naive = chrono::NaiveDate::from_ymd_opt(dt.date.year, dt.date.month, dt.date.day)
        .and_then(|d| d.and_hms_opt(dt.hour, dt.minute, dt.second));
    match naive {
        Some(n) => {
            let mut out = String::new();
            match write!(out, "{}", n.format(fmt)) {
                Ok(()) => Some(out),
                Err(_) => None,
            }
        },
        None => None,
    }
}

} // verus!

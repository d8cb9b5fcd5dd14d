//! What only the time-zone database and the system clock can say, and the
//! text form in which timestamps are stored.

use vstd::prelude::*;
use chrono::TimeZone;
use crate::parse::{parse_time_text, time_text, TimeText};
use crate::time::{Nice, Timestamp, MAX_OFFSET, MAX_SECS};

verus! {

/// The stored form of a timestamp: `YYYY-MM-DD HH:MM:SS ±HHMM`.
pub const STORAGE_FORMAT: &'static str = "%F %T %z";

/// The stored text of the instant `secs` at UTC offset `offset`.
pub uninterp spec fn timestamp_text(secs: int, offset: int) -> Seq<char>;

/// The instant and UTC offset that a stored text denotes, if it is one.
pub uninterp spec fn parsed_instant(s: Seq<char>) -> Option<(int, int)>;

/// Relies on `chrono::FixedOffset::east_opt`, `DateTime::from_timestamp`
/// and `DateTime::format`: both succeed for offsets under a day and instants
/// in chrono's range, and the text depends on the instant and offset alone.
#[verifier::external_body]
fn format_instant(secs: i64, offset: i32, fmt: &str) -> (r: Option<String>)
    requires
        fmt@ == STORAGE_FORMAT@,
    ensures
        r matches Some(t) ==> t@ == timestamp_text(secs as int, offset as int),
        (Timestamp { secs, offset }).wf() ==> r is Some,
{
    let zone = chrono::FixedOffset::east_opt(offset)?;
    let utc = chrono::DateTime::from_timestamp(secs, 0)?;
    Some(utc.with_timezone(&zone).format(fmt).to_string())
}

/// Relies on `chrono::DateTime::parse_from_str`: the instant and offset read
/// depend on the text alone, and an offset is less than a day.
#[verifier::external_body]
fn parse_instant(s: &str, fmt: &str) -> (r: Option<(i64, i32)>)
    requires
        fmt@ == STORAGE_FORMAT@,
    ensures
        match r {
            Some((a, b)) => parsed_instant(s@) == Some((a as int, b as int)) && -86_400 < b < 86_400,
            None => parsed_instant(s@) is None,
        },
{
    chrono::DateTime::parse_from_str(s, fmt).ok().map(|t| (t.timestamp(), t.offset().local_minus_utc()))
}

/// Relies on `chrono::Local::now`: the current instant and the local UTC
/// offset, which is less than a day.
#[verifier::external_body]
fn local_now() -> (r: (i64, i32))
    ensures
        -86_400 < r.1 < 86_400,
{
    let t = chrono::Local::now();
    (t.timestamp(), t.offset().local_minus_utc())
}

/// Relies on `chrono::TimeZone::with_ymd_and_hms` on `Local`: the instant of
/// a local date and time, when it exists and is unambiguous.
#[verifier::external_body]
fn local_from_parts(year: i32, month: u32, day: u32, hour: u32, minute: u32, second: u32) -> (r: Option<(i64, i32)>)
    ensures
        r matches Some((_, b)) ==> -86_400 < b < 86_400,
{
    chrono::Local.with_ymd_and_hms(year, month, day, hour, minute, second).single()
        .map(|t| (t.timestamp(), t.offset().local_minus_utc()))
}

/// Relies on `chrono::NaiveDate::and_hms_opt` and
/// `NaiveDateTime::and_local_timezone`: the instant of a local time of day
/// today, when it exists and is unambiguous.
#[verifier::external_body]
fn local_today_at(hour: u32, minute: u32, second: u32) -> (r: Option<(i64, i32)>)
    ensures
        r matches Some((_, b)) ==> -86_400 < b < 86_400,
{
    let day = chrono::Local::now().date_naive();
    day.and_hms_opt(hour, minute, second)
        .and_then(|t| t.and_local_timezone(chrono::Local).single())
        .map(|t| (t.timestamp(), t.offset().local_minus_utc()))
}

/// Relies on `chrono::TimeZone::timestamp_opt` on `Local`: the local UTC
/// offset at the instant `secs`, which the result keeps.
#[verifier::external_body]
fn local_at(secs: i64) -> (r: Option<(i64, i32)>)
    ensures
        r matches Some((a, b)) ==> a == secs && -86_400 < b < 86_400,
{
    chrono::Local.timestamp_opt(secs, 0).single().map(|t| (t.timestamp(), t.offset().local_minus_utc()))
}

impl Nice for Timestamp {
    open spec fn nice_spec(&self) -> Seq<char> {
        if self.wf() { timestamp_text(self.secs as int, self.offset as int) } else { Seq::empty() }
    }

    fn nice(&self) -> (r: String) {
        if Timestamp::new(self.secs, self.offset).is_none() {
            return String::new();
        }
        match format_instant(self.secs, self.offset, STORAGE_FORMAT) {
            Some(t) => t,
            None => String::new(),
        }
    }
}

impl Timestamp {
    /// Reads the stored text of a timestamp; `None` when it is not one, or
    /// lies out of range, or has an offset that is not whole minutes.
    pub fn from_text(s: &str) -> (r: Option<Timestamp>)
        ensures
            match parsed_instant(s@) {
                Some((a, b)) => r == (if -MAX_SECS <= a <= MAX_SECS && -MAX_OFFSET <= b <= MAX_OFFSET && b % 60 == 0 {
                    Some(Timestamp { secs: a as i64, offset: b as i32 })
                } else {
                    None
                }),
                None => r is None,
            },
    {
        match parse_instant(s, STORAGE_FORMAT) {
            Some((a, b)) => Timestamp::new(a, b),
            None => None,
        }
    }
}

/// The current time, in the local UTC offset.
pub fn now() -> (r: Option<Timestamp>)
    ensures
        r matches Some(t) ==> t.wf(),
{
    let (secs, offset) = local_now();
    Timestamp::new(secs, offset)
}

/// The instant `d` seconds after `secs`, if it is in range.
pub fn shifted(secs: i64, d: i128) -> (r: Option<i64>)
    ensures
        r is Some <==> -MAX_SECS <= secs + d <= MAX_SECS,
        r matches Some(t) ==> t == secs + d,
{
    let s = secs as i128;
    if d > 0 && s > i128::MAX - d {
        return None;
    }
    if d < 0 && s < i128::MIN - d {
        return None;
    }
    let t: i128 = s + d;
    if t < -(MAX_SECS as i128) || t > MAX_SECS as i128 {
        None
    } else {
        Some(t as i64)
    }
}

/// Reads a point in time given as `YYYY-MM-DD-H:MM[:SS]` (local), `H:MM[:SS]`
/// (local, today) or a duration from now; `None` when the text is none of
/// these, or names no single local time in range.
pub fn parse_timestamp(x: &str) -> (r: Option<Timestamp>)
    ensures
        time_text(x@) is None ==> r is None,
        r matches Some(t) ==> t.wf(),
{
    let found = match parse_time_text(x) {
        None => None,
        Some(TimeText::At { year, month, day, hour, minute, second }) => {
            local_from_parts(year as i32, month, day, hour, minute, second)
        }
        Some(TimeText::Today { hour, minute, second }) => local_today_at(hour, minute, second),
        Some(TimeText::Relative(d)) => {
            let (secs, _) = local_now();
            match shifted(secs, d.secs) {
                Some(t) => local_at(t),
                None => None,
            }
        }
    };
    match found {
        Some((secs, offset)) => Timestamp::new(secs, offset),
        None => None,
    }
}

} // verus!

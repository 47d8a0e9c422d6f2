use vstd::prelude::*;
use crate::datecode::{is_leap_year, DateCode};
use crate::error::Error;
use chrono::{DateTime, Datelike, TimeZone, Utc};
use chrono_tz::Europe::Berlin;

verus! {

/// The days from the first of January 1970 to a date of the proleptic
/// Gregorian calendar with a year of 0 or later. The year is counted from
/// March, so that the leap day comes last, and shifted by one cycle of 400
/// years, which has 146097 days.
pub open spec fn days_from_civil(year: int, month: int, day: int) -> int {
    let y = if month <= 2 {
        year + 399
    } else {
        year + 400
    };
    let era = y / 400;
    let year_of_era = y % 400;
    let shifted_month = if month > 2 {
        month - 3
    } else {
        month + 9
    };
    let day_of_year = (153 * shifted_month + 2) / 5 + day - 1;
    let day_of_era = year_of_era * 365 + year_of_era / 4 - year_of_era / 100 + day_of_year;
    era * 146097 + day_of_era - 719468 - 146097
}

/// The second, counted from the epoch, at which a wall-clock time stands in
/// UTC: 86400 for each day, and the time of day.
pub open spec fn utc_instant_of(
    year: int,
    month: int,
    day: int,
    hour: int,
    minute: int,
    second: int,
) -> int {
    days_from_civil(year, month, day) * 86400 + hour * 3600 + minute * 60 + second
}

/// The second, counted from the epoch, at which a wall-clock time stands in
/// the local civil zone; `None` where the zone has no such time, or has it
/// twice.
pub uninterp spec fn local_instant_of(
    year: int,
    month: int,
    day: int,
    hour: int,
    minute: int,
    second: int,
) -> Option<int>;

/// Year, month and day that the local civil zone shows at an instant;
/// `None` where the instant lies outside the calendar's reach.
pub uninterp spec fn local_date_of(secs: int) -> Option<(int, int, int)>;

/// The text `DD.MM.YYYY HH:MM:SS` of an instant in the local civil zone.
pub uninterp spec fn local_stamp_of(secs: int) -> Option<Seq<u8>>;

/// The zone-qualified text of an instant in UTC.
pub uninterp spec fn utc_stamp_of(secs: int) -> Option<Seq<u8>>;

/// The earliest instant that is handed to the calendar.
pub const EARLIEST_INSTANT: i64 = -100_000_000_000;

/// The latest instant that is handed to the calendar.
pub const LATEST_INSTANT: i64 = 300_000_000_000;

/// Whether an instant lies in the span that is handed to the calendar,
/// which reaches well beyond the years of four digits on both sides.
pub open spec fn instant_in_reach(secs: int) -> bool {
    EARLIEST_INSTANT <= secs <= LATEST_INSTANT
}

/// Calls chrono's `TimeZone::with_ymd_and_hms` on `Utc`, takes the single
/// result and its `timestamp`. Trusted: for every time of day on every
/// date of the calendar with a year from 0 to 9999 there is a result, and
/// it is the count of seconds of the proleptic Gregorian calendar without
/// leap seconds.
#[verifier::external_body]
fn utc_instant(year: i32, month: u32, day: u32, hour: u32, minute: u32, second: u32) -> (r: Option<
    i64,
>)
    ensures
        (0 <= year <= 9999 && (DateCode { year: year as u32, month, day }).valid() && hour < 24
            && minute < 60 && second < 60) ==> r.is_some() && r.unwrap() as int == utc_instant_of(
            year as int,
            month as int,
            day as int,
            hour as int,
            minute as int,
            second as int,
        ),
{
    match Utc.with_ymd_and_hms(year, month, day, hour, minute, second).single() {
        Some(t) => Some(t.timestamp()),
        None => None,
    }
}

/// Calls chrono's `TimeZone::with_ymd_and_hms` on chrono-tz's
/// `Europe::Berlin`, takes the single result and its `timestamp`. Trusted:
/// the result is the named instant, a function of the six numbers alone.
#[verifier::external_body]
fn local_instant(year: i32, month: u32, day: u32, hour: u32, minute: u32, second: u32) -> (r:
    Option<i64>)
    ensures
        (match r {
            Some(t) => Some(t as int),
            None => None,
        }) == local_instant_of(
            year as int,
            month as int,
            day as int,
            hour as int,
            minute as int,
            second as int,
        ),
{
    match Berlin.with_ymd_and_hms(year, month, day, hour, minute, second).single() {
        Some(t) => Some(t.timestamp()),
        None => None,
    }
}

/// Calls chrono's `DateTime::from_timestamp`, moves the instant into
/// chrono-tz's `Europe::Berlin` with `with_timezone` and reads year, month
/// and day off it. Trusted: the result is the named date.
#[verifier::external_body]
fn local_date(secs: i64) -> (r: Option<(i32, u32, u32)>)
    requires
        instant_in_reach(secs as int),
    ensures
        (match r {
            Some(d) => Some((d.0 as int, d.1 as int, d.2 as int)),
            None => None,
        }) == local_date_of(secs as int),
{
    let t = DateTime::from_timestamp(secs, 0)?.with_timezone(&Berlin);
    Some((t.year(), t.month(), t.day()))
}

/// Calls chrono's `DateTime::from_timestamp`, moves the instant into
/// chrono-tz's `Europe::Berlin` and renders it with `format` and the
/// pattern of day, month, year, hour, minute and second. Trusted: the
/// result is the named text.
#[verifier::external_body]
fn local_stamp(secs: i64) -> (r: Option<Vec<u8>>)
    requires
        instant_in_reach(secs as int),
    ensures
        (match r {
            Some(s) => Some(s@),
            None => None,
        }) == local_stamp_of(secs as int),
{
    let t = DateTime::from_timestamp(secs, 0)?.with_timezone(&Berlin);
    Some(t.format("%d.%m.%Y %H:%M:%S").to_string().into_bytes())
}

/// Calls chrono's `DateTime::from_timestamp` and `DateTime::to_rfc3339`.
/// Trusted: the result is the named text.
#[verifier::external_body]
fn utc_stamp(secs: i64) -> (r: Option<Vec<u8>>)
    requires
        instant_in_reach(secs as int),
    ensures
        (match r {
            Some(s) => Some(s@),
            None => None,
        }) == utc_stamp_of(secs as int),
{
    Some(DateTime::from_timestamp(secs, 0)?.to_rfc3339().into_bytes())
}

/// First and last second of a day, given the instants of its midnight and
/// of its last second as the calendar reports them.
pub open spec fn span_of(first: Option<int>, last: Option<int>) -> Option<(int, int)> {
    match (first, last) {
        (Some(a), Some(b)) => Some((a, b)),
        _ => None,
    }
}

/// First and last second of a UTC day: its midnight, and 86399 seconds
/// later.
pub open spec fn utc_day_span_of(day: DateCode) -> (int, int) {
    (
        utc_instant_of(day.year as int, day.month as int, day.day as int, 0, 0, 0),
        utc_instant_of(day.year as int, day.month as int, day.day as int, 23, 59, 59),
    )
}

/// First and last second of a day of the local civil zone.
pub open spec fn local_day_span_of(day: DateCode) -> Option<(int, int)> {
    span_of(
        local_instant_of(day.year as int, day.month as int, day.day as int, 0, 0, 0),
        local_instant_of(day.year as int, day.month as int, day.day as int, 23, 59, 59),
    )
}

/// The date code of a date that the calendar reports, where it is one.
pub open spec fn checked_date(date: Option<(int, int, int)>) -> Option<DateCode> {
    match date {
        Some((y, m, d)) => if 0 <= y <= 9999 && 0 <= m <= 12 && 0 <= d <= 31 && (DateCode {
            year: y as u32,
            month: m as u32,
            day: d as u32,
        }).valid() {
            Some(DateCode { year: y as u32, month: m as u32, day: d as u32 })
        } else {
            None
        },
        None => None,
    }
}

/// The local date at an instant, where the instant is in reach and the
/// date has a code.
pub open spec fn local_day_at(secs: int) -> Option<DateCode> {
    if instant_in_reach(secs) {
        checked_date(local_date_of(secs))
    } else {
        None
    }
}

/// The local dates of the first and the last second of a UTC day.
pub open spec fn local_days_of(day: DateCode) -> Option<(DateCode, DateCode)> {
    match (local_day_at(utc_day_span_of(day).0), local_day_at(utc_day_span_of(day).1)) {
        (Some(first), Some(last)) => Some((first, last)),
        _ => None,
    }
}

/// Pairs the two ends of a day as the calendar reported them; a day of
/// which an end is missing is no day.
pub fn day_span(first: Option<i64>, last: Option<i64>) -> (r: Result<(i64, i64), Error>)
    ensures
        r.is_ok() <==> first.is_some() && last.is_some(),
        r.is_ok() ==> r.unwrap() == (first.unwrap(), last.unwrap()),
        r.is_err() ==> r.unwrap_err() == Error::Parse,
{
    match (first, last) {
        (Some(a), Some(b)) => Ok((a, b)),
        _ => Err(Error::Parse),
    }
}

/// Turns a date that the calendar reported into a date code. The result is
/// `Ok` exactly for a date of the calendar with a year from 0 to 9999.
pub fn date_from_parts(date: Option<(i32, u32, u32)>) -> (r: Result<DateCode, Error>)
    ensures
        r.is_ok() <==> (date.is_some() && 0 <= date.unwrap().0 <= 9999 && (DateCode {
            year: date.unwrap().0 as u32,
            month: date.unwrap().1,
            day: date.unwrap().2,
        }).valid()),
        r.is_ok() ==> r.unwrap() == (DateCode {
            year: date.unwrap().0 as u32,
            month: date.unwrap().1,
            day: date.unwrap().2,
        }),
        r.is_err() ==> r.unwrap_err() == Error::Parse,
{
    match date {
        None => Err(Error::Parse),
        Some((y, m, d)) => {
            if y < 0 || y > 9999 {
                Err(Error::Parse)
            } else {
                DateCode::new(y as u32, m, d)
            }
        },
    }
}

/// Counts the days from the first of January 1970 to a date.
pub fn days_from_epoch(day: DateCode) -> (r: i64)
    requires
        day.valid(),
    ensures
        r == days_from_civil(day.year as int, day.month as int, day.day as int),
        -719528 <= r <= 2932896,
{
    let y: i64 = if day.month <= 2 {
        day.year as i64 + 399
    } else {
        day.year as i64 + 400
    };
    let era: i64 = y / 400;
    let year_of_era: i64 = y % 400;
    let shifted_month: i64 = if day.month > 2 {
        day.month as i64 - 3
    } else {
        day.month as i64 + 9
    };
    let day_of_year: i64 = (153 * shifted_month + 2) / 5 + day.day as i64 - 1;
    let day_of_era: i64 = year_of_era * 365 + year_of_era / 4 - year_of_era / 100 + day_of_year;
    era * 146097 + day_of_era - 719468 - 146097
}

/// First and last second of a UTC day, counted from the epoch. Every date
/// of the calendar has both.
pub fn utc_day_span(day: DateCode) -> (r: Result<(i64, i64), Error>)
    requires
        day.valid(),
    ensures
        r.is_ok(),
        (r.unwrap().0 as int, r.unwrap().1 as int) == utc_day_span_of(day),
        r.unwrap().0 == days_from_civil(day.year as int, day.month as int, day.day as int)
            * 86400,
        r.unwrap().1 == r.unwrap().0 + 86399,
{
    let first = utc_instant(day.year as i32, day.month, day.day, 0, 0, 0);
    let last = utc_instant(day.year as i32, day.month, day.day, 23, 59, 59);
    day_span(first, last)
}

/// First and last second of a day of the local civil zone, counted from the
/// epoch: the inclusive bound of the rows of that day's table.
pub fn local_day_span(day: DateCode) -> (r: Result<(i64, i64), Error>)
    requires
        day.valid(),
    ensures
        r.is_ok() <==> local_day_span_of(day).is_some(),
        r.is_ok() ==> (r.unwrap().0 as int, r.unwrap().1 as int) == local_day_span_of(
            day,
        ).unwrap(),
        r.is_err() ==> r.unwrap_err() == Error::Parse,
{
    let first = local_instant(day.year as i32, day.month, day.day, 0, 0, 0);
    let last = local_instant(day.year as i32, day.month, day.day, 23, 59, 59);
    day_span(first, last)
}

/// The date that the local civil zone shows at an instant.
pub fn local_date_at(secs: i64) -> (r: Result<DateCode, Error>)
    ensures
        r.is_ok() <==> local_day_at(secs as int).is_some(),
        r.is_ok() ==> Some(r.unwrap()) == local_day_at(secs as int),
        r.is_ok() ==> r.unwrap().valid(),
        r.is_err() ==> r.unwrap_err() == Error::Parse,
{
    if secs < EARLIEST_INSTANT || secs > LATEST_INSTANT {
        return Err(Error::Parse);
    }
    date_from_parts(local_date(secs))
}

/// The local dates of the first and of the last second of a UTC day: the
/// local days to whose tables the capture of that day contributes.
pub fn capture_local_days(day: DateCode) -> (r: Result<(DateCode, DateCode), Error>)
    requires
        day.valid(),
    ensures
        r.is_ok() <==> local_days_of(day).is_some(),
        r.is_ok() ==> Some(r.unwrap()) == local_days_of(day),
        r.is_ok() ==> r.unwrap().0.valid() && r.unwrap().1.valid(),
        r.is_err() ==> r.unwrap_err() == Error::Parse,
{
    match utc_day_span(day) {
        Err(e) => Err(e),
        Ok((a, b)) => match local_date_at(a) {
            Err(e) => Err(e),
            Ok(first) => match local_date_at(b) {
                Err(e) => Err(e),
                Ok(last) => Ok((first, last)),
            },
        },
    }
}

/// The text of an instant in the local civil zone, where the instant is in
/// reach.
pub open spec fn local_stamp_at(secs: int) -> Option<Seq<u8>> {
    if instant_in_reach(secs) {
        local_stamp_of(secs)
    } else {
        None
    }
}

/// The text of an instant in UTC, where the instant is in reach.
pub open spec fn utc_stamp_at(secs: int) -> Option<Seq<u8>> {
    if instant_in_reach(secs) {
        utc_stamp_of(secs)
    } else {
        None
    }
}

/// Renders an instant in local civil time as `DD.MM.YYYY HH:MM:SS`.
pub fn render_local_stamp(secs: i64) -> (r: Result<Vec<u8>, Error>)
    ensures
        r.is_ok() <==> local_stamp_at(secs as int).is_some(),
        r.is_ok() ==> Some(r.unwrap()@) == local_stamp_at(secs as int),
        r.is_err() ==> r.unwrap_err() == Error::Protocol,
{
    if secs < EARLIEST_INSTANT || secs > LATEST_INSTANT {
        return Err(Error::Protocol);
    }
    match local_stamp(secs) {
        Some(text) => Ok(text),
        None => Err(Error::Protocol),
    }
}

/// Renders an instant in UTC in the zone-qualified form of RFC 3339.
pub fn render_utc_stamp(secs: i64) -> (r: Result<Vec<u8>, Error>)
    ensures
        r.is_ok() <==> utc_stamp_at(secs as int).is_some(),
        r.is_ok() ==> Some(r.unwrap()@) == utc_stamp_at(secs as int),
        r.is_err() ==> r.unwrap_err() == Error::Protocol,
{
    if secs < EARLIEST_INSTANT || secs > LATEST_INSTANT {
        return Err(Error::Protocol);
    }
    match utc_stamp(secs) {
        Some(text) => Ok(text),
        None => Err(Error::Protocol),
    }
}

/// The days before the start of a year that is counted from March, within
/// the cycles of 400 years.
pub open spec fn year_start(y: int) -> int {
    (y / 400) * 146097 + (y % 400) * 365 + (y % 400) / 4 - (y % 400) / 100
}

/// Whether the year at a place of the cycle of 400 years is a leap year.
pub open spec fn leap_in_cycle(n: int) -> bool {
    n % 4 == 0 && (n % 100 != 0 || n == 0)
}

/// A year is a leap year exactly when its place in the cycle says so.
pub proof fn lemma_leap_by_cycle(year: int)
    requires
        year >= 0,
    ensures
        is_leap_year(year) == leap_in_cycle(year % 400),
{
    let q = year / 400;
    let n = year % 400;
    assert(year == 400 * q + n);
    assert(year % 4 == n % 4) by {
        vstd::arithmetic::div_mod::lemma_mod_multiples_vanish(100 * q, n, 4);
        assert(4 * (100 * q) + n == year);
    }
    assert(year % 100 == n % 100) by {
        vstd::arithmetic::div_mod::lemma_mod_multiples_vanish(4 * q, n, 100);
        assert(100 * (4 * q) + n == year);
    }
}

/// The place in the cycle of the year after a year.
pub proof fn lemma_next_in_cycle(y: int)
    requires
        y >= 0,
    ensures
        y % 400 == 399 ==> (y + 1) / 400 == y / 400 + 1 && (y + 1) % 400 == 0,
        y % 400 != 399 ==> (y + 1) / 400 == y / 400 && (y + 1) % 400 == y % 400 + 1,
{
    let e = y / 400;
    let r = y % 400;
    assert(y == e * 400 + r);
    if r == 399 {
        vstd::arithmetic::div_mod::lemma_fundamental_div_mod_converse(y + 1, 400, e + 1, 0);
    } else {
        vstd::arithmetic::div_mod::lemma_fundamental_div_mod_converse(y + 1, 400, e, r + 1);
    }
}

/// A year counted from March has 366 days where the February at its end
/// has a leap day, and 365 where not.
pub proof fn lemma_year_length(y: int)
    requires
        y >= 0,
    ensures
        year_start(y + 1) - year_start(y) == if is_leap_year(y + 1) {
            366int
        } else {
            365int
        },
{
    let e = y / 400;
    let r = y % 400;
    lemma_next_in_cycle(y);
    lemma_leap_by_cycle(y + 1);
    if r == 399 {
        assert(year_start(y + 1) == (e + 1) * 146097);
        assert(year_start(y) == e * 146097 + 399 * 365 + 99 - 3);
    } else {
        lemma_step_in_cycle(r);
        let n = r + 1;
        assert(year_start(y + 1) == e * 146097 + n * 365 + n / 4 - n / 100);
        assert(year_start(y) == e * 146097 + r * 365 + r / 4 - r / 100);
    }
}

/// Within a cycle, the count of leap days grows by one exactly at a year
/// that divides by 4 and not by 100.
pub proof fn lemma_step_in_cycle(r: int)
    requires
        0 <= r < 399,
    ensures
        (r + 1) / 4 - r / 4 == if (r + 1) % 4 == 0 {
            1int
        } else {
            0int
        },
        (r + 1) / 100 - r / 100 == if (r + 1) % 100 == 0 {
            1int
        } else {
            0int
        },
        (r + 1) % 100 == 0 ==> (r + 1) % 4 == 0,
{
}

/// Later years start later.
pub proof fn lemma_year_start_ascends(y1: int, y2: int)
    requires
        0 <= y1 < y2,
    ensures
        year_start(y2) >= year_start(y1 + 1),
    decreases y2 - y1,
{
    if y2 > y1 + 1 {
        lemma_year_start_ascends(y1, y2 - 1);
        lemma_year_length(y2 - 1);
    }
}

/// The month counted from March.
pub open spec fn shifted_month(month: int) -> int {
    if month > 2 {
        month - 3
    } else {
        month + 9
    }
}

/// The year counted from March, shifted by one cycle of 400 years.
pub open spec fn shifted_year(year: int, month: int) -> int {
    if month <= 2 {
        year + 399
    } else {
        year + 400
    }
}

/// The days of the March year before a date.
pub open spec fn day_of_year(d: DateCode) -> int {
    (153 * shifted_month(d.month as int) + 2) / 5 + d.day - 1
}

/// A date lies before the start of the month after it, and within its
/// March year.
pub proof fn lemma_day_of_year(d: DateCode)
    requires
        d.valid(),
    ensures
        (153 * shifted_month(d.month as int) + 2) / 5 <= day_of_year(d),
        d.month != 2 ==> day_of_year(d) < (153 * (shifted_month(d.month as int) + 1) + 2) / 5,
        day_of_year(d) <= if is_leap_year(d.year as int) && d.month == 2 {
            365int
        } else {
            364int
        },
{
    if d.month == 1 {
    } else if d.month == 2 {
    } else if d.month == 3 {
    } else if d.month == 4 {
    } else if d.month == 5 {
    } else if d.month == 6 {
    } else if d.month == 7 {
    } else if d.month == 8 {
    } else if d.month == 9 {
    } else if d.month == 10 {
    } else if d.month == 11 {
    } else {
    }
}

/// The day count of a date is the start of its March year and its place
/// in that year.
pub proof fn lemma_days_split(d: DateCode)
    ensures
        days_from_civil(d.year as int, d.month as int, d.day as int) == year_start(
            shifted_year(d.year as int, d.month as int),
        ) + day_of_year(d) - 719468 - 146097,
{
}

/// Of two dates in one March year, the later lies later in that year.
pub proof fn lemma_within_year(a: DateCode, b: DateCode)
    requires
        a.valid(),
        b.valid(),
        shifted_month(a.month as int) < shifted_month(b.month as int) || (a.month == b.month
            && a.day < b.day),
    ensures
        day_of_year(a) < day_of_year(b),
{
    lemma_day_of_year(a);
    lemma_day_of_year(b);
    let ma = shifted_month(a.month as int);
    let mb = shifted_month(b.month as int);
    if ma < mb {
        assert((153 * (ma + 1) + 2) / 5 <= (153 * mb + 2) / 5);
    }
}

/// Of two dates of the calendar, the one with the greater day code lies
/// more days from the epoch, and so its UTC day begins after the other
/// has ended.
pub proof fn lemma_day_codes_ascend(a: DateCode, b: DateCode)
    requires
        a.valid(),
        b.valid(),
        a.number() < b.number(),
    ensures
        days_from_civil(a.year as int, a.month as int, a.day as int) < days_from_civil(
            b.year as int,
            b.month as int,
            b.day as int,
        ),
        utc_day_span_of(a).1 < utc_day_span_of(b).0,
{
    lemma_days_split(a);
    lemma_days_split(b);
    lemma_day_of_year(a);
    lemma_day_of_year(b);
    let ya = shifted_year(a.year as int, a.month as int);
    let yb = shifted_year(b.year as int, b.month as int);
    assert(a.year < b.year || (a.year == b.year && (a.month < b.month || (a.month == b.month
        && a.day < b.day))));
    if ya == yb {
        lemma_within_year(a, b);
    } else {
        assert(ya < yb);
        lemma_year_length(ya);
        lemma_year_start_ascends(ya, yb);
        if a.month <= 2 {
            assert(ya + 1 == a.year + 400);
        }
    }
}

} // verus!

use chrono::{Datelike, NaiveDate};
use vbus_log_sync::civil::{
    capture_local_days, date_from_parts, day_span, days_from_epoch, local_date_at,
    local_day_span, render_local_stamp, render_utc_stamp, utc_day_span,
};
use vbus_log_sync::datecode::DateCode;
use vbus_log_sync::error::Error;

#[test]
fn utc_day_runs_from_midnight_to_last_second() {
    let day = DateCode { year: 2021, month: 6, day: 1 };
    assert_eq!(utc_day_span(day), Ok((1622505600, 1622591999)));
    let epoch = DateCode { year: 1970, month: 1, day: 1 };
    assert_eq!(utc_day_span(epoch), Ok((0, 86399)));
}

#[test]
fn local_day_in_summer_is_two_hours_ahead() {
    let day = DateCode { year: 2021, month: 6, day: 1 };
    assert_eq!(local_day_span(day), Ok((1622498400, 1622584799)));
}

#[test]
fn local_day_in_winter_is_one_hour_ahead() {
    let day = DateCode { year: 2021, month: 1, day: 1 };
    assert_eq!(local_day_span(day), Ok((1609455600, 1609541999)));
}

#[test]
fn local_day_of_the_clock_change_is_an_hour_short() {
    let day = DateCode { year: 2021, month: 3, day: 28 };
    assert_eq!(local_day_span(day), Ok((1616886000, 1616968799)));
}

#[test]
fn day_boundary_mapping_example() {
    assert_eq!(local_date_at(1622505600), Ok(DateCode { year: 2021, month: 6, day: 1 }));
    assert_eq!(local_date_at(1622591999), Ok(DateCode { year: 2021, month: 6, day: 2 }));
    assert_eq!(render_local_stamp(1622505600), Ok(b"01.06.2021 02:00:00".to_vec()));
    assert_eq!(render_local_stamp(1622591999), Ok(b"02.06.2021 01:59:59".to_vec()));
    let capture = DateCode { year: 2021, month: 6, day: 1 };
    assert_eq!(
        capture_local_days(capture),
        Ok((DateCode { year: 2021, month: 6, day: 1 }, DateCode { year: 2021, month: 6, day: 2 }))
    );
}

#[test]
fn local_date_beyond_four_digit_years_is_refused() {
    let last = DateCode { year: 9999, month: 12, day: 31 };
    assert_eq!(capture_local_days(last), Err(Error::Parse));
    assert_eq!(local_date_at(i64::MAX), Err(Error::Parse));
    assert_eq!(local_date_at(i64::MIN), Err(Error::Parse));
}

#[test]
fn stamps_are_rendered_in_both_forms() {
    assert_eq!(render_local_stamp(1609455600), Ok(b"01.01.2021 00:00:00".to_vec()));
    assert_eq!(render_utc_stamp(1622505600), Ok(b"2021-06-01T00:00:00+00:00".to_vec()));
    assert_eq!(render_utc_stamp(0), Ok(b"1970-01-01T00:00:00+00:00".to_vec()));
    assert_eq!(render_utc_stamp(i64::MAX), Err(Error::Protocol));
    assert_eq!(render_local_stamp(i64::MIN), Err(Error::Protocol));
}

#[test]
fn reported_parts_are_checked() {
    assert_eq!(date_from_parts(Some((2021, 6, 1))), Ok(DateCode { year: 2021, month: 6, day: 1 }));
    assert_eq!(date_from_parts(Some((-1, 6, 1))), Err(Error::Parse));
    assert_eq!(date_from_parts(Some((10000, 1, 1))), Err(Error::Parse));
    assert_eq!(date_from_parts(Some((2021, 2, 30))), Err(Error::Parse));
    assert_eq!(date_from_parts(None), Err(Error::Parse));
    assert_eq!(day_span(Some(1), Some(2)), Ok((1, 2)));
    assert_eq!(day_span(None, Some(2)), Err(Error::Parse));
    assert_eq!(day_span(Some(1), None), Err(Error::Parse));
}

#[test]
fn day_count_has_known_values() {
    assert_eq!(days_from_epoch(DateCode { year: 1970, month: 1, day: 1 }), 0);
    assert_eq!(days_from_epoch(DateCode { year: 1969, month: 12, day: 31 }), -1);
    assert_eq!(days_from_epoch(DateCode { year: 2021, month: 6, day: 1 }), 18779);
    assert_eq!(days_from_epoch(DateCode { year: 2000, month: 2, day: 29 }), 11016);
    assert_eq!(days_from_epoch(DateCode { year: 2000, month: 3, day: 1 }), 11017);
    assert_eq!(days_from_epoch(DateCode { year: 0, month: 1, day: 1 }), -719528);
    assert_eq!(days_from_epoch(DateCode { year: 9999, month: 12, day: 31 }), 2932896);
}

#[test]
fn day_count_agrees_with_the_calendar_on_every_date() {
    let mut date = NaiveDate::from_ymd_opt(0, 1, 1).unwrap();
    let last = NaiveDate::from_ymd_opt(9999, 12, 31).unwrap();
    let mut expected: i64 = -719528;
    let mut seen = 0;
    loop {
        let day = DateCode { year: date.year() as u32, month: date.month(), day: date.day() };
        assert_eq!(days_from_epoch(day), expected);
        if seen % 97 == 0 || date == last {
            assert_eq!(utc_day_span(day), Ok((expected * 86400, expected * 86400 + 86399)));
        }
        if date == last {
            break;
        }
        date = date.succ_opt().unwrap();
        expected += 1;
        seen += 1;
    }
    assert_eq!(expected, 2932896);
}

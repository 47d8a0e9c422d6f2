use vbus_log_sync::datecode::{parse_datecode, parse_decimal, DateCode};
use vbus_log_sync::error::Error;
use vbus_log_sync::names::{capture_file_name, capture_url_path, datecode_digits, output_file_name};

#[test]
fn parses_eight_digit_date() {
    let d = parse_datecode(b"20210601").unwrap();
    assert_eq!(d, DateCode { year: 2021, month: 6, day: 1 });
    assert_eq!(d.to_number(), 20210601);
}

#[test]
fn rejects_wrong_length() {
    assert_eq!(parse_datecode(b"2021060"), Err(Error::Parse));
    assert_eq!(parse_datecode(b"202106011"), Err(Error::Parse));
    assert_eq!(parse_datecode(b""), Err(Error::Parse));
}

#[test]
fn rejects_separators_and_signs() {
    assert_eq!(parse_datecode(b"2021-6-1"), Err(Error::Parse));
    assert_eq!(parse_datecode(b"+2021061"), Err(Error::Parse));
    assert_eq!(parse_datecode(b"2021060a"), Err(Error::Parse));
}

#[test]
fn rejects_dates_outside_the_calendar() {
    assert_eq!(parse_datecode(b"20211301"), Err(Error::Parse));
    assert_eq!(parse_datecode(b"20210001"), Err(Error::Parse));
    assert_eq!(parse_datecode(b"20210100"), Err(Error::Parse));
    assert_eq!(parse_datecode(b"20210431"), Err(Error::Parse));
    assert_eq!(parse_datecode(b"20230229"), Err(Error::Parse));
    assert_eq!(parse_datecode(b"19000229"), Err(Error::Parse));
}

#[test]
fn accepts_leap_days() {
    assert_eq!(parse_datecode(b"20240229"), Ok(DateCode { year: 2024, month: 2, day: 29 }));
    assert_eq!(parse_datecode(b"20000229"), Ok(DateCode { year: 2000, month: 2, day: 29 }));
}

#[test]
fn number_and_date_agree() {
    assert_eq!(DateCode::from_number(20211231), Ok(DateCode { year: 2021, month: 12, day: 31 }));
    assert_eq!(DateCode::from_number(20211232), Err(Error::Parse));
    assert_eq!(DateCode::from_number(100000101), Err(Error::Parse));
    assert_eq!(DateCode::new(2021, 6, 31), Err(Error::Parse));
    assert_eq!(DateCode::new(10000, 1, 1), Err(Error::Parse));
    assert_eq!(DateCode::new(0, 1, 1), Ok(DateCode { year: 0, month: 1, day: 1 }));
}

#[test]
fn decimal_numbers_up_to_the_limit() {
    assert_eq!(parse_decimal(b"0"), Some(0));
    assert_eq!(parse_decimal(b"000123"), Some(123));
    assert_eq!(parse_decimal(b"18446744073709551615"), Some(u64::MAX));
    assert_eq!(parse_decimal(b"18446744073709551616"), None);
    assert_eq!(parse_decimal(b"99999999999999999999"), None);
    assert_eq!(parse_decimal(b""), None);
    assert_eq!(parse_decimal(b"12a"), None);
    assert_eq!(parse_decimal(b"-1"), None);
}

#[test]
fn digits_spell_the_date_back() {
    let d = DateCode { year: 2021, month: 6, day: 1 };
    assert_eq!(datecode_digits(d), b"20210601".to_vec());
    let early = DateCode { year: 7, month: 1, day: 9 };
    assert_eq!(datecode_digits(early), b"00070109".to_vec());
    assert_eq!(parse_datecode(&datecode_digits(early)), Ok(early));
}

#[test]
fn names_of_files_and_paths() {
    assert_eq!(capture_file_name(b"20210601"), b"20210601.vbus".to_vec());
    assert_eq!(
        output_file_name(DateCode { year: 2021, month: 6, day: 2 }),
        b"20210602.csv".to_vec()
    );
    assert_eq!(capture_url_path(b"20210601"), b"/log/20210601_packets.vbus".to_vec());
}

#[test]
fn error_kinds_have_labels() {
    assert_eq!(Error::Transport.label(), "transport error");
    assert_eq!(Error::Protocol.label(), "protocol error");
    assert_eq!(Error::Filesystem.label(), "filesystem error");
    assert_eq!(Error::Parse.label(), "parse error");
}

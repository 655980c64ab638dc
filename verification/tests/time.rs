use odbc2parquet::buffer::IntoPhysical;
use chrono::NaiveDate;
use odbc2parquet::temporal::{parse_time, Date, TimeOfDay, Timestamp};
use odbc2parquet::EncodeError;

fn time(text: &[u8]) -> TimeOfDay {
    parse_time(&text.to_vec()).unwrap()
}

#[test]
fn time_without_fraction() {
    // Hours
    let milliseconds_since_midnight: i32 = time(b"12:00:00").into_physical();
    assert_eq!(milliseconds_since_midnight, 12 * 3600 * 1000);

    // Minutes
    let milliseconds_since_midnight: i32 = time(b"00:17:00").into_physical();
    assert_eq!(milliseconds_since_midnight, 17 * 60 * 1000);

    // Complete timestamp without fraction
    let milliseconds_since_midnight: i32 = time(b"12:17:51").into_physical();
    assert_eq!(milliseconds_since_midnight, (12 * 3600 + 17 * 60 + 51) * 1000)
}

#[test]
fn time_with_milliseconds() {
    let milliseconds_since_midnight: i32 = time(b"12:17:51.123").into_physical();
    assert_eq!(milliseconds_since_midnight, (12 * 3600 + 17 * 60 + 51) * 1000 + 123)
}

#[test]
fn time_with_microseconds() {
    let microseconds_since_midnight: i64 = time(b"12:17:51.123456").into_physical();
    assert_eq!(
        microseconds_since_midnight,
        (12 * 3600 + 17 * 60 + 51) * 1_000_000 + 123_456
    )
}

#[test]
fn time_with_nanoseconds() {
    // Nanoseconds are truncated, not rounded, to microsecond resolution.
    let microseconds_since_midnight: i64 = time(b"12:17:51.123456789").into_physical();
    assert_eq!(
        microseconds_since_midnight,
        (12 * 3600 + 17 * 60 + 51) * 1_000_000 + 123_456
    )
}

#[test]
fn time_fraction_is_padded_not_scaled() {
    // ".5" means half a second: 500 milliseconds.
    let ms: i32 = time(b"00:00:00.5").into_physical();
    assert_eq!(ms, 500);
}

#[test]
fn time_conversion_monotonic_in_fraction() {
    let mut previous: i64 = -1;
    for frac in [b"000", b"123", b"499", b"500", b"901", b"999"] {
        let mut text = b"03:04:05.".to_vec();
        text.extend_from_slice(frac);
        let us: i64 = parse_time(&text).unwrap().into_physical();
        assert!(us > previous);
        previous = us;
    }
}

#[test]
fn time_malformed_inputs_are_decode_failures() {
    for bad in [
        &b"1:00:00"[..],
        &b"12-00-00"[..],
        &b"12:00"[..],
        &b"ab:cd:ef"[..],
        &b"24:00:00"[..],
        &b"12:60:00"[..],
        &b"12:00:61"[..],
        &b"12:00:00,5"[..],
        &b"12:00:00.5a"[..],
    ] {
        assert_eq!(parse_time(&bad.to_vec()), Err(EncodeError::MalformedTime));
    }
}

#[test]
fn days_since_epoch_around_epoch() {
    let to_days = |year: i16, month: u16, day: u16| -> i32 {
        Date { year, month, day }.into_physical()
    };
    assert_eq!(to_days(1970, 1, 1), 0);
    assert_eq!(to_days(1970, 1, 2), 1);
    assert_eq!(to_days(1969, 12, 31), -1);
    assert_eq!(to_days(1970, 3, 1), 59);
    assert_eq!(to_days(1972, 3, 1), 60 + 730);
    assert_eq!(to_days(2000, 1, 1), 10957);
    assert_eq!(to_days(1900, 1, 1), -25567);
}

#[test]
fn days_since_epoch_agrees_with_chrono() {
    let epoch = NaiveDate::from_ymd_opt(1970, 1, 1).unwrap();
    for (y, m, d) in [
        (1600, 2, 29),
        (1899, 12, 31),
        (1970, 1, 1),
        (1999, 2, 28),
        (2000, 2, 29),
        (2024, 12, 31),
        (2100, 3, 1),
        (9999, 12, 31),
    ] {
        let days: i32 = Date {
            year: y as i16,
            month: m as u16,
            day: d as u16,
        }
        .into_physical();
        let expected = NaiveDate::from_ymd_opt(y, m, d)
            .unwrap()
            .signed_duration_since(epoch)
            .num_days();
        assert_eq!(days as i64, expected);
    }
}

#[test]
fn timestamp_micros_since_epoch() {
    let ts = Timestamp {
        year: 1970,
        month: 1,
        day: 2,
        hour: 0,
        minute: 0,
        second: 1,
        fraction: 123_456_789,
    };
    let micros: i64 = ts.into_physical();
    assert_eq!(micros, (86400 + 1) * 1_000_000 + 123_456);

    // One nanosecond before the epoch: division truncates toward zero.
    let ts = Timestamp {
        year: 1969,
        month: 12,
        day: 31,
        hour: 23,
        minute: 59,
        second: 59,
        fraction: 999_999_999,
    };
    let micros: i64 = ts.into_physical();
    assert_eq!(micros, 0);

    // A full second before the epoch is exactly minus one million.
    let ts = Timestamp {
        year: 1969,
        month: 12,
        day: 31,
        hour: 23,
        minute: 59,
        second: 59,
        fraction: 0,
    };
    let micros: i64 = ts.into_physical();
    assert_eq!(micros, -1_000_000);
}

use fasttime::parse_rfc3339_offset;
use fasttime::Date;
use fasttime::DateError;
use fasttime::DateTime;
use fasttime::Duration;
use fasttime::OffsetDateTime;
use fasttime::Time;
use fasttime::TimeError;
use fasttime::UtcOffset;
use fasttime::UtcOffsetError;
use fasttime::Weekday;

#[test]
fn epoch_anchor_days() {
    let d0 = Date::from_days_since_unix_epoch(0).unwrap();
    assert_eq!((d0.year, d0.month, d0.day), (1970, 1, 1));
    let dm1 = Date::from_days_since_unix_epoch(-1).unwrap();
    assert_eq!((dm1.year, dm1.month, dm1.day), (1969, 12, 31));
    let d1 = Date::from_days_since_unix_epoch(1).unwrap();
    assert_eq!((d1.year, d1.month, d1.day), (1970, 1, 2));
}

#[test]
fn extreme_day_counts_fail_cleanly() {
    assert_eq!(Date::from_days_since_unix_epoch(i64::MAX), Err(DateError::OutOfRange));
    assert_eq!(Date::from_days_since_unix_epoch(i64::MIN), Err(DateError::OutOfRange));
    let min_days = Date::from_ymd(i32::MIN, 1, 1).unwrap().days_since_unix_epoch();
    assert_eq!(Date::from_days_since_unix_epoch(min_days - 1), Err(DateError::OutOfRange));
}

#[test]
fn negative_year_round_trips() {
    let cases = [(-1, 12, 31), (-4, 2, 29), (-100, 3, 1), (-400, 2, 29), (-1970, 6, 15)];
    for &(y, m, d) in &cases {
        let date = Date::from_ymd(y, m, d).unwrap();
        let days = date.days_since_unix_epoch();
        let round = Date::from_days_since_unix_epoch(days).unwrap();
        assert_eq!(date, round, "round trip failed for {}-{}-{}", y, m, d);
    }
}

#[test]
fn negative_year_formatting() {
    assert_eq!(Date::from_ymd(-1, 12, 31).unwrap().format(), "-001-12-31");
    assert_eq!(Date::from_ymd(-12345, 1, 2).unwrap().format(), "-12345-01-02");
    assert_eq!(Date::from_ymd(12345, 1, 2).unwrap().format(), "12345-01-02");
    assert_eq!(Date::from_ymd(7, 3, 4).unwrap().format(), "0007-03-04");
}

#[test]
fn add_days_overflow_and_step() {
    let date = Date::from_ymd(2023, 12, 31).unwrap();
    let next = date.add_days(1).unwrap();
    assert_eq!((next.year, next.month, next.day), (2024, 1, 1));
    assert_eq!(date.add_days(i64::MAX), Err(DateError::OutOfRange));
    assert_eq!(date.add_days(i64::MIN), Err(DateError::OutOfRange));
}

#[test]
fn weekday_number_and_negative_days() {
    let wed = Date::from_ymd(1969, 12, 31).unwrap();
    assert_eq!(wed.weekday(), Weekday::Wednesday);
    assert_eq!(wed.weekday().number_from_monday(), 3);
    let thu = Date::from_ymd(1970, 1, 1).unwrap();
    assert_eq!(thu.weekday(), Weekday::Thursday);
    assert_eq!(thu.weekday().number_from_monday(), 4);
}

#[test]
fn ordinal_year_lengths() {
    assert_eq!(Date::from_ymd(2020, 12, 31).unwrap().ordinal(), 366);
    assert_eq!(Date::from_ymd(2023, 12, 31).unwrap().ordinal(), 365);
    assert_eq!(Date::from_ymd(2020, 1, 1).unwrap().ordinal(), 1);
}

#[test]
fn time_field_validation() {
    assert!(matches!(Time::from_hms_nano(24, 0, 0, 0), Err(TimeError::InvalidTime)));
    assert!(matches!(Time::from_hms_nano(0, 60, 0, 0), Err(TimeError::InvalidTime)));
    assert!(matches!(Time::from_hms_nano(0, 0, 60, 0), Err(TimeError::InvalidTime)));
    assert!(matches!(Time::from_hms_nano(0, 0, 0, 1_000_000_000), Err(TimeError::InvalidTime)));
    assert!(matches!(Time::from_seconds_nanos(86_400, 0), Err(TimeError::InvalidTime)));
    let t = Time::from_seconds_nanos(86_399, 999_999_999).unwrap();
    assert_eq!((t.hour, t.minute, t.second, t.nanosecond), (23, 59, 59, 999_999_999));
}

#[test]
fn duration_constructor_scales() {
    assert_eq!(Duration::seconds(2).total_nanos(), 2_000_000_000);
    assert_eq!(Duration::milliseconds(3).total_nanos(), 3_000_000);
    assert_eq!(Duration::microseconds(-4).total_nanos(), -4_000);
    assert_eq!(Duration::nanoseconds(-5).total_nanos(), -5);
}

#[test]
fn duration_arithmetic_operators() {
    let a = Duration::seconds(1);
    let b = Duration::milliseconds(500);
    assert_eq!((a + b).total_nanos(), 1_500_000_000);
    assert_eq!((a - b).total_nanos(), 500_000_000);
    assert_eq!((-a).total_nanos(), -1_000_000_000);
    assert!(b < a);
}

#[test]
fn unix_timestamp_exact_values() {
    let day2 = DateTime::new(
        Date::from_ymd(1970, 1, 2).unwrap(),
        Time::from_hms_nano(0, 0, 0, 0).unwrap(),
    );
    assert_eq!(day2.unix_timestamp(), 86_400);
    let before = DateTime::new(
        Date::from_ymd(1969, 12, 31).unwrap(),
        Time::from_hms_nano(23, 59, 59, 0).unwrap(),
    );
    assert_eq!(before.unix_timestamp(), -1);
    assert_eq!(before.unix_timestamp_nanos(), -1_000_000_000);
}

#[test]
fn from_unix_timestamp_normalizes() {
    let dt = DateTime::from_unix_timestamp(0, -1).unwrap();
    assert_eq!(dt.format(), "1969-12-31T23:59:59.999999999Z");
    let dt2 = DateTime::from_unix_timestamp(-1, 1_000_000_001).unwrap();
    assert_eq!(dt2.format(), "1970-01-01T00:00:00.000000001Z");
    assert_eq!(DateTime::from_unix_timestamp(i64::MAX, 0), Err(DateError::OutOfRange));
    assert_eq!(DateTime::from_unix_timestamp(i64::MIN, -999_999_999), Err(DateError::OutOfRange));
}

#[test]
fn now_utc_is_in_range() {
    let now = DateTime::now_utc().unwrap();
    assert!(now.date.year >= 2020);
}

#[test]
fn offset_bounds_and_negative_zero() {
    assert!(matches!(UtcOffset::from_seconds(86_401), Err(UtcOffsetError::OutOfRange)));
    assert!(matches!(UtcOffset::from_seconds(-86_401), Err(UtcOffsetError::OutOfRange)));
    assert_eq!(UtcOffset::from_seconds(86_400).unwrap().as_seconds(), 86_400);
    assert!(matches!(UtcOffset::from_hours_minutes(true, 24, 0), Err(UtcOffsetError::OutOfRange)));
    let neg_zero = UtcOffset::from_hours_minutes(false, 0, 0).unwrap();
    assert_eq!(neg_zero.as_seconds(), 0);
    assert!(neg_zero.is_utc());
}

#[test]
fn date_parse_rejections() {
    assert!(Date::parse("").is_err());
    assert!(Date::parse("2023-11").is_err());
    assert!(Date::parse("2023-13-01").is_err());
    assert!(Date::parse("2023-00-10").is_err());
    assert!(Date::parse("2023-02-30").is_err());
    assert!(Date::parse("2023-1a-05").is_err());
    // Numeric fields are digits only: a sign character is rejected.
    assert!(Date::parse("+2023-02-28").is_err());
    assert!(Date::parse("2023-+2-28").is_err());
}

#[test]
fn time_parse_rejects_signs_in_fields() {
    assert!(Time::parse("12:+34:56").is_err());
    assert!(Time::parse("+12:34:56").is_err());
    assert!(Time::parse("12:34:56.+1").is_err());
}

#[test]
fn datetime_parse_separators() {
    let dt = DateTime::parse("2024-01-02 03:04:05z").unwrap();
    assert_eq!(dt.format(), "2024-01-02T03:04:05Z");
    assert!(DateTime::parse("2024-01-02T03:04:05").is_err());
    assert!(DateTime::parse("2024-01-02X03:04:05Z").is_err());
}

#[test]
fn offset_datetime_compact_offset_and_strictness() {
    // Surrounding characters, white space included, are a parse failure.
    assert!(OffsetDateTime::parse("  2023-11-05T23:59:59Z  ").is_err());
    assert!(OffsetDateTime::parse("2023-11-05T23:59:59Z ").is_err());
    let compact = OffsetDateTime::parse("2023-11-05T01:02:03+0230").unwrap();
    assert_eq!(compact.format(), "2023-11-05T01:02:03+02:30");
    let neg = OffsetDateTime::parse("2021-01-01T00:00:00-05:45").unwrap();
    assert_eq!(neg.format(), "2021-01-01T00:00:00-05:45");
    assert!(OffsetDateTime::parse("2023-11-05T23:59:59").is_err());
}

#[test]
fn offset_parse_rejections() {
    assert!(parse_rfc3339_offset("").is_err());
    assert!(parse_rfc3339_offset("+5").is_err());
    assert!(parse_rfc3339_offset("+123").is_err());
    assert!(parse_rfc3339_offset("+24:00").is_err());
    assert!(parse_rfc3339_offset("+02:60").is_err());
    assert!(parse_rfc3339_offset("02:30").is_err());
    // Only the exact two-digit forms are accepted.
    assert!(parse_rfc3339_offset("+05:").is_err());
    assert!(parse_rfc3339_offset("+2:30").is_err());
    assert!(parse_rfc3339_offset("+02:3").is_err());
    assert!(parse_rfc3339_offset("++2:30").is_err());
    assert_eq!(parse_rfc3339_offset("Z").unwrap().as_seconds(), 0);
    assert_eq!(parse_rfc3339_offset("z").unwrap().as_seconds(), 0);
    assert_eq!(parse_rfc3339_offset("+00:00").unwrap().as_seconds(), 0);
}

#[test]
fn era_cycle_shift() {
    let a = Date::from_ymd(1600, 2, 29).unwrap();
    let b = Date::from_ymd(2000, 2, 29).unwrap();
    assert_eq!(b.days_since_unix_epoch() - a.days_since_unix_epoch(), 146_097);
}

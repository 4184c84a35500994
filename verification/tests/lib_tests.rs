use fasttime::parse_rfc3339_offset;
use fasttime::Date;
use fasttime::DateTime;
use fasttime::Duration;
use fasttime::OffsetDateTime;
use fasttime::Time;
use fasttime::TimeError;
use fasttime::UtcOffset;
use fasttime::Weekday;

#[test]
fn lib_date_epoch_and_neighbors() {
    let d0 = Date::from_days_since_unix_epoch(0).unwrap();
    assert_eq!(d0.year, 1970);
    assert_eq!(d0.month, 1);
    assert_eq!(d0.day, 1);

    let d1 = Date::from_days_since_unix_epoch(1).unwrap();
    assert_eq!(d1.format(), "1970-01-02");

    let dm1 = Date::from_days_since_unix_epoch(-1).unwrap();
    assert_eq!(dm1.format(), "1969-12-31");
}

#[test]
fn lib_days_round_trip() {
    let cases = [
        (1970, 1, 1),
        (1970, 1, 2),
        (1969, 12, 31),
        (2000, 2, 29),
        (2000, 3, 1),
        (1900, 3, 1),
        (2400, 2, 29),
    ];
    for &(y, m, d) in &cases {
        let date = Date::from_ymd(y, m, d).unwrap();
        let days = date.days_since_unix_epoch();
        let round = Date::from_days_since_unix_epoch(days).unwrap();
        assert_eq!(date, round);
    }
}

#[test]
fn lib_datetime_unix_round_trip() {
    let date = Date::from_ymd(2024, 5, 17).unwrap();
    let time = Time::from_hms_nano(12, 34, 56, 123_456_789).unwrap();
    let dt = DateTime::new(date, time);
    let secs = dt.unix_timestamp();
    let nanos = dt.time.nanosecond as i32;
    let rt = DateTime::from_unix_timestamp(secs, nanos).unwrap();
    assert_eq!(dt, rt);
}

#[test]
fn lib_duration_add_sub() {
    let date = Date::from_ymd(2020, 1, 1).unwrap();
    let time = Time::from_hms_nano(0, 0, 0, 0).unwrap();
    let dt = DateTime::new(date, time);
    let dur = Duration::seconds(86_400); // 1 day
    let dt2 = dt.add_duration(dur).unwrap();
    assert_eq!(dt2.date.format(), "2020-01-02");
    assert_eq!(dt2.time.format(), "00:00:00");

    let diff = dt2.difference(dt);
    assert_eq!(diff, dur);
}

#[test]
fn lib_parse_and_display_basic() {
    let d = Date::parse("2023-11-05").unwrap();
    assert_eq!(d.format(), "2023-11-05");

    let t = Time::parse("23:59:59.001").unwrap();
    assert_eq!(t.format(), "23:59:59.001");

    let dt = DateTime::parse("2023-11-05T23:59:59.001Z").unwrap();
    assert_eq!(dt.format(), "2023-11-05T23:59:59.001Z");
}

#[test]
fn lib_offset_datetime_rfc3339() {
    let s = "2023-11-05T23:59:59.5+02:00";
    let odt = OffsetDateTime::parse(s).unwrap();
    assert_eq!(odt.format(), s);

    let odt_z = OffsetDateTime::parse("2023-11-05T23:59:59Z").unwrap();
    assert_eq!(odt_z.format(), "2023-11-05T23:59:59Z");
}

#[test]
fn lib_date_weekday_and_ordinal() {
    let monday = Date::from_ymd(2023, 11, 6).unwrap();
    assert_eq!(monday.weekday(), Weekday::Monday);
    assert_eq!(monday.ordinal(), 310);

    let leap = Date::from_ymd(2020, 3, 1).unwrap();
    assert_eq!(leap.weekday(), Weekday::Sunday);
    assert_eq!(leap.ordinal(), 61);
}

#[test]
fn lib_time_fractional_and_nanos() {
    let t = Time::parse("12:34:56.123450700").unwrap();
    assert_eq!(t.nanosecond, 123_450_700);
    assert_eq!(t.format(), "12:34:56.1234507");
    assert_eq!(t.seconds_since_midnight(), 45_296);
    assert_eq!(t.nanos_since_midnight(), 45_296_123_450_700);
}

#[test]
fn lib_time_parse_rejects_invalid_fraction() {
    assert!(matches!(Time::parse("12:00:00."), Err(TimeError::InvalidTime)));
    assert!(matches!(Time::parse("12:00:00.1234567890"), Err(TimeError::InvalidTime)));
}

#[test]
fn lib_rfc3339_offset_variants() {
    let with_colon = parse_rfc3339_offset("+02:30").unwrap();
    assert_eq!(with_colon.as_seconds(), 2 * 3600 + 30 * 60);

    let compact = parse_rfc3339_offset("+0230").unwrap();
    assert_eq!(compact.as_seconds(), 2 * 3600 + 30 * 60);

    let hour_only = parse_rfc3339_offset("-07").unwrap();
    assert_eq!(hour_only.as_seconds(), -7 * 3600);

    assert!(parse_rfc3339_offset("invalid").is_err());
}

#[test]
fn lib_offset_datetime_local_conversion_and_duration() {
    let date = Date::from_ymd(2021, 1, 2).unwrap();
    let time = Time::from_hms_nano(3, 4, 5, 999_999_999).unwrap();
    let offset = UtcOffset::from_hours_minutes(false, 5, 45).unwrap(); // UTC-05:45

    let odt = OffsetDateTime::from_local(date, time, offset).unwrap();
    assert_eq!(odt.offset, offset);

    let local = odt.to_local().unwrap();
    assert_eq!(local.date, date);
    assert_eq!(local.time, time);

    let later = odt.add_duration(Duration::seconds(30)).unwrap();
    assert_eq!(later.difference(odt), Duration::seconds(30));
}

use chrono::{Local, NaiveDate, TimeZone};
use timetrack::calendar::{
    month_wall_bounds, get_first_day_of_month, get_last_day_of_month, get_month_boundaries,
    get_month_from_string, month_length, parse_month,
};
use timetrack::text::{format_duration, format_seconds, number_text, same_text};
use timetrack::time::{
    day_begin, day_end, is_same_day, str_to_datetime, strip_utc_marker, time_from_now,
    Duration, TimeError, Timestamp, MAX_SECS,
};

fn wall_of(y: i32, m: u32, d: u32, h: u32, min: u32, s: u32) -> i64 {
    NaiveDate::from_ymd_opt(y, m, d)
        .unwrap()
        .and_hms_opt(h, min, s)
        .unwrap()
        .and_utc()
        .timestamp()
}

fn wall(t: &Timestamp) -> i64 {
    t.secs + t.offset as i64
}

#[test]
fn test_get_last_day_of_month() {
    // Normal month
    let dt = Timestamp::from_ymd_hms(2024, 1, 1, 0, 0, 0).unwrap();
    let res = get_last_day_of_month(&dt).unwrap();
    assert!(res.date() == (2024, 1, 31));

    // Leap year
    let dt = Timestamp::from_ymd_hms(2024, 2, 1, 0, 0, 0).unwrap();
    let res = get_last_day_of_month(&dt).unwrap();
    assert!(res.date() == (2024, 2, 29));

    // December (year boundary)
    let dt = Timestamp::from_ymd_hms(2024, 12, 1, 0, 0, 0).unwrap();
    let res = get_last_day_of_month(&dt).unwrap();
    assert!(res.date() == (2024, 12, 31));

    // Non-leap February
    let dt = Timestamp::from_ymd_hms(2023, 2, 1, 0, 0, 0).unwrap();
    let res = get_last_day_of_month(&dt).unwrap();
    assert!(res.date() == (2023, 2, 28));
}

#[test]
fn month_boundaries_leap_february() {
    let (lo, hi) = get_month_boundaries("2024-02").unwrap();
    assert_eq!(wall(&lo), wall_of(2024, 2, 1, 0, 0, 0));
    assert_eq!(wall(&hi), wall_of(2024, 2, 29, 23, 59, 59));
    assert_eq!((lo.nanos, hi.nanos), (0, 999_999_999));
    assert_eq!(lo.date(), (2024, 2, 1));
    assert_eq!(hi.date(), (2024, 2, 29));
}

#[test]
fn month_boundaries_december_rolls_over() {
    let (lo, hi) = get_month_boundaries("2024-12").unwrap();
    assert_eq!(wall(&lo), wall_of(2024, 12, 1, 0, 0, 0));
    assert_eq!(wall(&hi), wall_of(2024, 12, 31, 23, 59, 59));
    assert_eq!(hi.date(), (2024, 12, 31));
}

#[test]
fn month_wall_bounds_are_exact() {
    assert_eq!(
        month_wall_bounds("2024-02"),
        Ok((wall_of(2024, 2, 1, 0, 0, 0), wall_of(2024, 2, 29, 23, 59, 59)))
    );
    assert_eq!(
        month_wall_bounds("2024-12"),
        Ok((wall_of(2024, 12, 1, 0, 0, 0), wall_of(2024, 12, 31, 23, 59, 59)))
    );
    assert_eq!(month_wall_bounds("2023-02").unwrap().1, wall_of(2023, 2, 28, 23, 59, 59));
    assert_eq!(month_wall_bounds("2024-13"), Err(TimeError::InvalidMonth));
}

#[test]
fn month_boundaries_reject_bad_tokens() {
    assert_eq!(get_month_boundaries("2024-13").unwrap_err(), TimeError::InvalidMonth);
    assert_eq!(get_month_boundaries("2024-00").unwrap_err(), TimeError::InvalidMonth);
    assert_eq!(get_month_boundaries("2024").unwrap_err(), TimeError::InvalidMonth);
    assert_eq!(get_month_boundaries("abcd-02").unwrap_err(), TimeError::InvalidMonth);
    assert_eq!(get_month_boundaries("2024-").unwrap_err(), TimeError::InvalidMonth);
    assert_eq!(get_month_boundaries("").unwrap_err(), TimeError::InvalidMonth);
}

#[test]
fn month_token_is_read() {
    assert_eq!(parse_month("2024-02"), Some((2024, 2)));
    assert_eq!(parse_month("1999-12"), Some((1999, 12)));
    assert_eq!(parse_month("2024-7"), Some((2024, 7)));
    assert_eq!(parse_month("2024-02-03"), None);
    assert_eq!(parse_month("999999-01"), None);
}

#[test]
fn month_start_from_string_and_date() {
    let t = get_month_from_string("2023-03").unwrap();
    assert_eq!(wall(&t), wall_of(2023, 3, 1, 0, 0, 0));
    let mid = Timestamp::from_ymd_hms(2023, 3, 17, 15, 4, 5).unwrap();
    let first = get_first_day_of_month(&mid).unwrap();
    assert_eq!(wall(&first), wall_of(2023, 3, 1, 0, 0, 0));
}

#[test]
fn month_lengths() {
    assert_eq!(month_wall_bounds("262142-12").unwrap().1, wall_of(262142, 12, 31, 23, 59, 59));
    assert_eq!(month_wall_bounds("0000-03").unwrap().0, wall_of(0, 3, 1, 0, 0, 0));
    assert_eq!(month_length(2024, 2), 29);
    assert_eq!(month_length(1900, 2), 28);
    assert_eq!(month_length(2000, 2), 29);
    assert_eq!(month_length(2023, 4), 30);
}

#[test]
fn durations_are_formatted() {
    assert_eq!(format_seconds(0), "0:00:00");
    assert_eq!(format_seconds(5400), "1:30:00");
    assert_eq!(format_seconds(3661), "1:01:01");
    assert_eq!(format_seconds(360000), "100:00:00");
    assert_eq!(format_seconds(-65), "0:-1:-5");
    assert_eq!(format_seconds(-3600), "-1:00:00");
    assert_eq!(number_text(1234567), "1234567");
    assert_eq!(format_duration(&Duration { secs: 5399, nanos: 999_999_999 }), "1:29:59");
    assert_eq!(format_duration(&Duration { secs: -66, nanos: 500_000_000 }), "0:-1:-5");
}

#[test]
fn stored_timestamps_are_read() {
    let t = str_to_datetime("2024-02-01 10:20:30.123456789+00:00").unwrap();
    assert_eq!(t.secs, wall_of(2024, 2, 1, 10, 20, 30));
    let expected_offset = Local.timestamp_opt(t.secs, 0).unwrap().offset().local_minus_utc();
    assert_eq!(t.offset, expected_offset);
    assert_eq!(t.nanos, 123_456_789);
    let plain = str_to_datetime("2024-02-01 10:20:30").unwrap();
    assert_eq!(plain.secs, t.secs);
    assert_eq!(plain.nanos, 0);
    let leap = str_to_datetime("2016-12-31 23:59:60.5").unwrap();
    assert_eq!((leap.secs, leap.nanos), (wall_of(2016, 12, 31, 23, 59, 59), 999_999_999));
    assert_eq!(str_to_datetime("yesterday").unwrap_err(), TimeError::InvalidTimestamp);
    assert_eq!(str_to_datetime("2024-02-01 10:20:30+01:00").unwrap_err(), TimeError::InvalidTimestamp);
}

#[test]
fn utc_marker_is_stripped_everywhere() {
    assert_eq!(strip_utc_marker("a+00:00b+00:00"), "ab");
    assert_eq!(strip_utc_marker("+00:0"), "+00:0");
    assert_eq!(strip_utc_marker(""), "");
    assert!(same_text("abc", "abc"));
    assert!(!same_text("abc", "abd"));
}

#[test]
fn same_day_and_day_bounds() {
    let a = Timestamp { secs: 86400 * 100 + 10, nanos: 0, offset: 0 };
    let b = Timestamp { secs: 86400 * 100 + 86399, nanos: 0, offset: 0 };
    let c = Timestamp { secs: 86400 * 101, nanos: 0, offset: 0 };
    assert!(is_same_day(&a, &b));
    assert!(!is_same_day(&b, &c));
    let shifted = Timestamp { secs: 86400 * 101 - 3600, nanos: 0, offset: 7200 };
    assert!(is_same_day(&shifted, &c));
    assert_eq!(a.local_day(), 100);
    let before_epoch = Timestamp { secs: -1, nanos: 0, offset: 0 };
    assert_eq!(before_epoch.local_day(), -1);
    assert_eq!(time_from_now(&a, &b).num_seconds(), 86389);
    let early = Timestamp { secs: 10, nanos: 900_000_000, offset: 0 };
    let late = Timestamp { secs: 11, nanos: 100_000_000, offset: 0 };
    let later = Timestamp { secs: 12, nanos: 900_000_000, offset: 0 };
    assert_eq!(time_from_now(&early, &late).num_seconds(), 0);
    assert_eq!(time_from_now(&late, &early).num_seconds(), 0);
    assert_eq!(time_from_now(&early, &later).num_seconds(), 2);
    assert_eq!(time_from_now(&later, &late).num_seconds(), -1);
    assert!(early.is_before(&late) && !late.is_before(&early) && !early.is_before(&early));

    let t = Timestamp::from_ymd_hms(2024, 5, 6, 13, 14, 15).unwrap();
    let begin = day_begin(&t).unwrap();
    let end = day_end(&t).unwrap();
    assert_eq!(wall(&begin), wall_of(2024, 5, 6, 0, 0, 0));
    assert_eq!(wall(&end), wall_of(2024, 5, 6, 23, 59, 59));
    assert_eq!((begin.nanos, end.nanos), (0, 999_999_999));
}

#[test]
fn day_end_past_the_calendar_is_unresolved() {
    let last = Timestamp { secs: MAX_SECS, nanos: 0, offset: 3600 };
    assert!(last.is_valid());
    assert_eq!(day_end(&last).unwrap_err(), TimeError::UnresolvedLocalTime);
    assert!(Timestamp::from_wall(MAX_SECS + 1).is_none());
    assert!(!Timestamp { secs: MAX_SECS + 1, nanos: 0, offset: 0 }.is_valid());
}

#[test]
fn timestamps_from_parts() {
    let t = Timestamp::from_ymd_hms(2024, 2, 29, 12, 0, 0).unwrap();
    let chrono_t = Local.with_ymd_and_hms(2024, 2, 29, 12, 0, 0).unwrap();
    assert_eq!(t.secs, chrono_t.timestamp());
    assert_eq!(t.offset, chrono_t.offset().local_minus_utc());
    assert!(Timestamp::from_ymd_hms(2023, 2, 29, 12, 0, 0).is_none());
    assert!(Timestamp::from_ymd_hms(2023, 1, 1, 24, 0, 0).is_none());
    let u = Timestamp::from_utc(1_700_000_000, 250);
    assert_eq!((u.secs, u.nanos), (1_700_000_000, 250));
    assert_eq!(u.offset, Local.timestamp_opt(1_700_000_000, 0).unwrap().offset().local_minus_utc());
    let now = Timestamp::now();
    assert!(now.is_valid());
    assert!((now.secs - Local::now().timestamp()).abs() < 60);
    let w = Timestamp::from_wall(wall_of(2022, 8, 9, 10, 11, 12)).unwrap();
    assert_eq!(w.date(), (2022, 8, 9));
}

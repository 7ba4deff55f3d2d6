use portspy::calendar::{fmt_duration, fmt_unix_time, is_leap, secs_to_ymd};

#[test]
fn epoch_is_first_of_january_1970() {
    assert_eq!(secs_to_ymd(0), (1970, 1, 1, 0, 0, 0));
}

#[test]
fn calendar_dates_of_known_seconds() {
    assert_eq!(secs_to_ymd(951868800), (2000, 3, 1, 0, 0, 0));
    assert_eq!(secs_to_ymd(1709210096), (2024, 2, 29, 12, 34, 56));
    assert_eq!(secs_to_ymd(4102444799), (2099, 12, 31, 23, 59, 59));
}

#[test]
fn leap_years() {
    assert!(is_leap(2000));
    assert!(is_leap(2024));
    assert!(!is_leap(1900));
    assert!(!is_leap(2023));
}

#[test]
fn durations_show_two_units() {
    assert_eq!(fmt_duration(0), "0s");
    assert_eq!(fmt_duration(59), "59s");
    assert_eq!(fmt_duration(61), "1m 1s");
    assert_eq!(fmt_duration(9000), "2h 30m");
    assert_eq!(fmt_duration(90061), "1d 1h");
}

#[test]
fn start_times_show_as_utc_dates() {
    assert_eq!(fmt_unix_time(1709210096, true), "2024-02-29 12:34:56");
    assert_eq!(fmt_unix_time(0, true), "1970-01-01 00:00:00");
    assert_eq!(fmt_unix_time(1709210096, false), "unknown");
}

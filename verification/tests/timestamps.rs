use duty_tracker::time::{parse_timestamp, Timestamp};

fn ts(year: u16, month: u8, day: u8, hour: u8, minute: u8) -> Timestamp {
    Timestamp { year, month, day, hour, minute }
}

#[test]
fn parses_padded_timestamp() {
    assert_eq!(parse_timestamp("05.01.2024 17:00"), Some(ts(2024, 1, 5, 17, 0)));
}

#[test]
fn parses_unpadded_timestamp() {
    assert_eq!(parse_timestamp("5.1.2024 7:03"), Some(ts(2024, 1, 5, 7, 3)));
}

#[test]
fn rejects_other_shapes() {
    assert_eq!(parse_timestamp("2024-01-05 17:00"), None);
    assert_eq!(parse_timestamp("05.01.2024"), None);
    assert_eq!(parse_timestamp("05.01.24 17:00"), None);
    assert_eq!(parse_timestamp("05.01.2024 17:00 "), None);
    assert_eq!(parse_timestamp("05.01.2024  17:00"), None);
    assert_eq!(parse_timestamp(""), None);
}

#[test]
fn rejects_invalid_calendar_values() {
    assert_eq!(parse_timestamp("32.01.2024 10:00"), None);
    assert_eq!(parse_timestamp("05.13.2024 10:00"), None);
    assert_eq!(parse_timestamp("00.01.2024 10:00"), None);
    assert_eq!(parse_timestamp("05.01.2024 24:00"), None);
    assert_eq!(parse_timestamp("05.01.2024 10:60"), None);
}

#[test]
fn leap_years_decide_february() {
    assert_eq!(parse_timestamp("29.02.2024 00:00"), Some(ts(2024, 2, 29, 0, 0)));
    assert_eq!(parse_timestamp("29.02.2023 00:00"), None);
    assert_eq!(parse_timestamp("29.02.2000 00:00"), Some(ts(2000, 2, 29, 0, 0)));
    assert_eq!(parse_timestamp("29.02.1900 00:00"), None);
}

#[test]
fn weekdays_of_known_dates() {
    // The first week of 2024: Monday the 1st through Sunday the 7th.
    assert_eq!(ts(2024, 1, 1, 0, 0).compute_weekday(), 1);
    assert_eq!(ts(2024, 1, 4, 0, 0).compute_weekday(), 4);
    assert_eq!(ts(2024, 1, 5, 0, 0).compute_weekday(), 5);
    assert_eq!(ts(2024, 1, 6, 0, 0).compute_weekday(), 6);
    assert_eq!(ts(2024, 1, 7, 0, 0).compute_weekday(), 7);
    assert_eq!(ts(2000, 3, 1, 0, 0).compute_weekday(), 3);
}

#[test]
fn weekend_window_boundaries() {
    // Friday evening opens the weekend at 18:00 sharp.
    assert!(!ts(2024, 1, 5, 17, 59).in_weekend());
    assert!(ts(2024, 1, 5, 18, 0).in_weekend());
    assert!(ts(2024, 1, 5, 23, 59).in_weekend());
    // All of Saturday and Sunday count.
    assert!(ts(2024, 1, 6, 0, 0).in_weekend());
    assert!(ts(2024, 1, 6, 12, 30).in_weekend());
    assert!(ts(2024, 1, 6, 23, 59).in_weekend());
    assert!(ts(2024, 1, 7, 0, 0).in_weekend());
    assert!(ts(2024, 1, 7, 17, 0).in_weekend());
    // Monday through Thursday never do, nor Friday before evening.
    assert!(!ts(2024, 1, 1, 18, 0).in_weekend());
    assert!(!ts(2024, 1, 2, 23, 59).in_weekend());
    assert!(!ts(2024, 1, 3, 12, 0).in_weekend());
    assert!(!ts(2024, 1, 4, 18, 0).in_weekend());
    assert!(!ts(2024, 1, 5, 0, 0).in_weekend());
}

#[test]
fn chronological_order_is_lexicographic() {
    assert!(ts(2023, 12, 31, 23, 59).before(&ts(2024, 1, 1, 0, 0)));
    assert!(ts(2024, 1, 5, 17, 0).before(&ts(2024, 1, 5, 17, 1)));
    assert!(!ts(2024, 1, 5, 17, 0).before(&ts(2024, 1, 5, 17, 0)));
    assert!(!ts(2024, 2, 1, 0, 0).before(&ts(2024, 1, 31, 23, 59)));
}

#[test]
fn validity_checks_calendar() {
    assert!(ts(2024, 1, 31, 23, 59).check_valid());
    assert!(!ts(2024, 4, 31, 0, 0).check_valid());
    assert!(!ts(2024, 0, 1, 0, 0).check_valid());
    assert!(!ts(0, 1, 1, 0, 0).check_valid());
    assert!(!ts(2024, 1, 1, 24, 0).check_valid());
}

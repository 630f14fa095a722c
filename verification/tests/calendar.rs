use commonplace::calendar::{civil_from_days, date_of_day, day_of_date, format_date, is_leap, today, today_day};

#[test]
fn today_is_valid_date() {
    let date = today();
    assert!(date.len() == 10, "date '{}' is not 10 chars", date);
    let parts: Vec<&str> = date.split('-').collect();
    assert_eq!(parts.len(), 3, "expected 3 parts in '{}'", date);
    let year: u32 = parts[0].parse().expect("year is numeric");
    let month: u32 = parts[1].parse().expect("month is numeric");
    let day: u32 = parts[2].parse().expect("day is numeric");
    assert!(year >= 2025, "year {} should be >= 2025", year);
    assert!((1..=12).contains(&month), "month {} out of range", month);
    assert!((1..=31).contains(&day), "day {} out of range", day);
}

#[test]
fn epoch_is_first_of_january_1970() {
    assert_eq!(civil_from_days(0), (1970, 1, 1));
    assert_eq!(date_of_day(0), "1970-01-01");
}

#[test]
fn known_dates() {
    assert_eq!(civil_from_days(31), (1970, 2, 1));
    assert_eq!(civil_from_days(59), (1970, 3, 1));
    assert_eq!(civil_from_days(365), (1971, 1, 1));
    assert_eq!(civil_from_days(789), (1972, 2, 29));
    assert_eq!(civil_from_days(10957), (2000, 1, 1));
    assert_eq!(civil_from_days(11016), (2000, 2, 29));
    assert_eq!(civil_from_days(20571), (2026, 4, 28));
}

#[test]
fn leap_years() {
    assert!(is_leap(2000));
    assert!(!is_leap(1900));
    assert!(is_leap(2024));
    assert!(!is_leap(2026));
}

#[test]
fn format_pads_fields() {
    assert_eq!(format_date(2026, 4, 8), "2026-04-08");
    assert_eq!(format_date(12345, 12, 31), "12345-12-31");
}

#[test]
fn day_of_date_reads_back() {
    for n in [0u64, 1, 59, 789, 10957, 11016, 20571, 2932896] {
        assert_eq!(day_of_date(&date_of_day(n)), Some(n), "day {}", n);
    }
}

#[test]
fn day_of_date_refuses_invalid() {
    assert_eq!(day_of_date("2026-02-29"), None);
    assert_eq!(day_of_date("1969-12-31"), None);
    assert_eq!(day_of_date("2026-13-01"), None);
    assert_eq!(day_of_date("2026-4-8"), None);
    assert_eq!(day_of_date("2026/04/08"), None);
    assert_eq!(day_of_date("2024-02-29"), Some(19782));
}

#[test]
fn today_day_matches_today() {
    let d = today_day();
    let t = today();
    let back = day_of_date(&t).unwrap();
    assert!(back == d || back + 1 == d, "{} vs {}", back, d);
}

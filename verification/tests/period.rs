use money_core::period::{validate_date, Period};

#[test]
fn parses_canonical_period() {
    let p = Period::parse("2026-07").unwrap();
    assert_eq!(p.as_str(), "2026-07");
}

#[test]
fn rejects_malformed_period() {
    assert!(Period::parse("2026-13").is_err());
    assert!(Period::parse("julio").is_err());
}

#[test]
fn from_date_derives_period() {
    let p = Period::from_date("2026-07-15").unwrap();
    assert_eq!(p.as_str(), "2026-07");
}

#[test]
fn half_open_range_crosses_year() {
    let p = Period::new(2026, 12).unwrap();
    assert_eq!(p.start(), "2026-12-01");
    assert_eq!(p.end_exclusive(), "2027-01-01");
}

#[test]
fn half_open_range_mid_year() {
    let p = Period::parse("2026-07").unwrap();
    assert_eq!(p.start(), "2026-07-01");
    assert_eq!(p.end_exclusive(), "2026-08-01");
}

#[test]
fn validate_date_ok_and_err() {
    assert!(validate_date("2026-07-04").is_ok());
    assert!(validate_date("2026-7-4").is_err());
    assert!(validate_date("garbage").is_err());
}

#[test]
fn period_new_rejects_month_zero_and_thirteen() {
    assert!(Period::new(2026, 0).is_err());
    assert!(Period::new(2026, 13).is_err());
    assert_eq!(Period::new(2026, 3).unwrap().as_str(), "2026-03");
}

#[test]
fn february_end_in_leap_and_common_years() {
    assert_eq!(Period::new(2024, 2).unwrap().end_exclusive(), "2024-03-01");
    assert!(validate_date("2024-02-29").is_ok());
    assert!(validate_date("2026-02-29").is_err());
}

#[test]
fn days_before_crosses_month_and_year() {
    assert_eq!(money_core::period::days_before(2026, 1, 1, 1).unwrap(), "2025-12-31");
    assert_eq!(money_core::period::days_before(2024, 3, 1, 1).unwrap(), "2024-02-29");
    assert_eq!(money_core::period::days_before(2026, 8, 10, -5).unwrap(), "2026-08-15");
    assert!(money_core::period::days_before(2026, 8, 10, i64::MAX).is_none());
}

#[test]
fn with_day_checks_month_length() {
    assert_eq!(money_core::period::with_day(2026, 4, 30).unwrap(), "2026-04-30");
    assert!(money_core::period::with_day(2026, 4, 31).is_none());
    assert!(money_core::period::with_day(2026, 4, 0).is_none());
}

#[test]
fn days_before_stops_at_the_calendar_range() {
    assert_eq!(money_core::period::days_before(-262143, 1, 2, 1).unwrap(), "-262143-01-01");
    assert!(money_core::period::days_before(-262143, 1, 1, 1).is_none());
    assert!(money_core::period::days_before(2026, 8, 10, 200_000_000).is_none());
    assert_eq!(money_core::period::days_before(2026, 8, 10, 3650).unwrap(), "2016-08-12");
}

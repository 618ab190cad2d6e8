use since_until::calendar::{add_months, days_from, Date, FIRST_YEAR, LAST_YEAR};
use since_until::span::can_measure;
use since_until::{join_components, span_between, Direction};

fn d(y: i32, m: u32, day: u32) -> Date {
    Date::from_ymd_opt(y, m, day).unwrap()
}

#[test]
fn past_reads_ago() {
    let s = span_between(d(2020, 3, 1), d(2026, 5, 31));
    assert_eq!(s.direction, Direction::Past);
    assert_eq!((s.years, s.months, s.days), (6, 2, 30));
    assert_eq!(s.humanized, "6 years, 2 months, 30 days ago");
}

#[test]
fn future_reads_in() {
    let s = span_between(d(2026, 12, 25), d(2026, 6, 1));
    assert_eq!(s.direction, Direction::Future);
    assert_eq!((s.years, s.months, s.days), (0, 6, 24));
    assert_eq!(s.humanized, "in 6 months, 24 days");
}

#[test]
fn same_day_is_today() {
    let s = span_between(d(2026, 5, 31), d(2026, 5, 31));
    assert_eq!(s.direction, Direction::Today);
    assert_eq!((s.years, s.months, s.days), (0, 0, 0));
    assert_eq!(s.humanized, "today");
}

#[test]
fn month_end_does_not_underflow() {
    // Jan 31 -> Mar 1 is "1 month, 1 day": Jan 31 + 1 month clamps to Feb 28.
    let s = span_between(d(2026, 1, 31), d(2026, 3, 1));
    assert_eq!(s.direction, Direction::Past);
    assert_eq!((s.years, s.months, s.days), (0, 1, 1));
}

#[test]
fn leap_month_end() {
    // 2024 is a leap year: Jan 31 + 1 month clamps to Feb 29, then 1 day to Mar 1.
    let s = span_between(d(2024, 1, 31), d(2024, 3, 1));
    assert_eq!((s.years, s.months, s.days), (0, 1, 1));
}

#[test]
fn singular_units() {
    let s = span_between(d(2025, 4, 30), d(2026, 5, 31));
    assert_eq!((s.years, s.months, s.days), (1, 1, 1));
    assert_eq!(s.humanized, "1 year, 1 month, 1 day ago");
}

#[test]
fn swapping_dates_mirrors_the_span() {
    let a = d(2019, 7, 14);
    let b = d(2026, 5, 31);
    let forward = span_between(a, b);
    let backward = span_between(b, a);
    assert_eq!((forward.years, forward.months, forward.days), (6, 10, 17));
    assert_eq!(
        (forward.years, forward.months, forward.days),
        (backward.years, backward.months, backward.days)
    );
    assert_eq!(forward.direction, Direction::Past);
    assert_eq!(backward.direction, Direction::Future);
    assert_eq!(backward.humanized, "in 6 years, 10 months, 17 days");
}

#[test]
fn whole_years_only() {
    let s = span_between(d(2016, 2, 29), d(2020, 2, 29));
    assert_eq!((s.years, s.months, s.days), (4, 0, 0));
    assert_eq!(s.humanized, "4 years ago");
}

#[test]
fn leap_day_to_next_year() {
    // Feb 29 + 12 months clamps to Feb 28, then one day to Mar 1.
    let s = span_between(d(2024, 2, 29), d(2025, 3, 1));
    assert_eq!((s.years, s.months, s.days), (1, 0, 1));
}

#[test]
fn day_only_gap() {
    let s = span_between(d(2026, 5, 30), d(2026, 5, 31));
    assert_eq!((s.years, s.months, s.days), (0, 0, 1));
    assert_eq!(s.humanized, "1 day ago");
}

#[test]
fn far_past_gap() {
    let s = span_between(d(-1, 12, 31), d(1, 1, 1));
    assert_eq!((s.years, s.months, s.days), (1, 0, 1));
}

#[test]
fn join_components_texts() {
    assert_eq!(join_components(0, 0, 0), "0 days");
    assert_eq!(join_components(1, 0, 0), "1 year");
    assert_eq!(join_components(0, 2, 0), "2 months");
    assert_eq!(join_components(3, 0, 1), "3 years, 1 day");
    assert_eq!(join_components(12, 11, 30), "12 years, 11 months, 30 days");
    assert_eq!(join_components(-1, 0, 0), "-1 years");
}

#[test]
fn direction_wire_forms() {
    assert_eq!(Direction::Past.as_str(), "past");
    assert_eq!(Direction::Future.as_str(), "future");
    assert_eq!(Direction::Today.as_str(), "today");
}

#[test]
fn dates_that_do_not_exist() {
    assert!(Date::from_ymd_opt(2015, 3, 14).is_some());
    assert!(Date::from_ymd_opt(2015, 0, 14).is_none());
    assert!(Date::from_ymd_opt(2015, 2, 29).is_none());
    assert!(Date::from_ymd_opt(-4, 2, 29).is_some());
    assert!(Date::from_ymd_opt(1900, 2, 29).is_none());
    assert!(Date::from_ymd_opt(2000, 2, 29).is_some());
    assert!(Date::from_ymd_opt(2023, 4, 31).is_none());
    assert!(Date::from_ymd_opt(LAST_YEAR, 12, 31).is_some());
    assert!(Date::from_ymd_opt(LAST_YEAR + 1, 1, 1).is_none());
    assert!(Date::from_ymd_opt(FIRST_YEAR, 1, 1).is_some());
    assert!(Date::from_ymd_opt(FIRST_YEAR - 1, 12, 31).is_none());
    let x = d(2015, 9, 5);
    assert_eq!((x.year(), x.month(), x.day()), (2015, 9, 5));
}

#[test]
fn iso_text_of_dates() {
    assert_eq!(d(2015, 9, 5).iso_string(), "2015-09-05");
    assert_eq!(d(0, 1, 1).iso_string(), "0000-01-01");
    assert_eq!(d(9999, 12, 31).iso_string(), "9999-12-31");
    assert_eq!(d(-1, 1, 1).iso_string(), "-0001-01-01");
    assert_eq!(d(10000, 12, 31).iso_string(), "+10000-12-31");
}

#[test]
fn iso_reading_of_texts() {
    assert_eq!(Date::parse_iso("2020-03-01"), Some(d(2020, 3, 1)));
    assert_eq!(Date::parse_iso("2015-02-29"), None);
    assert_eq!(Date::parse_iso("March 1st"), None);
    assert_eq!(Date::parse_iso("covid"), None);
}

#[test]
fn adding_months_clamps_the_day() {
    assert_eq!(add_months(d(2026, 1, 31), 1), d(2026, 2, 28));
    assert_eq!(add_months(d(2024, 1, 31), 1), d(2024, 2, 29));
    assert_eq!(add_months(d(2024, 1, 31), 0), d(2024, 1, 31));
    assert_eq!(add_months(d(2024, 1, 15), -1), d(2023, 12, 15));
    assert_eq!(add_months(d(2024, 3, 31), -13), d(2023, 2, 28));
    assert_eq!(add_months(d(0, 1, 1), -1), d(-1, 12, 1));
    assert_eq!(add_months(d(2024, 11, 30), 3), d(2025, 2, 28));
}

#[test]
fn days_between_dates() {
    assert_eq!(days_from(d(2013, 12, 31), d(2014, 1, 1)), 1);
    assert_eq!(days_from(d(2013, 9, 23), d(2014, 1, 1)), 100);
    assert_eq!(days_from(d(2010, 1, 1), d(2014, 1, 1)), 365 * 4 + 1);
    assert_eq!(days_from(d(2014, 1, 1), d(2014, 1, 1)), 0);
}

#[test]
fn dates_order_and_equality() {
    assert!(d(2020, 3, 1).is_before(&d(2020, 3, 2)));
    assert!(d(2019, 12, 31).is_before(&d(2020, 1, 1)));
    assert!(!d(2020, 3, 2).is_before(&d(2020, 3, 1)));
    assert!(!d(2020, 3, 1).is_before(&d(2020, 3, 1)));
    assert!(d(2020, 3, 1).same_day(&d(2020, 3, 1)));
}

#[test]
fn last_supported_month_cannot_be_measured() {
    let late = d(LAST_YEAR, 12, 5);
    let earlier = d(LAST_YEAR, 11, 5);
    assert!(!can_measure(&late, &earlier));
    assert!(can_measure(&late, &late));
    assert!(can_measure(&earlier, &d(2020, 1, 1)));
    let s = span_between(d(LAST_YEAR, 11, 30), d(LAST_YEAR, 1, 31));
    assert_eq!((s.years, s.months, s.days), (0, 10, 0));
    assert_eq!(s.direction, Direction::Future);
}

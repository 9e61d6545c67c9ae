use user_manager::date::days_in_month;
use user_manager::date::is_leap_year;
use user_manager::date::Date;

#[test]
fn valid_dates_are_accepted() {
    assert!(Date::new(1990, 1, 1).is_some());
    assert!(Date::new(2000, 2, 29).is_some());
    assert!(Date::new(2024, 2, 29).is_some());
    assert!(Date::new(1999, 12, 31).is_some());
    assert!(Date::new(-44, 3, 15).is_some());
}

#[test]
fn invalid_dates_are_rejected() {
    assert!(Date::new(1990, 0, 1).is_none());
    assert!(Date::new(1990, 13, 1).is_none());
    assert!(Date::new(1990, 1, 0).is_none());
    assert!(Date::new(1990, 1, 32).is_none());
    assert!(Date::new(1900, 2, 29).is_none());
    assert!(Date::new(2023, 2, 29).is_none());
    assert!(Date::new(2024, 4, 31).is_none());
}

#[test]
fn leap_years_follow_the_gregorian_rule() {
    assert!(is_leap_year(2000));
    assert!(is_leap_year(2024));
    assert!(!is_leap_year(1900));
    assert!(!is_leap_year(2023));
    assert!(is_leap_year(-44));
}

#[test]
fn month_lengths_are_exact() {
    assert_eq!(days_in_month(2023, 1), 31);
    assert_eq!(days_in_month(2023, 2), 28);
    assert_eq!(days_in_month(2024, 2), 29);
    assert_eq!(days_in_month(2023, 4), 30);
    assert_eq!(days_in_month(2023, 12), 31);
}

use donda::date::{days_in_month_exec, Date};

fn d(year: u32, month: u32, day: u32) -> Date {
    Date { year, month, day }
}

#[test]
fn known_monday() {
    // 2024-11-04 was a Monday.
    assert_eq!(d(2024, 11, 4).weekday(), 0);
    // 2024-11-05 was a Tuesday, 2024-11-10 a Sunday.
    assert_eq!(d(2024, 11, 5).weekday(), 1);
    assert_eq!(d(2024, 11, 10).weekday(), 6);
}

#[test]
fn leap_years() {
    assert_eq!(days_in_month_exec(2024, 2), 29);
    assert_eq!(days_in_month_exec(2023, 2), 28);
    assert_eq!(days_in_month_exec(2000, 2), 29);
    assert_eq!(days_in_month_exec(1900, 2), 28);
    assert!(d(2024, 2, 29).check_valid());
    assert!(!d(2023, 2, 29).check_valid());
    assert!(!d(2024, 13, 1).check_valid());
    assert!(!d(2024, 4, 31).check_valid());
    assert!(!d(0, 1, 1).check_valid());
}

#[test]
fn day_arithmetic() {
    assert_eq!(d(2024, 2, 28).next_day(), d(2024, 2, 29));
    assert_eq!(d(2024, 2, 29).next_day(), d(2024, 3, 1));
    assert_eq!(d(2024, 12, 31).next_day(), d(2025, 1, 1));
    assert_eq!(d(2025, 1, 1).prev_day(), d(2024, 12, 31));
    assert_eq!(d(2024, 11, 1).add_days(6), d(2024, 11, 7));
    assert_eq!(d(2024, 11, 30).add_days(180), d(2025, 5, 29));
}

#[test]
fn day_index_round_trip() {
    let a = d(2024, 11, 4).to_day_index();
    let b = d(2024, 11, 11).to_day_index();
    assert_eq!(b - a, 7);
    // The era base: day 0 is 0001-01-01.
    assert_eq!(d(1, 1, 1).to_day_index(), 0);
    assert_eq!(d(1, 1, 1).weekday(), 0);
}

#[test]
fn monday_of_week_snaps_back() {
    assert_eq!(d(2024, 11, 7).monday_of_week(), d(2024, 11, 4));
    assert_eq!(d(2024, 11, 4).monday_of_week(), d(2024, 11, 4));
    assert_eq!(d(2024, 11, 10).monday_of_week(), d(2024, 11, 4));
    // A week that spans a month boundary.
    assert_eq!(d(2024, 11, 1).monday_of_week(), d(2024, 10, 28));
}

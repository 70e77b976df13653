use calendar_bot::agenda::{day_window, month_window, week_window};
use calendar_bot::dates::{
    first_of_next_month, month_day, reaches, Clock, Date, DateTime, TimeOfDay, Weekday, MAX_YEAR,
    MIN_YEAR,
};

fn date(year: i32, month: u32, day: u32) -> Date {
    Date { year, month, day }
}

#[test]
fn a_missing_day_is_the_last_of_its_month() {
    assert_eq!(month_day(2024, 4, 31), date(2024, 4, 30));
    assert_eq!(month_day(2024, 2, 31), date(2024, 2, 29));
    assert_eq!(month_day(2023, 2, 29), date(2023, 2, 28));
    assert_eq!(month_day(2024, 12, 40), date(2024, 12, 31));
    assert_eq!(month_day(2024, 5, 17), date(2024, 5, 17));
    assert_eq!(month_day(2024, 0, 3), date(2023, 12, 31));
}

#[test]
fn leap_years_follow_the_gregorian_rule() {
    assert_eq!(month_day(1900, 2, 31), date(1900, 2, 28));
    assert_eq!(month_day(2000, 2, 31), date(2000, 2, 29));
    assert_eq!(month_day(-4, 2, 31), date(-4, 2, 29));
}

#[test]
fn the_month_behind() {
    assert_eq!(first_of_next_month(2024, 12), date(2025, 1, 1));
    assert_eq!(first_of_next_month(2024, 1), date(2024, 2, 1));
}

#[test]
fn windows() {
    assert_eq!(day_window(date(2024, 2, 29)), (date(2024, 2, 29), date(2024, 3, 1)));
    assert_eq!(week_window(date(2024, 12, 28)), (date(2024, 12, 28), date(2025, 1, 4)));
    assert_eq!(month_window(date(2024, 12, 15)), (date(2024, 12, 1), date(2025, 1, 1)));
    assert_eq!(month_window(date(2024, 2, 1)), (date(2024, 2, 1), date(2024, 3, 1)));
}

#[test]
fn validity() {
    assert!(date(2024, 2, 29).is_valid());
    assert!(!date(2023, 2, 29).is_valid());
    assert!(!date(2024, 13, 1).is_valid());
    assert!(!date(2024, 0, 1).is_valid());
    assert!(!date(2024, 1, 0).is_valid());
    assert!(date(MIN_YEAR, 1, 1).is_valid());
    assert!(date(MAX_YEAR, 12, 31).is_valid());
    assert!(!date(MIN_YEAR - 1, 12, 31).is_valid());
    assert!(!date(MAX_YEAR + 1, 1, 1).is_valid());
    assert!(TimeOfDay::new(23, 59).is_valid());
    assert!(!TimeOfDay::new(24, 0).is_valid());
    assert!(!TimeOfDay::new(0, 60).is_valid());
    let at = DateTime { date: date(2024, 1, 1), hour: 0, minute: 0, second: 0 };
    assert!(Clock { at, nanos: 999_999_999 }.is_valid());
    assert!(!Clock { at, nanos: 1_000_000_000 }.is_valid());
    assert!(!Clock { at: DateTime { second: 60, ..at }, nanos: 0 }.is_valid());
}

#[test]
fn the_calendar_ends() {
    let last = date(MAX_YEAR, 12, 31);
    assert!(reaches(last, 0));
    assert!(!reaches(last, 1));
    assert!(reaches(date(MAX_YEAR, 12, 25), 6));
    assert!(!reaches(date(MAX_YEAR, 12, 25), 7));
    assert!(reaches(date(2024, 1, 1), 1_000_000));
}

#[test]
fn order_of_days() {
    assert!(date(2023, 12, 31).is_before(date(2024, 1, 1)));
    assert!(date(2024, 1, 31).is_before(date(2024, 2, 1)));
    assert!(date(2024, 2, 1).is_before(date(2024, 2, 2)));
    assert!(!date(2024, 2, 2).is_before(date(2024, 2, 2)));
    assert!(!date(2024, 2, 2).is_before(date(2024, 1, 30)));
}

#[test]
fn weekdays_are_counted_from_monday() {
    assert_eq!(Weekday::Mon.num_days_from_monday(), 0);
    assert_eq!(Weekday::Thu.num_days_from_monday(), 3);
    assert_eq!(Weekday::Sun.num_days_from_monday(), 6);
}

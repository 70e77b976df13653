use calendar_bot::config::{
    CalendarConfig, DailySummaryConfig, MonthlySummaryConfig, Schedule, WeeklySummaryConfig,
};
use calendar_bot::dates::{Clock, Date, DateTime, TimeOfDay, Weekday, MAX_YEAR};
use calendar_bot::scheduler::{
    at_time, daily_step, days_until_weekly, is_due_this_month, monthly_step, next_daily,
    next_monthly, next_weekly, seconds_until, settle, weekly_step, weekly_step_on, LoopAction,
    LoopEvent,
};

fn date(year: i32, month: u32, day: u32) -> Date {
    Date { year, month, day }
}

fn clock(date: Date, hour: u32, minute: u32, second: u32) -> Clock {
    Clock { at: DateTime { date, hour, minute, second }, nanos: 0 }
}

fn schedule() -> Schedule {
    Schedule::from_config(&CalendarConfig {
        sources: Vec::new(),
        daily: DailySummaryConfig::default(),
        weekly: WeeklySummaryConfig { enabled: true, ..WeeklySummaryConfig::default() },
        monthly: MonthlySummaryConfig { enabled: true, ..MonthlySummaryConfig::default() },
    })
}

fn seven() -> TimeOfDay {
    TimeOfDay::new(7, 0)
}

#[test]
fn the_next_day_or_today() {
    let day = date(2024, 2, 28);
    assert_eq!(next_daily(clock(day, 6, 59, 59), seven()), at_time(day, seven()));
    assert_eq!(next_daily(clock(day, 7, 0, 0), seven()), at_time(date(2024, 2, 29), seven()));
    assert_eq!(next_daily(clock(day, 23, 0, 0), seven()), at_time(date(2024, 2, 29), seven()));
}

#[test]
fn the_next_weekday() {
    // 15 March 2024 is a Friday.
    let friday = date(2024, 3, 15);
    let early = clock(friday, 6, 0, 0);
    let late = clock(friday, 8, 0, 0);
    assert_eq!(next_weekly(early, Weekday::Fri, seven()), at_time(friday, seven()));
    assert_eq!(next_weekly(late, Weekday::Fri, seven()), at_time(date(2024, 3, 22), seven()));
    assert_eq!(next_weekly(late, Weekday::Sat, seven()), at_time(date(2024, 3, 16), seven()));
    assert_eq!(next_weekly(early, Weekday::Mon, seven()), at_time(date(2024, 3, 18), seven()));
    assert_eq!(next_weekly(late, Weekday::Thu, seven()), at_time(date(2024, 3, 21), seven()));
    assert_eq!(days_until_weekly(late, Weekday::Fri, seven()), 7);
    assert_eq!(days_until_weekly(early, Weekday::Fri, seven()), 0);
    assert_eq!(days_until_weekly(early, Weekday::Thu, seven()), 6);
}

#[test]
fn the_next_day_of_the_month() {
    assert_eq!(
        next_monthly(clock(date(2024, 4, 10), 8, 0, 0), 31, seven()),
        at_time(date(2024, 4, 30), seven())
    );
    assert_eq!(
        next_monthly(clock(date(2024, 4, 30), 6, 0, 0), 31, seven()),
        at_time(date(2024, 4, 30), seven())
    );
    assert_eq!(
        next_monthly(clock(date(2024, 4, 30), 7, 0, 0), 31, seven()),
        at_time(date(2024, 5, 31), seven())
    );
    assert_eq!(
        next_monthly(clock(date(2024, 12, 1), 7, 0, 0), 1, seven()),
        at_time(date(2025, 1, 1), seven())
    );
    assert_eq!(
        next_monthly(clock(date(2024, 1, 31), 9, 0, 0), 30, seven()),
        at_time(date(2024, 2, 29), seven())
    );
    // A day that no month has is the nearest one.
    assert_eq!(
        next_monthly(clock(date(2024, 1, 2), 9, 0, 0), 0, seven()),
        at_time(date(2024, 2, 1), seven())
    );
    assert_eq!(
        next_monthly(clock(date(2024, 1, 2), 9, 0, 0), 99, seven()),
        at_time(date(2024, 1, 31), seven())
    );
    assert!(is_due_this_month(clock(date(2024, 1, 2), 9, 0, 0), 3, seven()));
    assert!(!is_due_this_month(clock(date(2024, 1, 2), 9, 0, 0), 2, seven()));
}

#[test]
fn seconds_to_sleep() {
    let day = date(2024, 3, 15);
    let target = at_time(day, seven());
    assert_eq!(seconds_until(target, clock(day, 6, 0, 0)), 3600);
    assert_eq!(seconds_until(target, clock(date(2024, 3, 14), 7, 0, 0)), 86400);
    assert_eq!(seconds_until(target, clock(day, 7, 0, 0)), 0);
    assert_eq!(seconds_until(target, clock(day, 8, 0, 0)), 0);
    // A second that has begun does not count.
    let begun = Clock { nanos: 1, ..clock(day, 6, 59, 58) };
    assert_eq!(seconds_until(target, begun), 1);
    let nearly = Clock { nanos: 999_999_999, ..clock(day, 6, 59, 59) };
    assert_eq!(seconds_until(target, nearly), 0);
}

#[test]
fn the_sleep_ends_less_than_a_second_before_the_time() {
    let day = date(2024, 3, 15);
    let target = at_time(day, seven());
    for nanos in [0u32, 1, 500_000_000, 999_999_999] {
        for second in 0..60 {
            let now = Clock { nanos, ..clock(day, 6, 59, second) };
            let left = (60 - second as u64) * 1_000_000_000 - nanos as u64;
            let slept = seconds_until(target, now) * 1_000_000_000;
            assert!(slept <= left && left < slept + 1_000_000_000);
        }
    }
}

#[test]
fn every_plan_is_the_next_time_ahead() {
    // Over two months, hour by hour: the plan is ahead, and no earlier day would do.
    for (month, days) in [(2, 29), (3, 31)] {
        for d in 1..=days {
            for hour in [0, 6, 7, 8, 23] {
                let now = clock(date(2024, month, d), hour, 0, 0);
                let daily = next_daily(now, seven());
                let secs = seconds_until(daily, now);
                assert!(0 < secs && secs <= 86400);
                let weekly = next_weekly(now, Weekday::Sun, seven());
                let secs = seconds_until(weekly, now);
                assert!(0 < secs && secs <= 7 * 86400);
                let monthly = next_monthly(now, 30, seven());
                let secs = seconds_until(monthly, now);
                assert!(0 < secs && secs <= 31 * 86400);
                assert!(monthly.date.day == 30 || (monthly.date.month == 2 && monthly.date.day == 29));
            }
        }
    }
}

#[test]
fn test_mode_posts_once() {
    let now = clock(date(2024, 3, 15), 9, 0, 0);
    let s = schedule();
    assert!(matches!(
        daily_step(true, LoopEvent::Started, &s, now),
        Some(LoopAction::Post { post_if_empty: false })
    ));
    assert!(matches!(weekly_step(true, LoopEvent::Started, &s, now), Some(LoopAction::Post { .. })));
    assert!(matches!(monthly_step(true, LoopEvent::Started, &s, now), Some(LoopAction::Post { .. })));
    assert!(matches!(daily_step(true, LoopEvent::Posted, &s, now), Some(LoopAction::Stop)));
    assert!(matches!(weekly_step(true, LoopEvent::Posted, &s, now), Some(LoopAction::Stop)));
    assert!(matches!(monthly_step(true, LoopEvent::Posted, &s, now), Some(LoopAction::Stop)));
    let mut off = schedule();
    off.daily_enabled = false;
    assert!(matches!(daily_step(true, LoopEvent::Started, &off, now), Some(LoopAction::Stop)));
}

#[test]
fn schedulers_sleep_and_post() {
    let now = clock(date(2024, 3, 15), 9, 0, 0);
    let s = schedule();
    match daily_step(false, LoopEvent::Started, &s, now) {
        Some(LoopAction::Sleep { secs, target, post_if_empty }) => {
            assert_eq!(secs, 22 * 3600);
            assert_eq!(target, at_time(date(2024, 3, 16), seven()));
            assert!(!post_if_empty);
        }
        other => panic!("{other:?}"),
    }
    match weekly_step(false, LoopEvent::Posted, &s, now) {
        Some(LoopAction::Sleep { target, .. }) => {
            assert_eq!(target, at_time(date(2024, 3, 18), seven()))
        }
        other => panic!("{other:?}"),
    }
    match monthly_step(false, LoopEvent::Changed, &s, now) {
        Some(LoopAction::Sleep { target, .. }) => {
            assert_eq!(target, at_time(date(2024, 4, 1), seven()))
        }
        other => panic!("{other:?}"),
    }
    assert!(matches!(
        daily_step(false, LoopEvent::Elapsed { post_if_empty: true }, &s, now),
        Some(LoopAction::Post { post_if_empty: true })
    ));
    assert!(matches!(settle(false, LoopEvent::Closed, true, true), Some(LoopAction::Stop)));
    assert!(settle(false, LoopEvent::Started, true, true).is_none());
}

#[test]
fn the_day_of_the_week_is_the_configured_one() {
    let now = clock(date(2024, 3, 15), 9, 0, 0);
    let mut s = schedule();
    s.weekly_day = "WEDNESDAY".to_owned();
    match weekly_step(false, LoopEvent::Started, &s, now) {
        Some(LoopAction::Sleep { target, .. }) => assert_eq!(target.date, date(2024, 3, 20)),
        other => panic!("{other:?}"),
    }
    match weekly_step_on(false, LoopEvent::Started, &s, Weekday::Sat, now) {
        Some(LoopAction::Sleep { target, .. }) => assert_eq!(target.date, date(2024, 3, 16)),
        other => panic!("{other:?}"),
    }
}

#[test]
fn a_disabled_summary_waits_for_a_change() {
    let now = clock(date(2024, 3, 15), 9, 0, 0);
    let mut s = schedule();
    s.daily_enabled = false;
    s.weekly_enabled = false;
    s.monthly_enabled = false;
    assert!(matches!(daily_step(false, LoopEvent::Started, &s, now), Some(LoopAction::AwaitChange)));
    assert!(matches!(weekly_step(false, LoopEvent::Changed, &s, now), Some(LoopAction::AwaitChange)));
    assert!(matches!(monthly_step(false, LoopEvent::Posted, &s, now), Some(LoopAction::AwaitChange)));
    assert!(matches!(monthly_step(false, LoopEvent::Closed, &s, now), Some(LoopAction::Stop)));
}

#[test]
fn plans_stay_within_the_calendar() {
    let s = schedule();
    let last = clock(date(MAX_YEAR, 12, 31), 9, 0, 0);
    assert!(daily_step(false, LoopEvent::Started, &s, last).is_none());
    assert!(weekly_step_on(false, LoopEvent::Started, &s, Weekday::Mon, last).is_none());
    assert!(monthly_step(false, LoopEvent::Started, &s, last).is_none());
    let early = clock(date(MAX_YEAR, 12, 31), 6, 0, 0);
    assert!(daily_step(false, LoopEvent::Started, &s, early).is_some());
    let mut wrong = schedule();
    wrong.daily_time = TimeOfDay::new(24, 0);
    assert!(daily_step(false, LoopEvent::Started, &wrong, clock(date(2024, 1, 1), 0, 0, 0)).is_none());
}

use calendar_bot::config::{
    default_monthly_day, default_reminder_time, default_true, default_weekly_day, parse_weekday,
    weekday_from_name, CalendarConfig, CalendarSource, DailySummaryConfig, MonthlySummaryConfig,
    Schedule, SourceKind, WeeklySummaryConfig,
};
use calendar_bot::dates::{TimeOfDay, Weekday};

fn source() -> CalendarSource {
    CalendarSource {
        ics_url: None,
        caldav_url: None,
        caldav_account_url: None,
        username: None,
        password: None,
        exclude: Vec::new(),
    }
}

#[test]
fn names_of_weekdays() {
    let days = [
        ("monday", "mon", Weekday::Mon),
        ("tuesday", "tue", Weekday::Tue),
        ("wednesday", "wed", Weekday::Wed),
        ("thursday", "thu", Weekday::Thu),
        ("friday", "fri", Weekday::Fri),
        ("saturday", "sat", Weekday::Sat),
        ("sunday", "sun", Weekday::Sun),
    ];
    for (name, short, day) in days {
        assert_eq!(parse_weekday(name), day);
        assert_eq!(parse_weekday(short), day);
        assert_eq!(parse_weekday(&name.to_uppercase()), day);
        assert_eq!(weekday_from_name(name), day);
    }
    assert_eq!(parse_weekday("FriDay"), Weekday::Fri);
    assert_eq!(weekday_from_name("FriDay"), Weekday::Mon);
}

#[test]
fn other_names_mean_monday() {
    for s in ["", "someday", " tuesday", "tues", "ſunday"] {
        assert_eq!(parse_weekday(s), Weekday::Mon, "{s:?}");
    }
}

#[test]
fn defaults() {
    assert!(default_true());
    assert_eq!(default_weekly_day(), "monday");
    assert_eq!(default_monthly_day(), 1);
    assert_eq!(default_reminder_time(), TimeOfDay::new(7, 0));
    let daily = DailySummaryConfig::default();
    assert!(daily.enabled && !daily.post_if_empty);
    assert_eq!(daily.time, TimeOfDay::new(7, 0));
    let weekly = WeeklySummaryConfig::default();
    assert!(!weekly.enabled && !weekly.post_if_empty);
    assert_eq!(weekly.day, "monday");
    assert_eq!(weekly.time, TimeOfDay::new(7, 0));
    let monthly = MonthlySummaryConfig::default();
    assert!(!monthly.enabled && !monthly.post_if_empty);
    assert_eq!(monthly.day, 1);
    assert_eq!(monthly.time, TimeOfDay::new(7, 0));
}

#[test]
fn a_schedule_from_the_configuration() {
    let config = CalendarConfig {
        sources: vec![source()],
        daily: DailySummaryConfig { enabled: false, time: TimeOfDay::new(6, 30), post_if_empty: true },
        weekly: WeeklySummaryConfig {
            enabled: true,
            day: "sun".to_owned(),
            time: TimeOfDay::new(18, 0),
            post_if_empty: false,
        },
        monthly: MonthlySummaryConfig {
            enabled: true,
            day: 31,
            time: TimeOfDay::new(8, 15),
            post_if_empty: true,
        },
    };
    let s = Schedule::from_config(&config);
    assert!(!s.daily_enabled && s.daily_post_if_empty);
    assert_eq!(s.daily_time, TimeOfDay::new(6, 30));
    assert!(s.weekly_enabled && !s.weekly_post_if_empty);
    assert_eq!(s.weekly_day, "sun");
    assert_eq!(s.weekly_time, TimeOfDay::new(18, 0));
    assert!(s.monthly_enabled && s.monthly_post_if_empty);
    assert_eq!(s.monthly_day, 31);
    assert_eq!(s.monthly_time, TimeOfDay::new(8, 15));
}

#[test]
fn kinds_of_sources() {
    let mut s = source();
    assert_eq!(s.kind(), SourceKind::File);
    s.ics_url = Some("https://example.org/a.ics".to_owned());
    assert_eq!(s.kind(), SourceKind::File);
    s.caldav_url = Some("https://example.org/dav/a/".to_owned());
    assert_eq!(s.kind(), SourceKind::Collection);
    s.caldav_account_url = Some("https://example.org/dav/".to_owned());
    assert_eq!(s.kind(), SourceKind::Account);
}

#[test]
fn credentials_need_both_parts() {
    let mut s = source();
    assert_eq!(s.credentials(), None);
    s.username = Some("ann".to_owned());
    assert_eq!(s.credentials(), None);
    s.password = Some("word".to_owned());
    assert_eq!(s.credentials(), Some(("ann", "word")));
    s.username = None;
    assert_eq!(s.credentials(), None);
}

#[test]
fn a_collection_of_an_account() {
    let mut s = source();
    s.caldav_account_url = Some("https://example.org/dav/".to_owned());
    s.ics_url = Some("x".to_owned());
    s.username = Some("ann".to_owned());
    s.password = Some("word".to_owned());
    s.exclude = vec!["contacts".to_owned()];
    let c = s.collection("https://example.org/dav/work/");
    assert_eq!(c.kind(), SourceKind::Collection);
    assert_eq!(c.caldav_url.as_deref(), Some("https://example.org/dav/work/"));
    assert!(c.ics_url.is_none() && c.caldav_account_url.is_none() && c.exclude.is_empty());
    assert_eq!(c.credentials(), Some(("ann", "word")));
}

use calendar_bot::agenda::{
    event_entry, event_on_day, event_takes_place, events_for_today, events_for_today_checked,
    month_events, parse_dtstart_date, parse_dtstart_date_checked, parse_dtstart_datetime,
    parse_dtstart_datetime_checked, sort_by_time, todays_events, week_events, DayEvent, EventTime,
};
use calendar_bot::dates::{Date, DateTime};
use calendar_bot::ics::{parse_ics, IcsEvent};

fn date(year: i32, month: u32, day: u32) -> Date {
    Date { year, month, day }
}

fn time(date: Date, hour: u32, minute: u32, second: u32) -> DateTime {
    DateTime { date, hour, minute, second }
}

fn event(summary: &str, dtstart: &str) -> IcsEvent {
    IcsEvent {
        summary: summary.to_owned(),
        dtstart: dtstart.to_owned(),
        dtstart_is_date: dtstart.len() == 8,
        ..IcsEvent::default()
    }
}

fn names(list: &[DayEvent]) -> Vec<&str> {
    list.iter().map(|e| e.summary.as_str()).collect()
}

#[test]
fn days_of_starts() {
    assert_eq!(parse_dtstart_date("20240315"), Some(date(2024, 3, 15)));
    assert_eq!(parse_dtstart_date("20240315T091500Z"), Some(date(2024, 3, 15)));
    assert_eq!(parse_dtstart_date("20240230"), None);
    assert_eq!(parse_dtstart_date("20241301"), None);
    assert_eq!(parse_dtstart_date("hello"), None);
    assert_eq!(parse_dtstart_date(""), None);
    assert_eq!(parse_dtstart_date("00010101"), Some(date(1, 1, 1)));
    assert_eq!(parse_dtstart_date("00000229"), Some(date(0, 2, 29)));
    assert_eq!(parse_dtstart_date_checked("1234567é"), None);
}

#[test]
fn times_of_starts() {
    let day = date(2024, 3, 15);
    assert_eq!(parse_dtstart_datetime("20240315T091530"), Some(time(day, 9, 15, 30)));
    assert_eq!(parse_dtstart_datetime("20240315T091530Z"), Some(time(day, 9, 15, 30)));
    assert_eq!(parse_dtstart_datetime("20240315T091530.5"), Some(time(day, 9, 15, 30)));
    assert_eq!(parse_dtstart_datetime("20240315T235960"), Some(time(day, 23, 59, 59)));
    assert_eq!(parse_dtstart_datetime("20240315T240000"), None);
    assert_eq!(parse_dtstart_datetime("20240315T096000"), None);
    assert_eq!(parse_dtstart_datetime("20240315T091561"), None);
    assert_eq!(parse_dtstart_datetime("20240315T0915"), None);
    assert_eq!(parse_dtstart_datetime("20240315"), None);
    assert_eq!(parse_dtstart_datetime("20240315 091530"), None);
    assert_eq!(parse_dtstart_datetime_checked("20240315T09153é"), None);
}

#[test]
fn a_single_event_is_on_its_day_only() {
    let events = vec![event("x", "20240315T091500")];
    assert_eq!(names(&events_for_today(&events, date(2024, 3, 15))), vec!["x"]);
    assert!(events_for_today(&events, date(2024, 3, 14)).is_empty());
    assert!(events_for_today(&events, date(2024, 3, 16)).is_empty());
}

#[test]
fn events_are_listed_by_time_and_all_day_events_last() {
    let events = vec![
        event("all day", "20240315"),
        event("late", "20240315T180000"),
        event("early", "20240315T080000"),
        event("also late", "20240315T180000"),
        event("also all day", "20240315"),
    ];
    let list = events_for_today(&events, date(2024, 3, 15));
    assert_eq!(names(&list), vec!["early", "late", "also late", "all day", "also all day"]);
    assert_eq!(names(&sort_by_time(list)), vec!["early", "late", "also late", "all day", "also all day"]);
}

#[test]
fn places_in_the_list() {
    let day = date(1970, 1, 1);
    let key = |time| DayEvent { time, summary: String::new(), location: None }.sort_key();
    assert_eq!(key(EventTime::At(time(day, 0, 0, 0))), 0);
    assert_eq!(key(EventTime::At(time(date(1970, 1, 2), 1, 2, 3))), 86400 + 3723);
    assert_eq!(key(EventTime::At(time(date(2024, 3, 15), 9, 15, 0))), 1710494100);
    assert_eq!(key(EventTime::At(time(date(1969, 12, 31), 23, 59, 59))), -1);
    assert_eq!(key(EventTime::AllDay), i64::MAX);
}

#[test]
fn a_time_that_cannot_be_read_makes_an_event_last_all_day() {
    let mut e = event("x", "20240315T09");
    e.location = Some("here".to_owned());
    let list = events_for_today(&[e], date(2024, 3, 15));
    assert!(matches!(list[0].time, EventTime::AllDay));
    assert_eq!(list[0].location.as_deref(), Some("here"));
}

#[test]
fn a_day_wins_over_the_time() {
    let mut e = event("x", "20240315T091500");
    e.dtstart_is_date = true;
    assert!(matches!(events_for_today(&[e], date(2024, 3, 15))[0].time, EventTime::AllDay));
}

#[test]
fn excluded_days_are_free() {
    let mut e = event("x", "20240301T091500");
    e.rrule = Some("FREQ=DAILY".to_owned());
    e.exdates = vec!["20240315".to_owned()];
    assert_eq!(event_takes_place(&e, date(2024, 3, 1), date(2024, 3, 15)), Some(false));
    assert_eq!(event_takes_place(&e, date(2024, 3, 1), date(2024, 3, 16)), Some(true));
    assert!(events_for_today(&[e], date(2024, 3, 15)).is_empty());
    // An event that does not recur is not excluded.
    let mut once = event("once", "20240315T091500");
    once.exdates = vec!["20240315".to_owned()];
    assert_eq!(events_for_today(&[once], date(2024, 3, 15)).len(), 1);
}

#[test]
fn events_whose_start_is_no_day_are_passed_over() {
    let events = vec![event("x", "tomorrow"), event("y", "20240315")];
    assert_eq!(names(&events_for_today(&events, date(2024, 3, 15))), vec!["y"]);
    assert_eq!(event_entry(&events[0], date(2024, 3, 15)).map(|e| e.is_none()), Some(true));
}

#[test]
fn unreadable_events_give_no_list() {
    let events = vec![event("x", "1234567é")];
    assert!(events_for_today_checked(&events, date(2024, 3, 15)).is_none());
    assert!(todays_events(&events, date(2024, 3, 15)).is_none());
    assert!(week_events(&events, date(2024, 3, 15)).is_none());
    assert!(month_events(&events, date(2024, 3, 15)).is_none());
}

#[test]
fn an_event_on_its_day() {
    let mut e = event("x", "20240315T091500");
    e.location = Some("here".to_owned());
    let at = time(date(2024, 3, 15), 9, 15, 0);
    let d = event_on_day(&e, Some(at));
    assert!(matches!(d.time, EventTime::At(t) if t == at));
    assert_eq!(d.summary, "x");
    assert_eq!(d.location.as_deref(), Some("here"));
}

#[test]
fn the_days_of_a_week() {
    let mut daily = event("daily", "20241230");
    daily.rrule = Some("FREQ=DAILY;UNTIL=20250101".to_owned());
    let events = vec![daily, event("once", "20250103T100000")];
    let week = week_events(&events, date(2024, 12, 29)).unwrap();
    let days: Vec<Date> = week.iter().map(|(d, _)| *d).collect();
    assert_eq!(
        days,
        vec![
            date(2024, 12, 29),
            date(2024, 12, 30),
            date(2024, 12, 31),
            date(2025, 1, 1),
            date(2025, 1, 2),
            date(2025, 1, 3),
            date(2025, 1, 4),
        ]
    );
    let counts: Vec<usize> = week.iter().map(|(_, l)| l.len()).collect();
    assert_eq!(counts, vec![0, 1, 1, 1, 0, 1, 0]);
}

#[test]
fn the_days_of_a_month() {
    let month = month_events(&[event("x", "20240229")], date(2024, 2, 10)).unwrap();
    assert_eq!(month.len(), 29);
    assert_eq!(month[0].0, date(2024, 2, 1));
    assert_eq!(month[28].0, date(2024, 2, 29));
    assert_eq!(month[28].1.len(), 1);
    assert!(month[..28].iter().all(|(_, l)| l.is_empty()));
    assert_eq!(month_events(&[], date(2023, 12, 31)).unwrap().len(), 31);
}

#[test]
fn two_calendars_add_up() {
    let a = vec![event("a", "20240315")];
    let b = vec![event("b", "20240315"), event("c", "20240316")];
    let both = vec![event("a", "20240315"), event("b", "20240315"), event("c", "20240316")];
    let today = date(2024, 3, 15);
    let mut apart = names(&events_for_today(&a, today)).len();
    apart += events_for_today(&b, today).len();
    assert_eq!(events_for_today(&both, today).len(), apart);
    assert_eq!(names(&todays_events(&both, today).unwrap()), vec!["a", "b"]);
}

#[test]
fn from_calendar_text_to_a_list() {
    let events = parse_ics(
        "BEGIN:VEVENT\r\nSUMMARY:Yoga\r\nDTSTART:20240104T183000\r\nRRULE:FREQ=WEEKLY;BYDAY=TU,TH\r\n\
         EXDATE:20240314T183000\r\nEND:VEVENT\r\n\
         BEGIN:VEVENT\r\nSUMMARY:Holiday\r\nDTSTART;VALUE=DATE:20240312\r\nEND:VEVENT\r\n",
    );
    let week = week_events(&events, date(2024, 3, 11)).unwrap();
    let lists: Vec<Vec<&str>> = week.iter().map(|(_, l)| names(l)).collect();
    assert_eq!(
        lists,
        vec![
            vec![],
            vec!["Yoga", "Holiday"],
            vec![],
            vec![],
            vec![],
            vec![],
            vec![],
        ]
    );
}

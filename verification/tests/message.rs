use calendar_bot::agenda::{DayEvent, EventTime};
use calendar_bot::dates::{Date, DateTime};
use calendar_bot::message::{
    daily_post, format_month_message, format_today_message, format_week_message, html_escape,
    monthly_post, weekly_post,
};

fn date(year: i32, month: u32, day: u32) -> Date {
    Date { year, month, day }
}

fn timed(date: Date, hour: u32, minute: u32, summary: &str, location: Option<&str>) -> DayEvent {
    DayEvent {
        time: EventTime::At(DateTime { date, hour, minute, second: 0 }),
        summary: summary.to_owned(),
        location: location.map(|l| l.to_owned()),
    }
}

fn all_day(summary: &str) -> DayEvent {
    DayEvent { time: EventTime::AllDay, summary: summary.to_owned(), location: None }
}

#[test]
fn escaping_for_html() {
    assert_eq!(html_escape("a < b & c > \"d\""), "a &lt; b &amp; c &gt; &quot;d&quot;");
    assert_eq!(html_escape("&lt;"), "&amp;lt;");
    assert_eq!(html_escape("it's"), "it's");
    assert_eq!(html_escape(""), "");
}

#[test]
fn escaping_is_replacing() {
    for s in ["<b>&amp;</b>", "\"&<>\"", "plain", "&&&&", "ü<ö>"] {
        let expected = s
            .replace('&', "&amp;")
            .replace('<', "&lt;")
            .replace('>', "&gt;")
            .replace('"', "&quot;");
        assert_eq!(html_escape(s), expected);
        assert!(!html_escape(s).contains(['<', '>', '"']));
    }
}

#[test]
fn escaped_texts_add_up() {
    assert_eq!(html_escape("a<b"), html_escape("a<") + &html_escape("b"));
}

#[test]
fn the_summary_of_a_day() {
    let today = date(2024, 3, 15);
    let events = vec![
        timed(today, 9, 5, "Stand-up <A>", Some("Room \"1\"")),
        all_day("R&D"),
    ];
    let (plain, html) = format_today_message(today, &events);
    assert_eq!(plain, "📅 Fri 15 Mar 2024\n• 09:05 Stand-up <A> [Room \"1\"]\n• All day R&D");
    assert_eq!(
        html,
        "📅 <strong>Fri 15 Mar 2024</strong><br>• 09:05 Stand-up &lt;A&gt; <em>[Room &quot;1&quot;]</em>\
         <br>• All day R&amp;D"
    );
}

#[test]
fn the_summary_of_an_empty_day() {
    let (plain, html) = format_today_message(date(2024, 3, 1), &[]);
    assert_eq!(plain, "📅 No events today (Fri 01 Mar 2024).");
    assert_eq!(html, plain);
}

#[test]
fn the_summary_of_a_week() {
    let start = date(2024, 12, 30);
    let days = vec![
        (start, vec![timed(start, 18, 0, "Dinner", None)]),
        (date(2024, 12, 31), vec![]),
        (date(2025, 1, 1), vec![all_day("New Year"), all_day("<Nap>")]),
    ];
    let (plain, html) = format_week_message(start, &days);
    assert_eq!(
        plain,
        "📆 Mon 30 Dec – Sun 05 Jan 2025\nMon 30 · 18:00 Dinner\nWed 01 · All day New Year\n\
         Wed 01 · All day <Nap>"
    );
    assert_eq!(
        html,
        "<strong>📆 Mon 30 Dec – Sun 05 Jan 2025</strong><br><strong>Mon 30</strong> · 18:00 Dinner<br>\
         <strong>Wed 01</strong> · All day New Year<br><strong>Wed 01</strong> · All day &lt;Nap&gt;"
    );
}

#[test]
fn the_summary_of_an_empty_week() {
    let (plain, html) = format_week_message(date(2024, 3, 11), &[(date(2024, 3, 11), vec![])]);
    assert_eq!(plain, "📆 Mon 11 Mar – Sun 17 Mar 2024: no events.");
    assert_eq!(html, plain);
}

#[test]
fn the_summary_of_a_month() {
    let day = date(2024, 2, 29);
    let days = vec![(date(2024, 2, 28), vec![]), (day, vec![timed(day, 0, 0, "Leap", Some("Park"))])];
    let (plain, html) = format_month_message(date(2024, 2, 10), &days);
    assert_eq!(plain, "📅 February 2024\nThu 29 · 00:00 Leap [Park]");
    assert_eq!(
        html,
        "<strong>📅 February 2024</strong><br><strong>Thu 29</strong> · 00:00 Leap <em>[Park]</em>"
    );
    assert_eq!(
        format_month_message(date(2024, 5, 1), &[]).0,
        "📅 May 2024: no events."
    );
}

#[test]
fn months_by_name() {
    let months = [
        "January", "February", "March", "April", "May", "June", "July", "August", "September",
        "October", "November", "December",
    ];
    for (i, name) in months.iter().enumerate() {
        let day = date(2024, i as u32 + 1, 1);
        assert_eq!(format_month_message(day, &[]).0, format!("📅 {name} 2024: no events."));
        let (plain, _) = format_today_message(day, &[]);
        assert!(plain.contains(&format!(" 01 {} 2024", &name[..3])));
    }
}

#[test]
fn weekdays_by_name() {
    let names = ["Mon", "Tue", "Wed", "Thu", "Fri", "Sat", "Sun"];
    for (i, name) in names.iter().enumerate() {
        let (plain, _) = format_today_message(date(2024, 1, 1 + i as u32), &[]);
        assert_eq!(plain, format!("📅 No events today ({name} 0{} Jan 2024).", i + 1));
    }
}

#[test]
fn years_of_other_lengths() {
    assert_eq!(format_month_message(date(800, 1, 1), &[]).0, "📅 January 0800: no events.");
    assert_eq!(format_month_message(date(12345, 1, 1), &[]).0, "📅 January +12345: no events.");
    assert_eq!(format_month_message(date(-44, 3, 1), &[]).0, "📅 March -0044: no events.");
}

#[test]
fn empty_days_leave_no_trace() {
    let day = date(2024, 3, 15);
    let with = vec![(day, vec![all_day("x")]), (date(2024, 3, 16), vec![])];
    let without = vec![(day, vec![all_day("x")])];
    assert_eq!(format_month_message(day, &with), format_month_message(day, &without));
}

#[test]
fn one_line_for_each_event() {
    let day = date(2024, 3, 15);
    let days = vec![
        (day, vec![all_day("a"), all_day("b")]),
        (date(2024, 3, 16), vec![all_day("c")]),
    ];
    let (plain, html) = format_week_message(day, &days);
    assert_eq!(plain.lines().count(), 4);
    assert_eq!(html.split("<br>").count(), 4);
}

#[test]
fn nothing_is_posted_for_empty_times_unless_asked() {
    let day = date(2024, 3, 15);
    assert_eq!(daily_post(day, &[], false), None);
    assert_eq!(daily_post(day, &[], true), Some(format_today_message(day, &[])));
    let list = vec![all_day("x")];
    assert_eq!(daily_post(day, &list, false), Some(format_today_message(day, &list)));

    let empty = vec![(day, vec![])];
    let full = vec![(day, vec![all_day("x")])];
    assert_eq!(weekly_post(day, &empty, false), None);
    assert_eq!(weekly_post(day, &empty, true), Some(format_week_message(day, &empty)));
    assert_eq!(weekly_post(day, &full, false), Some(format_week_message(day, &full)));
    assert_eq!(monthly_post(day, &empty, false), None);
    assert_eq!(monthly_post(day, &empty, true), Some(format_month_message(day, &empty)));
    assert_eq!(monthly_post(day, &full, false), Some(format_month_message(day, &full)));
}

use calendar_bot::dates::{Date, Weekday};
use calendar_bot::recurrence::{
    monthly_byday_checked, monthly_byday_matches, parse_number, parse_rule, rrule_matches,
    rrule_matches_checked, rule_recurs, weekday_code, Rule,
};

fn date(year: i32, month: u32, day: u32) -> Date {
    Date { year, month, day }
}

#[test]
fn codes_of_the_weekdays() {
    let codes: Vec<&str> = [
        Weekday::Mon,
        Weekday::Tue,
        Weekday::Wed,
        Weekday::Thu,
        Weekday::Fri,
        Weekday::Sat,
        Weekday::Sun,
    ]
    .iter()
    .map(|w| weekday_code(*w))
    .collect();
    assert_eq!(codes, vec!["MO", "TU", "WE", "TH", "FR", "SA", "SU"]);
}

#[test]
fn numbers_are_read_as_by_std() {
    for s in [
        "", "+", "-", "0", "-0", "+7", "-12", "007", "2147483647", "2147483648", "-2147483648",
        "-2147483649", "99999999999999999999", "1x", "x1", "--1", "٣",
    ] {
        let chars: Vec<char> = s.chars().collect();
        assert_eq!(parse_number(&chars), s.parse::<i32>().ok(), "{s:?}");
    }
}

#[test]
fn numbered_weekdays_of_a_month() {
    // The Thursdays of March 2024 are the 7th, 14th, 21st and 28th.
    assert!(monthly_byday_matches("3TH", date(2024, 3, 21)));
    assert!(!monthly_byday_matches("3TH", date(2024, 3, 14)));
    assert!(!monthly_byday_matches("3TH", date(2024, 3, 22)));
    assert!(monthly_byday_matches("+1TH", date(2024, 3, 7)));
    assert!(monthly_byday_matches("-1TH", date(2024, 3, 28)));
    assert!(monthly_byday_matches("-4TH", date(2024, 3, 7)));
    // The last Friday of March 2024 is the 29th, the fifth of the month.
    assert!(monthly_byday_matches("-1FR", date(2024, 3, 29)));
    assert!(monthly_byday_matches("5FR", date(2024, 3, 29)));
    assert!(!monthly_byday_matches("-1FR", date(2024, 3, 22)));
    assert!(monthly_byday_matches("-1TU", date(2024, 12, 31)));
}

#[test]
fn entries_without_a_number_mean_every_such_day() {
    for day in [7, 14, 21, 28] {
        assert!(monthly_byday_matches("TH", date(2024, 3, day)));
    }
    assert!(!monthly_byday_matches("TH", date(2024, 3, 8)));
}

#[test]
fn entries_that_name_no_day() {
    let today = date(2024, 3, 7);
    for d in ["", "T", "0TH", "xTH", "1", "TH1", "1 TH", "12345678901TH"] {
        assert!(!monthly_byday_matches(d, today), "{d:?}");
    }
    assert_eq!(monthly_byday_checked("€", today), None);
    assert_eq!(monthly_byday_checked("é", today), Some(false));
}

#[test]
fn a_numbered_entry_names_one_day_of_a_month() {
    for d in ["1MO", "2MO", "3MO", "4MO", "-1MO", "-2MO", "-3MO", "-4MO"] {
        let days = (1..=30).filter(|day| monthly_byday_matches(d, date(2024, 4, *day))).count();
        assert_eq!(days, 1, "{d}");
    }
    assert_eq!((1..=30).filter(|day| monthly_byday_matches("5MO", date(2024, 4, *day))).count(), 1);
    assert_eq!((1..=30).filter(|day| monthly_byday_matches("5WE", date(2024, 4, *day))).count(), 0);
}

#[test]
fn a_rule_is_read() {
    let rule = parse_rule("FREQ=WEEKLY;INTERVAL=1;BYDAY=MO,WE;UNTIL=20241231T235959Z").unwrap();
    assert_eq!(rule.freq, "WEEKLY");
    assert_eq!(rule.byday, Some(vec!["MO".to_owned(), "WE".to_owned()]));
    assert_eq!(rule.until, Some(date(2024, 12, 31)));
    let bare = parse_rule("").unwrap();
    assert_eq!(bare.freq, "");
    assert_eq!(bare.byday, None);
    assert_eq!(bare.until, None);
    let last = parse_rule("FREQ=DAILY;FREQ=YEARLY;UNTIL=20240101;UNTIL=never").unwrap();
    assert_eq!(last.freq, "YEARLY");
    assert_eq!(last.until, None);
    assert_eq!(parse_rule("BYDAY=").unwrap().byday, Some(vec![String::new()]));
    assert!(parse_rule("UNTIL=1234567é").is_none());
}

#[test]
fn daily_events_recur_every_day() {
    let start = date(2024, 1, 1);
    assert!(rrule_matches(start, "FREQ=DAILY", date(2024, 1, 1)));
    assert!(rrule_matches(start, "FREQ=DAILY", date(2024, 7, 19)));
    assert!(!rrule_matches(start, "FREQ=DAILY", date(2023, 12, 31)));
}

#[test]
fn the_last_day_counts() {
    let start = date(2024, 1, 1);
    let rule = "FREQ=DAILY;UNTIL=20240110";
    assert!(rrule_matches(start, rule, date(2024, 1, 10)));
    assert!(!rrule_matches(start, rule, date(2024, 1, 11)));
    // A last day that does not exist is none.
    assert!(rrule_matches(start, "FREQ=DAILY;UNTIL=20240230", date(2025, 1, 1)));
}

#[test]
fn weekly_events_recur_every_seven_days() {
    let start = date(2024, 1, 3);
    for days in 0..28 {
        let today = date(2024, 1, 3 + days);
        assert_eq!(rrule_matches(start, "FREQ=WEEKLY", today), days % 7 == 0);
    }
    assert!(rrule_matches(start, "FREQ=WEEKLY", date(2024, 3, 6)));
}

#[test]
fn weekly_events_recur_on_the_listed_days() {
    let start = date(2024, 1, 1);
    let rule = "FREQ=WEEKLY;BYDAY=MO,WE,FR";
    let days: Vec<u32> = (1..=7).filter(|d| rrule_matches(start, rule, date(2024, 1, *d))).collect();
    assert_eq!(days, vec![1, 3, 5]);
    assert!(!rrule_matches(start, "FREQ=WEEKLY;BYDAY=", date(2024, 1, 8)));
    assert!(rrule_matches(start, "FREQ=WEEKLY;BYDAY=1TU", date(2024, 1, 9)));
}

#[test]
fn monthly_events_recur_on_the_day_of_the_month() {
    let start = date(2024, 1, 31);
    assert!(rrule_matches(start, "FREQ=MONTHLY", date(2024, 3, 31)));
    assert!(!rrule_matches(start, "FREQ=MONTHLY", date(2024, 4, 30)));
    let rule = "FREQ=MONTHLY;BYDAY=3TH,-1FR";
    let days: Vec<u32> = (1..=31)
        .filter(|d| rrule_matches(date(2024, 1, 1), rule, date(2024, 3, *d)))
        .collect();
    assert_eq!(days, vec![21, 29]);
}

#[test]
fn yearly_events_recur_on_the_day_of_the_year() {
    let start = date(2020, 2, 29);
    assert!(rrule_matches(start, "FREQ=YEARLY", date(2024, 2, 29)));
    assert!(!rrule_matches(start, "FREQ=YEARLY", date(2023, 2, 28)));
    assert!(!rrule_matches(start, "FREQ=YEARLY", date(2024, 3, 29)));
}

#[test]
fn unknown_frequencies_give_no_day() {
    assert!(!rrule_matches(date(2024, 1, 1), "FREQ=HOURLY", date(2024, 1, 1)));
    assert!(!rrule_matches(date(2024, 1, 1), "", date(2024, 1, 1)));
    assert!(!rrule_matches(date(2024, 1, 1), "FREQ=daily", date(2024, 1, 1)));
}

#[test]
fn unreadable_rules_have_no_answer() {
    let start = date(2024, 1, 1);
    assert_eq!(rrule_matches_checked(start, "FREQ=DAILY;UNTIL=1234567é", start), None);
    assert_eq!(rrule_matches_checked(start, "FREQ=MONTHLY;BYDAY=€", start), None);
    // An entry that names the day ends the search.
    assert_eq!(rrule_matches_checked(start, "FREQ=MONTHLY;BYDAY=MO,€", start), Some(true));
    // A day before the start needs no rule.
    assert_eq!(
        rrule_matches_checked(start, "UNTIL=1234567é", date(2023, 1, 1)),
        Some(false)
    );
}

#[test]
fn a_rule_given_as_values() {
    let rule = Rule { freq: "DAILY".to_owned(), byday: None, until: Some(date(2024, 1, 5)) };
    assert_eq!(rule_recurs(date(2024, 1, 1), &rule, date(2024, 1, 5)), Some(true));
    assert_eq!(rule_recurs(date(2024, 1, 1), &rule, date(2024, 1, 6)), Some(false));
}

#[test]
fn daily_events_keep_to_the_listed_days() {
    let start = date(2024, 1, 1);
    let rule = "FREQ=DAILY;BYDAY=MO,TU,WE,TH,FR";
    let days: Vec<u32> = (1..=14).filter(|d| rrule_matches(start, rule, date(2024, 1, *d))).collect();
    assert_eq!(days, vec![1, 2, 3, 4, 5, 8, 9, 10, 11, 12]);
    assert!(!rrule_matches(start, rule, date(2024, 1, 6)));
    assert!(!rrule_matches(start, "FREQ=DAILY;BYDAY=", start));
}

#[test]
fn a_list_of_days_does_not_change_a_yearly_event() {
    let start = date(2023, 11, 23);
    let rule = "FREQ=YEARLY;BYDAY=4TH";
    assert!(rrule_matches(start, rule, date(2024, 11, 23)));
    assert!(!rrule_matches(start, rule, date(2024, 11, 28)));
}

#[test]
fn the_order_within_a_rule_does_not_matter() {
    let start = date(2024, 1, 1);
    let same = [
        ["FREQ=MONTHLY;BYDAY=2TU,-1FR;UNTIL=20240630", "UNTIL=20240630;WKST=MO;BYDAY=-1FR,2TU;FREQ=MONTHLY"],
        ["FREQ=WEEKLY;BYDAY=MO,TH", "BYDAY=TH,MO,TH;X=Y;FREQ=WEEKLY;"],
        ["FREQ=DAILY;BYDAY=SA,SU", "BYDAY=SU,SA;FREQ=DAILY"],
    ];
    for [a, b] in same {
        for month in 1..=12 {
            for day in 1..=28 {
                let today = date(2024, month, day);
                assert_eq!(rrule_matches(start, a, today), rrule_matches(start, b, today), "{a} {today:?}");
            }
        }
    }
}

#[test]
fn a_last_day_only_takes_days_away() {
    let start = date(2024, 1, 1);
    for rule in ["FREQ=DAILY", "FREQ=WEEKLY;BYDAY=TU", "FREQ=MONTHLY;BYDAY=1MO", "FREQ=YEARLY"] {
        let ended = format!("{rule};UNTIL=20240210");
        for month in 1..=3 {
            for day in 1..=29 {
                let today = date(2024, month, day);
                let within = month == 1 || (month == 2 && day <= 10);
                assert_eq!(
                    rrule_matches(start, &ended, today),
                    within && rrule_matches(start, rule, today)
                );
            }
        }
    }
}

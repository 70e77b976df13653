use calendar_bot::ics::{parse_ics, parse_ics_checked, unescape, unfold, IcsEvent};

#[test]
fn unfolding_puts_lines_together() {
    assert_eq!(unfold("SUMMARY:Te\r\n am me\r\n\teting"), "SUMMARY:Team meeting");
    assert_eq!(unfold("SUMMARY:Te\n am me\n\teting"), "SUMMARY:Team meeting");
    assert_eq!(unfold("A:1\r\nB:2\r\n"), "A:1\r\nB:2\r\n");
    assert_eq!(unfold("a\r\n  b"), "a b");
    // Each fold is dropped once: what is left is not read again.
    assert_eq!(unfold("a\r\n\r\n \tb"), "a\r\n\tb");
    assert_eq!(unfold("a\n\n \tb"), "a\n\tb");
    assert_eq!(unfold("a\n \n b"), "ab");
    assert_eq!(unfold(""), "");
}

#[test]
fn unfolding_undoes_folding() {
    let line = "DESCRIPTION:a long line that goes on and on";
    for cut in 1..line.len() {
        for fold in ["\r\n ", "\r\n\t", "\n ", "\n\t"] {
            let folded = format!("{}{}{}", &line[..cut], fold, &line[cut..]);
            assert_eq!(unfold(&folded), line);
        }
    }
}

#[test]
fn unescaping_text() {
    assert_eq!(unescape("a\\, b\\; c"), "a, b; c");
    assert_eq!(unescape("one\\ntwo\\Nthree"), "one\ntwo\nthree");
    assert_eq!(unescape("back\\\\slash"), "back\\slash");
    assert_eq!(unescape("plain"), "plain");
    assert_eq!(unescape("\\\\n"), "\\n");
    assert_eq!(unescape("C:\\\\new"), "C:\\new");
    assert_eq!(unescape("\\\\\\n"), "\\\n");
    assert_eq!(unescape("\\\\,"), "\\,");
    assert_eq!(unescape("end\\"), "end\\");
    assert_eq!(unescape("\\x"), "\\x");
}

#[test]
fn unescaping_undoes_escaping() {
    let text = "Lunch, then; \\work\nat 12";
    assert_eq!(unescape("Lunch\\, then\\; \\\\work\\nat 12"), text);
}

#[test]
fn every_text_survives_escaping() {
    let alphabet = ['\\', 'n', 'N', ',', ';', '\n', 'x'];
    for a in alphabet {
        for b in alphabet {
            for c in alphabet {
                for d in alphabet {
                    let text: String = [a, b, c, d].iter().collect();
                    let mut escaped = String::new();
                    for ch in text.chars() {
                        match ch {
                            '\n' => escaped.push_str("\\n"),
                            ',' | ';' | '\\' => {
                                escaped.push('\\');
                                escaped.push(ch);
                            }
                            _ => escaped.push(ch),
                        }
                    }
                    assert_eq!(unescape(&escaped), text);
                }
            }
        }
    }
}

#[test]
fn an_event_is_read() {
    let events = parse_ics(
        "BEGIN:VCALENDAR\r\n\
         BEGIN:VEVENT\r\n\
         SUMMARY:Stand\\, up\r\n\
         DTSTART;TZID=Europe/Berlin:20240315T091500\r\n\
         LOCATION:Room 1\r\n\
         DESCRIPTION:Bring\\nnotes\r\n\
         RRULE:FREQ=DAILY\r\n\
         EXDATE:20240316T091500\r\n\
         EXDATE:20240317\r\n\
         UID:1\r\n\
         no colon here\r\n\
         END:VEVENT\r\n\
         END:VCALENDAR\r\n",
    );
    assert_eq!(events.len(), 1);
    let e: &IcsEvent = &events[0];
    assert_eq!(e.summary, "Stand, up");
    assert_eq!(e.dtstart, "20240315T091500");
    assert!(!e.dtstart_is_date);
    assert_eq!(e.location.as_deref(), Some("Room 1"));
    assert_eq!(e.description.as_deref(), Some("Bring\nnotes"));
    assert_eq!(e.rrule.as_deref(), Some("FREQ=DAILY"));
    assert_eq!(e.exdates, vec!["20240316".to_owned(), "20240317".to_owned()]);
}

#[test]
fn all_day_events_are_recognised() {
    let by_param = parse_ics("BEGIN:VEVENT\nDTSTART;VALUE=DATE:20240315T000000\nEND:VEVENT\n");
    assert!(by_param[0].dtstart_is_date);
    let by_length = parse_ics("BEGIN:VEVENT\nDTSTART:20240315\nEND:VEVENT\n");
    assert!(by_length[0].dtstart_is_date);
    let among_others =
        parse_ics("BEGIN:VEVENT\nDTSTART;X=1;VALUE=DATE;Y=2:20240315T000000\nEND:VEVENT\n");
    assert!(among_others[0].dtstart_is_date);
    let named = parse_ics("BEGIN:VEVENT\nDTSTART;VALUE=DATE-TIME:20240101T100000\nEND:VEVENT\n");
    assert_eq!(named.len(), 1);
    assert_eq!(named[0].dtstart, "20240101T100000");
    assert!(!named[0].dtstart_is_date);
    let timed = parse_ics("BEGIN:VEVENT\nDTSTART:20240315T000000\nEND:VEVENT\n");
    assert!(!timed[0].dtstart_is_date);
}

#[test]
fn events_without_a_start_are_left_out() {
    assert!(parse_ics("BEGIN:VEVENT\nSUMMARY:x\nEND:VEVENT\n").is_empty());
    assert!(parse_ics("BEGIN:VEVENT\nDTSTART:\nEND:VEVENT\n").is_empty());
    // An event that does not end is none.
    assert!(parse_ics("BEGIN:VEVENT\nDTSTART:20240101\n").is_empty());
}

#[test]
fn without_a_begin_there_is_no_event() {
    assert!(parse_ics("").is_empty());
    assert!(parse_ics("DTSTART:20240101\nEND:VEVENT\n").is_empty());
    assert!(parse_ics("begin:vevent\nDTSTART:20240101\nEND:VEVENT\n").is_empty());
}

#[test]
fn a_second_begin_starts_anew() {
    let events = parse_ics(
        "BEGIN:VEVENT\nSUMMARY:first\nDTSTART:20240101\nBEGIN:VEVENT\nDTSTART:20240102\nEND:VEVENT\n",
    );
    assert_eq!(events.len(), 1);
    assert_eq!(events[0].summary, "");
    assert_eq!(events[0].dtstart, "20240102");
}

#[test]
fn the_last_property_counts() {
    let events =
        parse_ics("BEGIN:VEVENT\nSUMMARY:a\nSUMMARY:b\nDTSTART:20240101\nDTSTART:20240102\nEND:VEVENT");
    assert_eq!(events[0].summary, "b");
    assert_eq!(events[0].dtstart, "20240102");
}

#[test]
fn calendars_are_read_one_after_the_other() {
    let a = "BEGIN:VEVENT\nSUMMARY:a\nDTSTART:20240101\nEND:VEVENT\n";
    let b = "BEGIN:VEVENT\nSUMMARY:b\nDTSTART:20240102\nEND:VEVENT\n";
    let both = parse_ics(&format!("{a}{b}"));
    let names: Vec<&str> = both.iter().map(|e| e.summary.as_str()).collect();
    assert_eq!(names, vec!["a", "b"]);
}

#[test]
fn a_folded_calendar_reads_like_a_flat_one() {
    let flat = "BEGIN:VEVENT\r\nSUMMARY:Quarterly\\, planning\r\nDTSTART:20240315T091500Z\r\nEND:VEVENT\r\n";
    let folded =
        "BEGIN:VEV\r\n ENT\r\nSUMM\r\n\tARY:Quarterly\r\n \\, planning\r\nDTSTART:2024\n 0315T091500Z\r\nEND:VEVENT\r\n";
    let a = parse_ics(flat);
    let b = parse_ics(folded);
    assert_eq!(a.len(), 1);
    assert_eq!(b.len(), 1);
    assert_eq!(a[0].summary, "Quarterly, planning");
    assert_eq!(b[0].summary, a[0].summary);
    assert_eq!(b[0].dtstart, a[0].dtstart);
}

#[test]
fn the_value_begins_behind_the_first_colon() {
    let events = parse_ics("BEGIN:VEVENT\nSUMMARY:a:b;c\nDTSTART;X=\"y\":20240101\nEND:VEVENT\n");
    assert_eq!(events[0].summary, "a:b;c");
    assert_eq!(events[0].dtstart, "20240101");
}

#[test]
fn an_excluded_day_cut_inside_a_character_cannot_be_read() {
    assert!(parse_ics_checked("BEGIN:VEVENT\nDTSTART:20240101\nEXDATE:1234567é\nEND:VEVENT\n").is_none());
    // Outside an event the line does not matter.
    assert!(parse_ics_checked("EXDATE:1234567é\n").is_some());
    let short = parse_ics_checked("BEGIN:VEVENT\nDTSTART:20240101\nEXDATE:é\nEND:VEVENT\n").unwrap();
    assert_eq!(short[0].exdates, vec!["é".to_owned()]);
}

#[test]
fn carriage_returns_at_the_end_of_a_line_are_dropped() {
    let events = parse_ics("BEGIN:VEVENT\r\r\nDTSTART:20240101\r\r\r\nEND:VEVENT\r");
    assert_eq!(events.len(), 1);
    assert_eq!(events[0].dtstart, "20240101");
}

#[test]
fn the_event_of_which_nothing_was_read() {
    let e = IcsEvent::default();
    assert_eq!(e.summary, "");
    assert_eq!(e.dtstart, "");
    assert!(!e.dtstart_is_date);
    assert!(e.location.is_none() && e.description.is_none() && e.rrule.is_none());
    assert!(e.exdates.is_empty());
}

fn listing(events: &[IcsEvent]) -> Vec<String> {
    events.iter().map(|e| format!("{e:?}")).collect()
}

const FIRST: &str = "BEGIN:VCALENDAR\nVERSION:2.0\nBEGIN:VEVENT\nSUMMARY:a lo\n ng name\n\
                     DTSTART:20240101\nEND:VEVENT\nEND:VCALENDAR";
const SECOND: &str = "BEGIN:VCALENDAR\nBEGIN:VEVENT\nRRULE:FREQ=DAILY\nDTSTART:20240\n\t102T100000\n\
                      EXDATE:20240103\nEND:VEVENT\nEND:VCALENDAR";

#[test]
fn whole_calendars_one_after_the_other() {
    let mut expected = listing(&parse_ics(FIRST));
    expected.extend(listing(&parse_ics(SECOND)));
    assert_eq!(expected.len(), 2);
    for end in ["\r\n", "\n"] {
        assert_eq!(listing(&parse_ics(&format!("{FIRST}{end}{SECOND}"))), expected);
    }
}

#[test]
fn line_ends_do_not_matter() {
    for text in [FIRST, SECOND, "\n\n BEGIN:VEVENT\n\nDTSTART:1\n\n\tx\nEND:VEVENT\n\n"] {
        let events = listing(&parse_ics(text));
        assert_eq!(listing(&parse_ics(&text.replace('\n', "\r\n"))), events);
    }
}

#[test]
fn the_order_of_properties_does_not_matter() {
    let lines = ["SUMMARY:x", "DTSTART:20240101", "EXDATE:20240102", "RRULE:FREQ=DAILY", "no property"];
    let calendar = |lines: &[&str]| format!("BEGIN:VEVENT\r\n{}\r\nEND:VEVENT\r\n", lines.join("\r\n"));
    let events = listing(&parse_ics(&calendar(&lines)));
    assert_eq!(events.len(), 1);
    for i in 0..lines.len() - 1 {
        let mut swapped = lines;
        swapped.swap(i, i + 1);
        assert_eq!(listing(&parse_ics(&calendar(&swapped))), events);
    }
}

//! Reading iCalendar text.
//!
//! The text is unfolded and cut into lines; the lines between `BEGIN:VEVENT` and `END:VEVENT` make
//! up an event. A property that stands several times in an event counts where it stands last, but
//! for `EXDATE`, of which every one counts.

use crate::text;
use vstd::prelude::*;

verus! {

/// An event as it is written in a calendar.
#[derive(Debug)]
pub struct IcsEvent {
    pub summary: String,
    pub dtstart: String,
    /// Whether the event starts on a day, without a time.
    pub dtstart_is_date: bool,
    pub location: Option<String>,
    pub description: Option<String>,
    pub rrule: Option<String>,
    /// The days on which the event does not recur, each in its first eight bytes.
    pub exdates: Vec<String>,
}

/// What an [`IcsEvent`] holds.
pub struct EventModel {
    pub summary: Seq<char>,
    pub dtstart: Seq<char>,
    pub dtstart_is_date: bool,
    pub location: Option<Seq<char>>,
    pub description: Option<Seq<char>>,
    pub rrule: Option<Seq<char>>,
    pub exdates: Seq<Seq<char>>,
}

/// The text of a string that may be missing.
pub open spec fn opt_text(s: Option<String>) -> Option<Seq<char>> {
    match s {
        Some(s) => Some(s@),
        None => None,
    }
}

impl View for IcsEvent {
    type V = EventModel;

    open spec fn view(&self) -> EventModel {
        EventModel {
            summary: self.summary@,
            dtstart: self.dtstart@,
            dtstart_is_date: self.dtstart_is_date,
            location: opt_text(self.location),
            description: opt_text(self.description),
            rrule: opt_text(self.rrule),
            exdates: text::texts(self.exdates@),
        }
    }
}

/// The event of which nothing has been read yet.
pub open spec fn empty_event() -> EventModel {
    EventModel {
        summary: Seq::empty(),
        dtstart: Seq::empty(),
        dtstart_is_date: false,
        location: None,
        description: None,
        rrule: None,
        exdates: Seq::empty(),
    }
}

impl Default for IcsEvent {
    fn default() -> (r: IcsEvent)
        ensures
            r@ == empty_event(),
    {
        let r = IcsEvent {
            summary: String::new(),
            dtstart: String::new(),
            dtstart_is_date: false,
            location: None,
            description: None,
            rrule: None,
            exdates: Vec::new(),
        };
        assert(text::texts(r.exdates@) == Seq::<Seq<char>>::empty());
        r
    }
}

/// The models of a list of events.
pub open spec fn models(events: Seq<IcsEvent>) -> Seq<EventModel> {
    events.map_values(|e: IcsEvent| e@)
}

/// Whether `c` is a space or a tab.
pub open spec fn is_blank(c: char) -> bool {
    c == ' ' || c == '\t'
}

/// How many characters the fold at the beginning of `s` takes: a line break and the space or tab
/// behind it; none where `s` does not begin with a fold.
pub open spec fn fold_len(s: Seq<char>) -> int {
    if s.len() >= 3 && s[0] == '\r' && s[1] == '\n' && is_blank(s[2]) {
        3
    } else if s.len() >= 2 && s[0] == '\n' && is_blank(s[1]) {
        2
    } else {
        0
    }
}

/// The text with its folded lines put together again: it is read from left to right, a line break
/// with a space or a tab behind it is dropped, and reading goes on behind it.
pub open spec fn unfolded(s: Seq<char>) -> Seq<char>
    decreases s.len(),
{
    if s.len() == 0 {
        s
    } else if fold_len(s) > 0 {
        unfolded(s.skip(fold_len(s)))
    } else {
        seq![s[0]] + unfolded(s.skip(1))
    }
}

/// Puts folded lines together again.
pub fn unfold(ics: &str) -> (r: String)
    ensures
        r@ == unfolded(ics@),
{
    let r: Vec<char> = unfold_chars(ics);
    text::string_of(r.as_slice())
}

/// How many characters the fold at position `i` takes.
fn fold_at(s: &[char], i: usize) -> (r: usize)
    requires
        i < s@.len(),
    ensures
        r == fold_len(s@.skip(i as int)),
        i + r <= s@.len(),
{
    let left: usize = s.len() - i;
    if left >= 3 && s[i] == '\r' && s[i + 1] == '\n' && (s[i + 2] == ' ' || s[i + 2] == '\t') {
        3
    } else if left >= 2 && s[i] == '\n' && (s[i + 1] == ' ' || s[i + 1] == '\t') {
        2
    } else {
        0
    }
}

fn unfold_chars(ics: &str) -> (r: Vec<char>)
    ensures
        r@ == unfolded(ics@),
{
    let s: Vec<char> = text::chars_of(ics);
    let mut r: Vec<char> = Vec::new();
    let mut i: usize = 0;
    assert(s@.skip(0) == s@);
    assert(r@ + unfolded(s@) == unfolded(s@));
    while i < s.len()
        invariant
            i <= s@.len(),
            r@ + unfolded(s@.skip(i as int)) == unfolded(s@),
        decreases s@.len() - i,
    {
        let ghost rest = s@.skip(i as int);
        let fold: usize = fold_at(s.as_slice(), i);
        if fold > 0 {
            assert(rest.skip(fold as int) == s@.skip(i + fold));
            i += fold;
        } else {
            let ghost before = r@;
            r.push(s[i]);
            assert(rest.skip(1) == s@.skip(i + 1));
            assert(r@ + unfolded(rest.skip(1)) == before + (seq![rest[0]] + unfolded(
                rest.skip(1),
            )));
            i += 1;
        }
    }
    assert(r@ + unfolded(s@.skip(i as int)) == r@);
    r
}

/// What a backslash and the character `c` behind it stand for, where they are an escape.
pub open spec fn escape_meaning(c: char) -> Option<char> {
    if c == 'n' || c == 'N' {
        Some('\n')
    } else if c == ',' || c == ';' || c == '\\' {
        Some(c)
    } else {
        None
    }
}

/// The text that an escaped value stands for: it is read from left to right, a backslash and `n` or
/// `N` are a line break, a backslash and a comma, a semicolon or a backslash are the second of the
/// two, and reading goes on behind them. A backslash before any other character stays.
pub open spec fn unescaped(s: Seq<char>) -> Seq<char>
    decreases s.len(),
{
    if s.len() == 0 {
        s
    } else if s.len() >= 2 && s[0] == '\\' && escape_meaning(s[1]) is Some {
        seq![escape_meaning(s[1])->0] + unescaped(s.skip(2))
    } else {
        seq![s[0]] + unescaped(s.skip(1))
    }
}

/// Reads the escapes in a text value.
pub fn unescape(s: &str) -> (r: String)
    ensures
        r@ == unescaped(s@),
{
    let s: Vec<char> = text::chars_of(s);
    unescape_chars(s.as_slice())
}

/// What a backslash and the character `c` behind it stand for, where they are an escape.
fn read_escape(c: char) -> (r: Option<char>)
    ensures
        r == escape_meaning(c),
{
    if c == 'n' || c == 'N' {
        Some('\n')
    } else if c == ',' || c == ';' || c == '\\' {
        Some(c)
    } else {
        None
    }
}

fn unescape_chars(s: &[char]) -> (r: String)
    ensures
        r@ == unescaped(s@),
{
    let mut r: String = String::new();
    let mut i: usize = 0;
    assert(s@.skip(0) == s@);
    assert(r@ + unescaped(s@) == unescaped(s@));
    while i < s.len()
        invariant
            i <= s@.len(),
            r@ + unescaped(s@.skip(i as int)) == unescaped(s@),
        decreases s@.len() - i,
    {
        let ghost rest = s@.skip(i as int);
        let ghost before = r@;
        let escape: Option<char> = if s[i] == '\\' && s.len() - i >= 2 {
            read_escape(s[i + 1])
        } else {
            None
        };
        match escape {
            Some(c) => {
                r.push(c);
                assert(rest.skip(2) == s@.skip(i + 2));
                assert(r@ + unescaped(rest.skip(2)) == before + (seq![c] + unescaped(
                    rest.skip(2),
                )));
                i += 2;
            },
            None => {
                r.push(s[i]);
                assert(rest.skip(1) == s@.skip(i + 1));
                assert(r@ + unescaped(rest.skip(1)) == before + (seq![rest[0]] + unescaped(
                    rest.skip(1),
                )));
                i += 1;
            },
        }
    }
    assert(r@ + unescaped(s@.skip(i as int)) == r@);
    r
}

/// A line of the form `NAME;PARAMS:VALUE`.
pub struct Property {
    pub name: Seq<char>,
    pub params: Seq<char>,
    pub value: Seq<char>,
}

/// The property that a line holds: the first colon ends the name and its parameters, the first
/// semicolon before it ends the name.
pub open spec fn property(line: Seq<char>) -> Option<Property> {
    match text::char_index(line, ':', 0) {
        None => None,
        Some(colon) => {
            let key = line.take(colon);
            let value = line.skip(colon + 1);
            match text::char_index(key, ';', 0) {
                Some(i) => Some(Property { name: key.take(i), params: key.skip(i + 1), value }),
                None => Some(Property { name: key, params: Seq::empty(), value }),
            }
        },
    }
}

/// The last property of the given name among the lines.
pub open spec fn last_property(lines: Seq<Seq<char>>, name: Seq<char>) -> Option<Property>
    decreases lines.len(),
{
    if lines.len() == 0 {
        None
    } else {
        match property(lines.last()) {
            Some(p) if p.name == name => Some(p),
            _ => last_property(lines.drop_last(), name),
        }
    }
}

/// The day that a line excludes: the first eight bytes of the value of an `EXDATE`.
pub open spec fn excluded_day(line: Seq<char>) -> Option<Seq<char>> {
    match property(line) {
        Some(p) if p.name == "EXDATE"@ => text::byte_prefix(p.value, 8),
        _ => None,
    }
}

/// The days that the lines exclude, in order.
pub open spec fn excluded_days(lines: Seq<Seq<char>>) -> Seq<Seq<char>>
    decreases lines.len(),
{
    if lines.len() == 0 {
        Seq::empty()
    } else {
        match excluded_day(lines.last()) {
            Some(day) => excluded_days(lines.drop_last()).push(day),
            None => excluded_days(lines.drop_last()),
        }
    }
}

/// Whether a line can be read in an event: the eighth byte of an excluded day must not lie inside a
/// character.
pub open spec fn readable_line(line: Seq<char>) -> bool {
    match property(line) {
        Some(p) => p.name == "EXDATE"@ ==> text::byte_prefix(p.value, 8) is Some,
        None => true,
    }
}

/// The value of a property, unescaped.
pub open spec fn text_value(p: Option<Property>) -> Option<Seq<char>> {
    match p {
        Some(p) => Some(unescaped(p.value)),
        None => None,
    }
}

/// The value of a property as it stands.
pub open spec fn raw_value(p: Option<Property>) -> Option<Seq<char>> {
    match p {
        Some(p) => Some(p.value),
        None => None,
    }
}

/// A text, or the empty one.
pub open spec fn or_empty(s: Option<Seq<char>>) -> Seq<char> {
    match s {
        Some(s) => s,
        None => Seq::empty(),
    }
}

/// Whether a `DTSTART` gives a day without a time: one of its parameters is `VALUE=DATE`, or its value
/// has eight bytes.
pub open spec fn starts_on_day(p: Option<Property>) -> bool {
    match p {
        Some(p) => text::split(p.params, ';').contains("VALUE=DATE"@) || text::byte_len(p.value) == 8,
        None => false,
    }
}

/// The event that the lines between `BEGIN:VEVENT` and `END:VEVENT` describe.
pub open spec fn event_of(lines: Seq<Seq<char>>) -> EventModel {
    EventModel {
        summary: or_empty(text_value(last_property(lines, "SUMMARY"@))),
        dtstart: or_empty(raw_value(last_property(lines, "DTSTART"@))),
        dtstart_is_date: starts_on_day(last_property(lines, "DTSTART"@)),
        location: text_value(last_property(lines, "LOCATION"@)),
        description: text_value(last_property(lines, "DESCRIPTION"@)),
        rrule: raw_value(last_property(lines, "RRULE"@)),
        exdates: excluded_days(lines),
    }
}

/// The lines of an unfolded text, without the line breaks and the carriage returns at their ends.
/// What follows the last line break is a line only where it is not empty.
pub open spec fn content_lines(s: Seq<char>) -> Seq<Seq<char>> {
    let pieces = text::split(s, '\n');
    let pieces = if pieces.last().len() == 0 {
        pieces.drop_last()
    } else {
        pieces
    };
    pieces.map_values(|l: Seq<char>| text::trimmed_end(l, '\r'))
}

/// What has been read of a calendar: the events that have ended, each as its lines; the lines of the
/// event that has begun and not ended; and whether every line of an event could be read.
pub struct Scan {
    pub ended: Seq<Seq<Seq<char>>>,
    pub begun: Option<Seq<Seq<char>>>,
    pub readable: bool,
}

/// The events among the lines. A `BEGIN:VEVENT` inside an event begins the event anew; lines outside
/// events are passed over.
pub open spec fn scan(lines: Seq<Seq<char>>) -> Scan
    decreases lines.len(),
{
    if lines.len() == 0 {
        Scan { ended: Seq::empty(), begun: None, readable: true }
    } else {
        let before = scan(lines.drop_last());
        let line = lines.last();
        if line == "BEGIN:VEVENT"@ {
            Scan { begun: Some(Seq::empty()), ..before }
        } else {
            match before.begun {
                None => before,
                Some(event) => if line == "END:VEVENT"@ {
                    Scan { ended: before.ended.push(event), begun: None, ..before }
                } else {
                    Scan {
                        begun: Some(event.push(line)),
                        readable: before.readable && readable_line(line),
                        ..before
                    }
                },
            }
        }
    }
}

/// The events that the groups of lines describe, without those that have no start.
pub open spec fn started_events(groups: Seq<Seq<Seq<char>>>) -> Seq<EventModel>
    decreases groups.len(),
{
    if groups.len() == 0 {
        Seq::empty()
    } else {
        let event = event_of(groups.last());
        let before = started_events(groups.drop_last());
        if event.dtstart.len() > 0 {
            before.push(event)
        } else {
            before
        }
    }
}

/// Whether every line of every event in the calendar can be read.
pub open spec fn is_readable(ics: Seq<char>) -> bool {
    scan(content_lines(unfolded(ics))).readable
}

/// The events of a calendar.
pub open spec fn events_of(ics: Seq<char>) -> Seq<EventModel> {
    started_events(scan(content_lines(unfolded(ics))).ended)
}

/// The event with one more line read.
pub open spec fn with_line(event: EventModel, line: Seq<char>) -> EventModel {
    match property(line) {
        None => event,
        Some(p) => if p.name == "SUMMARY"@ {
            EventModel { summary: unescaped(p.value), ..event }
        } else if p.name == "DTSTART"@ {
            EventModel { dtstart: p.value, dtstart_is_date: starts_on_day(Some(p)), ..event }
        } else if p.name == "LOCATION"@ {
            EventModel { location: Some(unescaped(p.value)), ..event }
        } else if p.name == "DESCRIPTION"@ {
            EventModel { description: Some(unescaped(p.value)), ..event }
        } else if p.name == "RRULE"@ {
            EventModel { rrule: Some(p.value), ..event }
        } else {
            match excluded_day(line) {
                Some(day) => EventModel { exdates: event.exdates.push(day), ..event },
                None => event,
            }
        },
    }
}

/// The names of the properties are different names.
pub proof fn lemma_names_differ()
    ensures
        "SUMMARY"@ != "DTSTART"@,
        "SUMMARY"@ != "LOCATION"@,
        "SUMMARY"@ != "DESCRIPTION"@,
        "SUMMARY"@ != "RRULE"@,
        "SUMMARY"@ != "EXDATE"@,
        "DTSTART"@ != "LOCATION"@,
        "DTSTART"@ != "DESCRIPTION"@,
        "DTSTART"@ != "RRULE"@,
        "DTSTART"@ != "EXDATE"@,
        "LOCATION"@ != "DESCRIPTION"@,
        "LOCATION"@ != "RRULE"@,
        "LOCATION"@ != "EXDATE"@,
        "DESCRIPTION"@ != "RRULE"@,
        "DESCRIPTION"@ != "EXDATE"@,
        "RRULE"@ != "EXDATE"@,
{
    reveal_strlit("SUMMARY");
    reveal_strlit("DTSTART");
    reveal_strlit("LOCATION");
    reveal_strlit("DESCRIPTION");
    reveal_strlit("RRULE");
    reveal_strlit("EXDATE");
    assert("SUMMARY"@[0] != "DTSTART"@[0]);
    assert("SUMMARY"@.len() == 7 && "DTSTART"@.len() == 7 && "LOCATION"@.len() == 8);
    assert("DESCRIPTION"@.len() == 11 && "RRULE"@.len() == 5 && "EXDATE"@.len() == 6);
}

/// Reading a line more is reading the line into the event.
pub proof fn lemma_with_line(lines: Seq<Seq<char>>, line: Seq<char>)
    ensures
        event_of(lines.push(line)) == with_line(event_of(lines), line),
{
    lemma_names_differ();
    assert(lines.push(line).drop_last() == lines);
}

/// A calendar that could not be read up to some line cannot be read at all.
proof fn lemma_unreadable(lines: Seq<Seq<char>>, n: int)
    requires
        0 <= n <= lines.len(),
        !scan(lines.take(n)).readable,
    ensures
        !scan(lines).readable,
    decreases lines.len(),
{
    if n < lines.len() {
        assert(lines.drop_last().take(n) == lines.take(n));
        lemma_unreadable(lines.drop_last(), n);
    } else {
        assert(lines.take(n) == lines);
    }
}

/// Whether the parameters hold the parameter.
fn has_param(params: &[char], param: &str) -> (r: bool)
    ensures
        r == text::split(params@, ';').contains(param@),
{
    let pieces: Vec<Vec<char>> = text::split_text(params, ';');
    let ghost all = text::split(params@, ';');
    for i in 0..pieces.len()
        invariant
            all == text::char_texts(pieces@),
            all == text::split(params@, ';'),
            forall|k: int| 0 <= k < i ==> #[trigger] all[k] != param@,
    {
        assert(all[i as int] == pieces@[i as int]@);
        if text::same_text(pieces[i].as_slice(), param) {
            return true;
        }
    }
    false
}

/// Reads a line into an event. The answer is whether the line can be read; if not, the event is left
/// as it was.
fn read_line(event: &mut IcsEvent, line: &[char]) -> (r: bool)
    ensures
        r == readable_line(line@),
        r ==> final(event)@ == with_line(old(event)@, line@),
{
    let colon: usize = match text::find_char(line, ':', 0) {
        Some(i) => i,
        None => {
            return true;
        },
    };
    let len: usize = line.len();
    let key: Vec<char> = text::part(line, 0, colon);
    let value: Vec<char> = text::part(line, colon + 1, len);
    assert(key@ == line@.take(colon as int));
    assert(value@ == line@.skip(colon + 1));
    let (name, params): (Vec<char>, Vec<char>) = match text::find_char(key.as_slice(), ';', 0) {
        Some(i) => {
            let name: Vec<char> = text::part(key.as_slice(), 0, i);
            let params: Vec<char> = text::part(key.as_slice(), i + 1, key.len());
            assert(name@ == key@.take(i as int));
            assert(params@ == key@.skip(i + 1));
            (name, params)
        },
        None => (key, Vec::new()),
    };
    let ghost p = Property { name: name@, params: params@, value: value@ };
    assert(property(line@) == Some(p));
    proof {
        lemma_names_differ();
    }
    if text::same_text(name.as_slice(), "SUMMARY") {
        event.summary = unescape_chars(value.as_slice());
    } else if text::same_text(name.as_slice(), "DTSTART") {
        event.dtstart = text::string_of(value.as_slice());
        event.dtstart_is_date = has_param(params.as_slice(), "VALUE=DATE") || text::byte_count(
            value.as_slice(),
            9,
        ) == 8;
    } else if text::same_text(name.as_slice(), "LOCATION") {
        event.location = Some(unescape_chars(value.as_slice()));
    } else if text::same_text(name.as_slice(), "DESCRIPTION") {
        event.description = Some(unescape_chars(value.as_slice()));
    } else if text::same_text(name.as_slice(), "RRULE") {
        event.rrule = Some(text::string_of(value.as_slice()));
    } else if text::same_text(name.as_slice(), "EXDATE") {
        match text::first_bytes(value.as_slice(), 8) {
            Some(day) => {
                let day: String = text::string_of(day.as_slice());
                let ghost days = text::texts(event.exdates@);
                event.exdates.push(day);
                assert(text::texts(event.exdates@) == days.push(day@));
            },
            None => {
                return false;
            },
        }
    }
    true
}

/// The events of a calendar, where every line of every event can be read.
pub fn parse_ics_checked(ics: &str) -> (r: Option<Vec<IcsEvent>>)
    ensures
        r is Some <==> is_readable(ics@),
        r matches Some(events) ==> models(events@) == events_of(ics@),
{
    let whole: Vec<char> = unfold_chars(ics);
    let pieces: Vec<Vec<char>> = text::split_text(whole.as_slice(), '\n');
    let count: usize = if pieces[pieces.len() - 1].len() == 0 {
        pieces.len() - 1
    } else {
        pieces.len()
    };
    let ghost lines = content_lines(unfolded(ics@));
    assert(lines.len() == count);
    let mut events: Vec<IcsEvent> = Vec::new();
    let mut current: Option<IcsEvent> = None;
    assert(models(events@) == Seq::<EventModel>::empty());
    let mut i: usize = 0;
    while i < count
        invariant
            i <= count <= pieces@.len(),
            lines.len() == count,
            lines == content_lines(unfolded(ics@)),
            forall|k: int|
                0 <= k < count ==> #[trigger] lines[k] == text::trimmed_end(pieces@[k]@, '\r'),
            scan(lines.take(i as int)).readable,
            models(events@) == started_events(scan(lines.take(i as int)).ended),
            match scan(lines.take(i as int)).begun {
                Some(group) => current matches Some(ev) && ev@ == event_of(group),
                None => current is None,
            },
        decreases count - i,
    {
        let line: Vec<char> = text::trim_end_char(pieces[i].as_slice(), '\r');
        let ghost before = scan(lines.take(i as int));
        proof {
            assert(lines[i as int] == line@);
            assert(lines.take(i + 1).drop_last() == lines.take(i as int));
            assert(lines.take(i + 1).last() == line@);
        }
        if text::same_text(line.as_slice(), "BEGIN:VEVENT") {
            current = Some(IcsEvent::default());
            assert(event_of(Seq::empty()) == empty_event());
        } else if text::same_text(line.as_slice(), "END:VEVENT") {
            if let Some(ev) = current.take() {
                let ghost known = models(events@);
                let ghost group = before.begun->0;
                assert(before.ended.push(group).drop_last() == before.ended);
                if !ev.dtstart.as_str().is_empty() {
                    events.push(ev);
                    assert(models(events@) == known.push(ev@));
                }
            }
        } else if let Some(mut ev) = current.take() {
            let ghost group = before.begun->0;
            proof {
                lemma_with_line(group, line@);
            }
            if !read_line(&mut ev, line.as_slice()) {
                proof {
                    lemma_unreadable(lines, i + 1);
                }
                return None;
            }
            current = Some(ev);
        }
        i += 1;
    }
    assert(lines.take(count as int) == lines);
    Some(events)
}

/// The events of a calendar.
pub fn parse_ics(ics: &str) -> (r: Vec<IcsEvent>)
    requires
        is_readable(ics@),
    ensures
        models(r@) == events_of(ics@),
{
    parse_ics_checked(ics).unwrap()
}

}

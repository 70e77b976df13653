//! Which events take place on which day, and in which order they are listed.

use crate::dates;
use crate::dates::{Date, DateTime};
use crate::ics;
use crate::ics::IcsEvent;
use crate::recurrence;
use crate::text;
use vstd::prelude::*;

verus! {

/// When an event takes place on its day.
#[derive(Clone, Copy, Debug)]
pub enum EventTime {
    AllDay,
    At(DateTime),
}

impl EventTime {
    /// Whether the time exists.
    pub open spec fn valid(self) -> bool {
        self matches EventTime::At(t) ==> t.valid()
    }

    /// The place of the time in a day's list: the seconds since the beginning of 1970, and behind all
    /// of them the events that have no time.
    pub open spec fn key(self) -> int {
        match self {
            EventTime::At(t) => t.seconds() - 719163 * 86400,
            EventTime::AllDay => i64::MAX as int,
        }
    }
}

/// An event on a day.
#[derive(Debug)]
pub struct DayEvent {
    pub time: EventTime,
    pub summary: String,
    pub location: Option<String>,
}

/// What a [`DayEvent`] holds.
pub struct DayEventModel {
    pub time: EventTime,
    pub summary: Seq<char>,
    pub location: Option<Seq<char>>,
}

impl View for DayEvent {
    type V = DayEventModel;

    open spec fn view(&self) -> DayEventModel {
        DayEventModel {
            time: self.time,
            summary: self.summary@,
            location: ics::opt_text(self.location),
        }
    }
}

impl DayEvent {
    /// The event's place in a day's list.
    pub fn sort_key(&self) -> (r: i64)
        requires
            self.time.valid(),
        ensures
            r == self.time.key(),
    {
        match &self.time {
            EventTime::At(t) => dates::timestamp(*t),
            EventTime::AllDay => i64::MAX,
        }
    }
}

/// The models of a day's list.
pub open spec fn day_models(events: Seq<DayEvent>) -> Seq<DayEventModel> {
    events.map_values(|e: DayEvent| e@)
}

/// Whether the times of the events exist.
pub open spec fn valid_times(events: Seq<DayEventModel>) -> bool {
    forall|i: int| 0 <= i < events.len() ==> (#[trigger] events[i]).time.valid()
}

/// The first eight bytes of a start, without the `Z` that marks universal time; nothing where the
/// eighth byte lies inside a character.
pub open spec fn day_part(s: Seq<char>) -> Option<Seq<char>> {
    text::byte_prefix(text::trimmed_end(s, 'Z'), 8)
}

/// The day on which an event starts.
pub open spec fn start_day(s: Seq<char>) -> Option<Date> {
    match day_part(s) {
        Some(day) => recurrence::date_of(dates::date_in(day)),
        None => None,
    }
}

/// Whether the time of a start can be read: its fifteenth byte does not lie inside a character.
pub open spec fn time_readable(s: Seq<char>) -> bool {
    text::byte_prefix(text::trimmed_end(s, 'Z'), 15) is Some
}

/// The time with the given fields.
pub open spec fn time_of(fields: Option<(i32, u32, u32, u32, u32, u32)>) -> Option<DateTime> {
    match fields {
        Some((year, month, day, hour, minute, second)) => Some(
            DateTime { date: Date { year, month, day }, hour, minute, second },
        ),
        None => None,
    }
}

/// The time at which an event starts: the first fifteen bytes of the start, where it has that many.
pub open spec fn start_time(s: Seq<char>) -> Option<DateTime> {
    let s = text::trimmed_end(s, 'Z');
    if text::byte_len(s) < 15 {
        None
    } else {
        match text::byte_prefix(s, 15) {
            Some(time) => time_of(dates::time_in(time)),
            None => None,
        }
    }
}

/// The day on which an event starts; no answer where the day cannot be read.
pub fn parse_dtstart_date_checked(s: &str) -> (r: Option<Option<Date>>)
    ensures
        r is Some <==> day_part(s@) is Some,
        r matches Some(day) ==> day == start_day(s@),
        r matches Some(Some(day)) ==> day.valid(),
{
    let s: Vec<char> = text::chars_of(s);
    let s: Vec<char> = text::trim_end_char(s.as_slice(), 'Z');
    match text::first_bytes(s.as_slice(), 8) {
        Some(day) => {
            let day: String = text::string_of(day.as_slice());
            Some(dates::parse_date(day.as_str(), "%Y%m%d"))
        },
        None => None,
    }
}

/// The day on which an event starts, from `YYYYMMDD` or `YYYYMMDDTHHMMSS`, with or without a `Z`.
pub fn parse_dtstart_date(s: &str) -> (r: Option<Date>)
    requires
        day_part(s@) is Some,
    ensures
        r == start_day(s@),
        r matches Some(day) ==> day.valid(),
{
    parse_dtstart_date_checked(s).unwrap()
}

/// The time at which an event starts; no answer where the time cannot be read.
pub fn parse_dtstart_datetime_checked(s: &str) -> (r: Option<Option<DateTime>>)
    ensures
        r is Some <==> time_readable(s@),
        r matches Some(time) ==> time == start_time(s@),
        r matches Some(Some(time)) ==> time.valid(),
{
    let s: Vec<char> = text::chars_of(s);
    let s: Vec<char> = text::trim_end_char(s.as_slice(), 'Z');
    if text::byte_count(s.as_slice(), 15) < 15 {
        proof {
            text::lemma_short_prefix(s@, 15);
            text::lemma_bytes_at_least_chars(s@);
        }
        return Some(None);
    }
    match text::first_bytes(s.as_slice(), 15) {
        Some(time) => {
            let time: String = text::string_of(time.as_slice());
            Some(dates::parse_datetime(time.as_str(), "%Y%m%dT%H%M%S"))
        },
        None => None,
    }
}

/// The time at which an event starts, from `YYYYMMDDTHHMMSS` with or without a `Z`.
pub fn parse_dtstart_datetime(s: &str) -> (r: Option<DateTime>)
    requires
        time_readable(s@),
    ensures
        r == start_time(s@),
        r matches Some(time) ==> time.valid(),
{
    parse_dtstart_datetime_checked(s).unwrap()
}

/// Whether an event takes place on the day `today`, given the day on which it starts. One that
/// recurs does not on the days that it excludes; one that does not recur only on its first day. There
/// is no answer where the rule cannot be read.
pub open spec fn takes_place(event: ics::EventModel, start: Date, today: Date) -> Option<bool> {
    match event.rrule {
        Some(rule) => if event.exdates.contains(dates::date_text(today, "%Y%m%d"@)) {
            Some(false)
        } else {
            recurrence::occurs(start, rule, today)
        },
        None => Some(start == today),
    }
}

/// The event on its day, at the time `at`, or all day where the event has no time.
pub open spec fn on_day(event: ics::EventModel, at: Option<DateTime>) -> DayEventModel {
    DayEventModel {
        time: match at {
            Some(t) => EventTime::At(t),
            None => EventTime::AllDay,
        },
        summary: event.summary,
        location: event.location,
    }
}

/// What an event puts on the list of the day `today`: nothing where its start is no day or it does
/// not take place on that day. There is no answer where what the answer rests on cannot be read.
pub open spec fn entry(event: ics::EventModel, today: Date) -> Option<Option<DayEventModel>> {
    if day_part(event.dtstart) is None {
        None
    } else {
        match start_day(event.dtstart) {
            None => Some(None),
            Some(start) => match takes_place(event, start, today) {
                None => None,
                Some(false) => Some(None),
                Some(true) => if event.dtstart_is_date {
                    Some(Some(on_day(event, None)))
                } else if time_readable(event.dtstart) {
                    Some(Some(on_day(event, start_time(event.dtstart))))
                } else {
                    None
                },
            },
        }
    }
}

/// What the events put on the list of the day `today`, in the order of the events.
pub open spec fn entries(events: Seq<ics::EventModel>, today: Date) -> Option<Seq<DayEventModel>>
    decreases events.len(),
{
    if events.len() == 0 {
        Some(Seq::empty())
    } else {
        match (entries(events.drop_last(), today), entry(events.last(), today)) {
            (Some(before), Some(Some(e))) => Some(before.push(e)),
            (Some(before), Some(None)) => Some(before),
            _ => None,
        }
    }
}

/// The list with `e` put in before the first event that is not earlier.
pub open spec fn put_in(list: Seq<DayEventModel>, e: DayEventModel) -> Seq<DayEventModel>
    decreases list.len(),
{
    if list.len() == 0 || e.time.key() <= list[0].time.key() {
        seq![e] + list
    } else {
        seq![list[0]] + put_in(list.skip(1), e)
    }
}

/// The events by their time, those of the same time in the order in which they stand.
pub open spec fn by_time(events: Seq<DayEventModel>) -> Seq<DayEventModel>
    decreases events.len(),
{
    if events.len() == 0 {
        events
    } else {
        put_in(by_time(events.skip(1)), events[0])
    }
}

/// The list of the day `today`: the events that take place on it, by their time. There is none where
/// what it rests on cannot be read.
pub open spec fn agenda(events: Seq<ics::EventModel>, today: Date) -> Option<Seq<DayEventModel>> {
    match entries(events, today) {
        Some(list) => Some(by_time(list)),
        None => None,
    }
}

/// Whether the excluded days hold the day.
fn excludes(days: &Vec<String>, day: &String) -> (r: bool)
    ensures
        r == text::texts(days@).contains(day@),
{
    let ghost all = text::texts(days@);
    for i in 0..days.len()
        invariant
            all == text::texts(days@),
            forall|k: int| 0 <= k < i ==> #[trigger] all[k] != day@,
    {
        assert(all[i as int] == days@[i as int]@);
        if days[i] == *day {
            return true;
        }
    }
    false
}

/// Whether an event takes place on the day `today`, given the day on which it starts; no answer where
/// the rule cannot be read.
pub fn event_takes_place(event: &IcsEvent, start: Date, today: Date) -> (r: Option<bool>)
    requires
        start.valid(),
        today.valid(),
    ensures
        r == takes_place(event@, start, today),
{
    match &event.rrule {
        Some(rule) => {
            proof {
                lemma_compact_format();
            }
            let today_text: String = dates::format_date(today, "%Y%m%d");
            if excludes(&event.exdates, &today_text) {
                return Some(false);
            }
            recurrence::rrule_matches_checked(start, rule.as_str(), today)
        },
        None => Some(start == today),
    }
}

/// `%Y%m%d` is a date format.
pub proof fn lemma_compact_format()
    ensures
        dates::is_date_format("%Y%m%d"@),
{
    reveal_strlit("%Y%m%d");
}

/// A copy of a string that may be missing.
fn copy_text(s: &Option<String>) -> (r: Option<String>)
    ensures
        ics::opt_text(r) == ics::opt_text(*s),
{
    match s {
        Some(s) => Some(s.clone()),
        None => None,
    }
}

/// The event on its day, at the time `at`, or all day where the event has no time.
pub fn event_on_day(event: &IcsEvent, at: Option<DateTime>) -> (r: DayEvent)
    ensures
        r@ == on_day(event@, at),
{
    DayEvent {
        time: match at {
            Some(t) => EventTime::At(t),
            None => EventTime::AllDay,
        },
        summary: event.summary.clone(),
        location: copy_text(&event.location),
    }
}

/// What an event puts on the list of the day `today`; no answer where what the answer rests on cannot
/// be read.
pub fn event_entry(event: &IcsEvent, today: Date) -> (r: Option<Option<DayEvent>>)
    requires
        today.valid(),
    ensures
        r is Some <==> entry(event@, today) is Some,
        r matches Some(None) ==> entry(event@, today) == Some(None::<DayEventModel>),
        r matches Some(Some(e)) ==> entry(event@, today) == Some(Some(e@)) && e.time.valid(),
{
    let start: Date = match parse_dtstart_date_checked(event.dtstart.as_str()) {
        None => {
            return None;
        },
        Some(None) => {
            return Some(None);
        },
        Some(Some(day)) => day,
    };
    match event_takes_place(event, start, today) {
        None => None,
        Some(false) => Some(None),
        Some(true) => {
            if event.dtstart_is_date {
                return Some(Some(event_on_day(event, None)));
            }
            match parse_dtstart_datetime_checked(event.dtstart.as_str()) {
                None => None,
                Some(at) => Some(Some(event_on_day(event, at))),
            }
        },
    }
}

/// The events by their time, those of the same time in the order in which they stand.
pub fn sort_by_time(events: Vec<DayEvent>) -> (r: Vec<DayEvent>)
    requires
        valid_times(day_models(events@)),
    ensures
        day_models(r@) == by_time(day_models(events@)),
        valid_times(day_models(r@)),
{
    let ghost all = day_models(events@);
    let mut rest: Vec<DayEvent> = events;
    let mut r: Vec<DayEvent> = Vec::new();
    assert(all.skip(all.len() as int) == Seq::<DayEventModel>::empty());
    assert(day_models(r@) == Seq::<DayEventModel>::empty());
    assert(all.take(all.len() as int) == all);
    while rest.len() > 0
        invariant
            valid_times(all),
            rest@.len() <= all.len(),
            day_models(rest@) == all.take(rest@.len() as int),
            day_models(r@) == by_time(all.skip(rest@.len() as int)),
            valid_times(day_models(r@)),
        decreases rest@.len(),
    {
        let ghost n = rest@.len() as int;
        let ghost before = rest@;
        let e: DayEvent = rest.pop().unwrap();
        let ghost list = day_models(r@);
        proof {
            assert(day_models(before)[n - 1] == e@);
            assert(all[n - 1] == e@);
            assert(day_models(rest@) == day_models(before).take(n - 1));
            assert(all.take(n).take(n - 1) == all.take(n - 1));
            assert(all.skip(n - 1).skip(1) == all.skip(n));
            assert(all.skip(n - 1)[0] == e@);
        }
        let key: i64 = e.sort_key();
        let mut i: usize = 0;
        assert forall|k: int| 0 <= k < r@.len() implies (#[trigger] r@[k]).time.valid() by {
            assert(list[k].time == r@[k].time);
        }
        assert(list.skip(0) == list);
        assert(list.take(0) + put_in(list, e@) == put_in(list, e@));
        while i < r.len() && r[i].sort_key() < key
            invariant
                i <= r@.len(),
                list == day_models(r@),
                valid_times(list),
                key == e@.time.key(),
                forall|k: int| 0 <= k < r@.len() ==> (#[trigger] r@[k]).time == list[k].time,
                forall|k: int| 0 <= k < r@.len() ==> (#[trigger] r@[k]).time.valid(),
                list.take(i as int) + put_in(list.skip(i as int), e@) == put_in(list, e@),
            decreases r@.len() - i,
        {
            assert(r@[i as int].time == list[i as int].time);
            assert(list.skip(i as int)[0] == list[i as int]);
            assert(list.skip(i as int).skip(1) == list.skip(i + 1));
            assert(list.take(i + 1) + put_in(list.skip(i + 1), e@) == list.take(i as int) + (
            seq![list[i as int]] + put_in(list.skip(i + 1), e@)));
            i += 1;
        }
        proof {
            if i < r@.len() {
                assert(list.skip(i as int)[0] == list[i as int]);
            }
            assert(list.take(i as int) + (seq![e@] + list.skip(i as int)) == list.insert(
                i as int,
                e@,
            ));
        }
        r.insert(i, e);
        assert(day_models(r@) == list.insert(i as int, e@));
    }
    assert(all.skip(0) == all);
    r
}

/// The list of the day `today`; none where what it rests on cannot be read.
pub fn events_for_today_checked(events: &[IcsEvent], today: Date) -> (r: Option<Vec<DayEvent>>)
    requires
        today.valid(),
    ensures
        r is Some <==> agenda(ics::models(events@), today) is Some,
        r matches Some(list) ==> agenda(ics::models(events@), today) == Some(day_models(list@))
            && valid_times(day_models(list@)),
{
    let ghost all = ics::models(events@);
    let mut list: Vec<DayEvent> = Vec::new();
    assert(day_models(list@) == Seq::<DayEventModel>::empty());
    let mut i: usize = 0;
    while i < events.len()
        invariant
            i <= events@.len(),
            today.valid(),
            all == ics::models(events@),
            entries(all.take(i as int), today) == Some(day_models(list@)),
            valid_times(day_models(list@)),
        decreases events@.len() - i,
    {
        assert(all.take(i + 1).drop_last() == all.take(i as int));
        assert(all.take(i + 1).last() == events@[i as int]@);
        match event_entry(&events[i], today) {
            None => {
                proof {
                    lemma_no_entries(all, i + 1, today);
                }
                return None;
            },
            Some(None) => {},
            Some(Some(e)) => {
                let ghost before = day_models(list@);
                list.push(e);
                assert(day_models(list@) == before.push(e@));
            },
        }
        i += 1;
    }
    assert(all.take(all.len() as int) == all);
    Some(sort_by_time(list))
}

/// Where the entries of the first events cannot be read, those of all of them cannot.
proof fn lemma_no_entries(events: Seq<ics::EventModel>, n: int, today: Date)
    requires
        0 <= n <= events.len(),
        entries(events.take(n), today) is None,
    ensures
        entries(events, today) is None,
    decreases events.len(),
{
    if n < events.len() {
        assert(events.drop_last().take(n) == events.take(n));
        lemma_no_entries(events.drop_last(), n, today);
    } else {
        assert(events.take(n) == events);
    }
}

/// The list of the day `today`: the events that take place on it, by their time.
pub fn events_for_today(events: &[IcsEvent], today: Date) -> (r: Vec<DayEvent>)
    requires
        today.valid(),
        agenda(ics::models(events@), today) is Some,
    ensures
        agenda(ics::models(events@), today) == Some(day_models(r@)),
        valid_times(day_models(r@)),
{
    events_for_today_checked(events, today).unwrap()
}

/// Whether the list is in the order of time.
pub open spec fn is_by_time(list: Seq<DayEventModel>) -> bool {
    forall|i: int, j: int|
        0 <= i <= j < list.len() ==> (#[trigger] list[i]).time.key() <= (
        #[trigger] list[j]).time.key()
}

/// The events of the list that have the given place in the order of time, as they stand.
pub open spec fn at_key(list: Seq<DayEventModel>, key: int) -> Seq<DayEventModel>
    decreases list.len(),
{
    if list.len() == 0 {
        list
    } else if list[0].time.key() == key {
        seq![list[0]] + at_key(list.skip(1), key)
    } else {
        at_key(list.skip(1), key)
    }
}

/// Putting an event into a list that is in the order of time keeps the order, puts the event before
/// those of the same time, and changes nothing else.
proof fn lemma_put_in(list: Seq<DayEventModel>, e: DayEventModel)
    requires
        is_by_time(list),
    ensures
        is_by_time(put_in(list, e)),
        put_in(list, e).len() == list.len() + 1,
        put_in(list, e)[0].time.key() == if list.len() == 0 || e.time.key()
            <= list[0].time.key() {
            e.time.key()
        } else {
            list[0].time.key()
        },
        forall|key: int| #[trigger]
            at_key(put_in(list, e), key) == if e.time.key() == key {
                seq![e] + at_key(list, key)
            } else {
                at_key(list, key)
            },
    decreases list.len(),
{
    let r = put_in(list, e);
    if list.len() == 0 || e.time.key() <= list[0].time.key() {
        assert(r.skip(1) == list);
        assert forall|i: int, j: int| 0 <= i <= j < r.len() implies (#[trigger] r[i]).time.key()
            <= (#[trigger] r[j]).time.key() by {
            if i > 0 {
                assert(r[i] == list[i - 1] && r[j] == list[j - 1]);
            } else if j > 0 {
                assert(r[j] == list[j - 1]);
                assert(list[0].time.key() <= list[j - 1].time.key());
            }
        }
    } else {
        let rest = list.skip(1);
        assert forall|i: int, j: int| 0 <= i <= j < rest.len() implies (
        #[trigger] rest[i]).time.key() <= (#[trigger] rest[j]).time.key() by {
            assert(rest[i] == list[i + 1] && rest[j] == list[j + 1]);
        }
        lemma_put_in(rest, e);
        let tail = put_in(rest, e);
        assert(r.skip(1) == tail);
        assert(r[0] == list[0]);
        if rest.len() > 0 {
            assert(rest[0] == list[1]);
            assert(list[0].time.key() <= list[1].time.key());
        }
        assert(r[0].time.key() <= tail[0].time.key());
        assert forall|i: int, j: int| 0 <= i <= j < r.len() implies (#[trigger] r[i]).time.key()
            <= (#[trigger] r[j]).time.key() by {
            if i > 0 {
                assert(r[i] == tail[i - 1] && r[j] == tail[j - 1]);
            } else if j > 0 {
                assert(r[j] == tail[j - 1]);
                assert(tail[0].time.key() <= tail[j - 1].time.key());
            }
        }
        assert forall|key: int| #[trigger]
            at_key(r, key) == if e.time.key() == key {
                seq![e] + at_key(list, key)
            } else {
                at_key(list, key)
            } by {
            assert(at_key(tail, key) == if e.time.key() == key {
                seq![e] + at_key(rest, key)
            } else {
                at_key(rest, key)
            });
            if e.time.key() == key {
                assert(list[0].time.key() < key);
            }
        }
    }
}

/// A day's list is in the order of time, and the events of the same time stand in it as they were
/// given: nothing is lost, nothing is added, and no two of them change places.
pub proof fn lemma_by_time_is_stable(events: Seq<DayEventModel>)
    ensures
        is_by_time(by_time(events)),
        by_time(events).len() == events.len(),
        forall|key: int| #[trigger] at_key(by_time(events), key) == at_key(events, key),
    decreases events.len(),
{
    if events.len() > 0 {
        lemma_by_time_is_stable(events.skip(1));
        lemma_put_in(by_time(events.skip(1)), events[0]);
        assert forall|key: int| #[trigger] at_key(by_time(events), key) == at_key(events, key) by {
            assert(at_key(by_time(events.skip(1)), key) == at_key(events.skip(1), key));
        }
    }
}

/// A list that is in the order of time stays as it is when it is put in the order of time.
pub proof fn lemma_by_time_again(list: Seq<DayEventModel>)
    requires
        is_by_time(list),
    ensures
        by_time(list) == list,
    decreases list.len(),
{
    if list.len() > 0 {
        let rest = list.skip(1);
        assert forall|i: int, j: int| 0 <= i <= j < rest.len() implies (
        #[trigger] rest[i]).time.key() <= (#[trigger] rest[j]).time.key() by {
            assert(rest[i] == list[i + 1] && rest[j] == list[j + 1]);
        }
        lemma_by_time_again(rest);
        if rest.len() > 0 {
            assert(rest[0] == list[1]);
            assert(list[0].time.key() <= list[1].time.key());
        }
        assert(seq![list[0]] + rest == list);
    }
}

/// Events that have no time stand behind all that have one.
pub proof fn lemma_all_day_last(events: Seq<DayEventModel>, i: int, j: int)
    requires
        valid_times(events),
        0 <= i < j < events.len(),
    ensures
        by_time(events).len() == events.len(),
        by_time(events)[i].time is AllDay ==> by_time(events)[j].time is AllDay,
{
    let list = by_time(events);
    lemma_by_time_is_stable(events);
    lemma_from_list(events, j);
    if list[i].time is AllDay {
        assert(list[i].time.key() <= list[j].time.key());
        if let EventTime::At(t) = list[j].time {
            assert(t.valid());
            dates::lemma_in_range(t.date);
            dates::lemma_range_bounds();
        }
    }
}

/// Every event of a sorted list is one of the events that were sorted.
proof fn lemma_from_list(events: Seq<DayEventModel>, j: int)
    requires
        0 <= j < by_time(events).len(),
    ensures
        events.contains(by_time(events)[j]),
    decreases events.len(),
{
    if events.len() > 0 {
        let rest = events.skip(1);
        lemma_put_in_from(by_time(rest), events[0], j);
        let e = by_time(events)[j];
        if e == events[0] {
            assert(events[0] == e);
        } else {
            let k = choose|k: int| 0 <= k < by_time(rest).len() && by_time(rest)[k] == e;
            lemma_from_list(rest, k);
            let m = choose|m: int| 0 <= m < rest.len() && rest[m] == e;
            assert(events[m + 1] == e);
        }
    }
}

/// What stands in a list into which an event was put is that event, or stood in the list.
proof fn lemma_put_in_from(list: Seq<DayEventModel>, e: DayEventModel, j: int)
    requires
        0 <= j < put_in(list, e).len(),
    ensures
        put_in(list, e)[j] == e || list.contains(put_in(list, e)[j]),
    decreases list.len(),
{
    let r = put_in(list, e);
    if list.len() == 0 || e.time.key() <= list[0].time.key() {
        if j > 0 {
            assert(r[j] == list[j - 1]);
        }
    } else if j > 0 {
        let rest = list.skip(1);
        lemma_put_in_from(rest, e, j - 1);
        assert(r[j] == put_in(rest, e)[j - 1]);
        if r[j] != e {
            let k = choose|k: int| 0 <= k < rest.len() && rest[k] == r[j];
            assert(list[k + 1] == r[j]);
        }
    } else {
        assert(r[0] == list[0]);
    }
}

/// The list of the day `today`, ready to be posted; none where what it rests on cannot be read.
pub fn todays_events(events: &[IcsEvent], today: Date) -> (r: Option<Vec<DayEvent>>)
    requires
        today.valid(),
    ensures
        r is Some <==> agenda(ics::models(events@), today) is Some,
        r matches Some(list) ==> agenda(ics::models(events@), today) == Some(day_models(list@))
            && valid_times(day_models(list@)),
{
    match events_for_today_checked(events, today) {
        Some(list) => {
            proof {
                let found = entries(ics::models(events@), today)->0;
                lemma_by_time_is_stable(found);
                lemma_by_time_again(by_time(found));
            }
            Some(sort_by_time(list))
        },
        None => None,
    }
}

/// The models of the lists of several days.
pub open spec fn list_models(lists: Seq<(Date, Vec<DayEvent>)>) -> Seq<(Date, Seq<DayEventModel>)> {
    lists.map_values(|l: (Date, Vec<DayEvent>)| (l.0, day_models(l.1@)))
}

/// Whether the lists of `count` days from `first` on can be made.
pub open spec fn lists_exist(events: Seq<ics::EventModel>, first: Date, count: int) -> bool {
    forall|day: Date|
        day.valid() && first.number() <= day.number() < first.number() + count ==> #[trigger] agenda(
            events,
            day,
        ) is Some
}

/// Whether `lists` are the lists of the `count` days from `first` on, one for each day, in the order
/// of the days.
pub open spec fn are_lists(
    lists: Seq<(Date, Seq<DayEventModel>)>,
    events: Seq<ics::EventModel>,
    first: Date,
    count: int,
) -> bool {
    &&& lists.len() == count
    &&& forall|i: int|
        0 <= i < count ==> {
            &&& (#[trigger] lists[i]).0.valid()
            &&& lists[i].0.number() == first.number() + i
            &&& agenda(events, lists[i].0) == Some(lists[i].1)
            &&& valid_times(lists[i].1)
        }
}

/// The lists of `count` days from `first` on; none where one of them cannot be made.
fn lists_of_days(events: &[IcsEvent], first: Date, count: i64) -> (r: Option<
    Vec<(Date, Vec<DayEvent>)>,
>)
    requires
        first.valid(),
        0 < count,
        dates::in_range(first.number() + count - 1),
    ensures
        r is Some <==> lists_exist(ics::models(events@), first, count as int),
        r matches Some(lists) ==> are_lists(
            list_models(lists@),
            ics::models(events@),
            first,
            count as int,
        ),
{
    let ghost all = ics::models(events@);
    let mut lists: Vec<(Date, Vec<DayEvent>)> = Vec::new();
    let mut i: i64 = 0;
    proof {
        dates::lemma_in_range(first);
    }
    while i < count
        invariant
            0 <= i <= count,
            first.valid(),
            all == ics::models(events@),
            dates::in_range(first.number()),
            dates::in_range(first.number() + count - 1),
            are_lists(list_models(lists@), all, first, i as int),
        decreases count - i,
    {
        let day: Date = dates::plus_days(first, i);
        match todays_events(events, day) {
            None => {
                assert(agenda(all, day) is None);
                return None;
            },
            Some(list) => {
                let ghost before = list_models(lists@);
                lists.push((day, list));
                assert(list_models(lists@) == before.push((day, day_models(list@))));
            },
        }
        i += 1;
    }
    proof {
        let made = list_models(lists@);
        assert forall|day: Date|
            day.valid() && first.number() <= day.number() < first.number()
                + count implies #[trigger] agenda(all, day) is Some by {
            let k = day.number() - first.number();
            assert(made[k].0.number() == first.number() + k);
            dates::lemma_order(day, made[k].0);
        }
    }
    Some(lists)
}

/// The first day of a fetch for the day `today`, and the day behind the last.
pub fn day_window(today: Date) -> (r: (Date, Date))
    requires
        today.valid(),
        dates::in_range(today.number() + 1),
    ensures
        r.0 == today,
        r.1.valid(),
        r.1.number() == today.number() + 1,
{
    (today, dates::plus_days(today, 1))
}

/// The first day of a fetch for the seven days from `week_start` on, and the day behind the last.
pub fn week_window(week_start: Date) -> (r: (Date, Date))
    requires
        week_start.valid(),
        dates::in_range(week_start.number() + 7),
    ensures
        r.0 == week_start,
        r.1.valid(),
        r.1.number() == week_start.number() + 7,
{
    (week_start, dates::plus_days(week_start, 7))
}

/// The first day of a fetch for the month of the day, and the day behind the month's last.
pub fn month_window(month_start: Date) -> (r: (Date, Date))
    requires
        month_start.valid(),
        dates::month_reached(month_start.year as int, month_start.month as int),
    ensures
        r.0 == (Date { year: month_start.year, month: month_start.month, day: 1 }),
        r.1 == dates::next_month_first(month_start.year as int, month_start.month as int),
        r.1.valid(),
{
    let first: Date = dates::from_ymd_opt(month_start.year, month_start.month, 1).unwrap();
    (first, dates::first_of_next_month(first.year, first.month))
}

/// The lists of the seven days from `week_start` on; none where one of them cannot be made.
pub fn week_events(events: &[IcsEvent], week_start: Date) -> (r: Option<
    Vec<(Date, Vec<DayEvent>)>,
>)
    requires
        week_start.valid(),
        dates::in_range(week_start.number() + 6),
    ensures
        r is Some <==> lists_exist(ics::models(events@), week_start, 7),
        r matches Some(lists) ==> are_lists(
            list_models(lists@),
            ics::models(events@),
            week_start,
            7,
        ),
{
    lists_of_days(events, week_start, 7)
}

/// The first day of the month of a day.
pub open spec fn first_of_month(d: Date) -> Date {
    Date { year: d.year, month: d.month, day: 1 }
}

/// The lists of all days of the month of the day; none where one of them cannot be made.
pub fn month_events(events: &[IcsEvent], month_start: Date) -> (r: Option<
    Vec<(Date, Vec<DayEvent>)>,
>)
    requires
        month_start.valid(),
        dates::month_reached(month_start.year as int, month_start.month as int),
    ensures
        r is Some <==> lists_exist(
            ics::models(events@),
            first_of_month(month_start),
            dates::days_in_month(month_start.year as int, month_start.month as int),
        ),
        r matches Some(lists) ==> are_lists(
            list_models(lists@),
            ics::models(events@),
            first_of_month(month_start),
            dates::days_in_month(month_start.year as int, month_start.month as int),
        ),
{
    let (first, next_month_first): (Date, Date) = month_window(month_start);
    let days_in_month: i64 = dates::days_since(next_month_first, first);
    proof {
        let length = dates::days_in_month(first.year as int, first.month as int);
        dates::lemma_last_of_month(first.year as int, first.month as int);
        dates::lemma_in_range(Date { day: length as u32, ..first });
    }
    lists_of_days(events, first, days_in_month)
}

/// In the lists of a month the list at position `i` is that of the day `i + 1`.
pub proof fn lemma_month_lists_by_day(
    lists: Seq<(Date, Seq<DayEventModel>)>,
    events: Seq<ics::EventModel>,
    month_start: Date,
    i: int,
)
    requires
        month_start.valid(),
        are_lists(
            lists,
            events,
            first_of_month(month_start),
            dates::days_in_month(month_start.year as int, month_start.month as int),
        ),
        0 <= i < lists.len(),
    ensures
        lists[i].0 == (Date { day: (i + 1) as u32, ..month_start }),
{
    let day = Date { day: (i + 1) as u32, ..month_start };
    assert(lists[i].0.valid());
    dates::lemma_order(lists[i].0, day);
}

}

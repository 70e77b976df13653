//! What holds of the days on which events take place.

use crate::agenda;
use crate::dates;
use crate::dates::{Date, DateTime};
use crate::ics;
use crate::ics_laws;
use crate::recurrence;
use crate::recurrence_laws;
use crate::text;
use vstd::prelude::*;

verus! {

/// How many numbers there are with `width` decimal digits.
pub open spec fn power_of_ten(width: nat) -> nat
    decreases width,
{
    if width == 0 {
        1
    } else {
        10 * power_of_ten((width - 1) as nat)
    }
}

/// A digit is worth what it was made for.
proof fn lemma_digit(n: int)
    requires
        0 <= n,
    ensures
        dates::is_digit(dates::digit(n)),
        dates::digit_value(dates::digit(n)) == n % 10,
{
}

/// A number that is written in decimal with zeros in front is read back.
pub proof fn lemma_padded(n: nat, width: nat)
    requires
        n < power_of_ten(width),
    ensures
        dates::zero_padded(n, width).len() == width,
        dates::all_digits(dates::zero_padded(n, width)),
        dates::digits_value(dates::zero_padded(n, width)) == n,
    decreases width,
{
    if width > 0 {
        let front = dates::zero_padded(n / 10, (width - 1) as nat);
        lemma_padded(n / 10, (width - 1) as nat);
        lemma_digit(n as int);
        let whole = dates::zero_padded(n, width);
        assert(whole == front.push(dates::digit(n as int)));
        assert(whole.drop_last() == front);
    }
}

/// The characters of the format in which calendars write days.
pub proof fn lemma_compact_text(d: Date)
    requires
        d.valid(),
        0 <= d.year <= 9999,
    ensures
        dates::date_text(d, "%Y%m%d"@) == dates::zero_padded(d.year as nat, 4)
            + dates::zero_padded(d.month as nat, 2) + dates::zero_padded(d.day as nat, 2),
{
    reveal_strlit("%Y%m%d");
    let fmt = "%Y%m%d"@;
    assert(fmt.len() == 6);
    let rest = fmt.skip(2).skip(2);
    assert(fmt.skip(2)[0] == '%' && fmt.skip(2)[1] == 'm');
    assert(rest[0] == '%' && rest[1] == 'd');
    assert(rest.skip(2).len() == 0);
    assert(dates::date_text(d, rest.skip(2)) == Seq::<char>::empty());
    let y = dates::zero_padded(d.year as nat, 4);
    let m = dates::zero_padded(d.month as nat, 2);
    let e = dates::zero_padded(d.day as nat, 2);
    assert(dates::date_text(d, rest) == e);
    assert(dates::date_text(d, fmt.skip(2)) == m + e);
    assert(fmt[0] == '%' && fmt[1] == 'Y');
    assert(dates::date_text(d, fmt) == y + (m + e));
    assert(y + (m + e) == y + m + e);
}

/// A day that is written as calendars write days is read as that day, for the years with four
/// digits.
pub proof fn lemma_day_read_back(d: Date)
    requires
        d.valid(),
        0 <= d.year <= 9999,
    ensures
        dates::is_compact_date(dates::date_text(d, "%Y%m%d"@)),
        dates::date_in(dates::date_text(d, "%Y%m%d"@)) == Some((d.year, d.month, d.day)),
{
    reveal_with_fuel(power_of_ten, 5);
    lemma_compact_text(d);
    lemma_padded(d.year as nat, 4);
    lemma_padded(d.month as nat, 2);
    lemma_padded(d.day as nat, 2);
    let y = dates::zero_padded(d.year as nat, 4);
    let m = dates::zero_padded(d.month as nat, 2);
    let e = dates::zero_padded(d.day as nat, 2);
    let s = y + m + e;
    assert(s.subrange(0, 4) == y);
    assert(s.subrange(4, 6) == m);
    assert(s.subrange(6, 8) == e);
    assert forall|i: int| 0 <= i < 8 implies dates::is_digit(#[trigger] s[i]) by {
        if i < 4 {
            assert(s[i] == y[i]);
        } else if i < 6 {
            assert(s[i] == m[i - 4]);
        } else {
            assert(s[i] == e[i - 6]);
        }
    }
}

/// No two days are written alike, for the years with four digits.
pub proof fn lemma_days_written_apart(a: Date, b: Date)
    requires
        a.valid(),
        b.valid(),
        0 <= a.year <= 9999,
        0 <= b.year <= 9999,
        dates::date_text(a, "%Y%m%d"@) == dates::date_text(b, "%Y%m%d"@),
    ensures
        a == b,
{
    lemma_day_read_back(a);
    lemma_day_read_back(b);
}

/// A rule that was written with a frequency and a list of days is read as that frequency and those
/// days, without a last day.
pub proof fn lemma_rule_read_back(freq: Seq<char>, days: Seq<Seq<char>>)
    requires
        !freq.contains(';'),
        days.len() > 0,
        forall|i: int|
            0 <= i < days.len() ==> !(#[trigger] days[i]).contains(',') && !days[i].contains(';'),
    ensures
        recurrence::rule_of(
            text::joined(
                seq!["FREQ="@ + freq, "BYDAY="@ + text::joined(days, seq![','])],
                seq![';'],
            ),
        ) == Some(recurrence::RuleModel { freq, byday: Some(days), until: None }),
{
    reveal_strlit("FREQ=");
    reveal_strlit("BYDAY=");
    reveal_strlit("UNTIL=");
    let list = text::joined(days, seq![',']);
    let first = "FREQ="@ + freq;
    let second = "BYDAY="@ + list;
    let parts = seq![first, second];
    text::lemma_split_undoes_joining(days, ',');
    text::lemma_joined_without(days, seq![','], ';');
    assert(!first.contains(';')) by {
        if first.contains(';') {
            let i = choose|i: int| 0 <= i < first.len() && first[i] == ';';
            assert(i >= 5);
            assert(freq[i - 5] == ';');
        }
    }
    assert(!second.contains(';')) by {
        if second.contains(';') {
            let i = choose|i: int| 0 <= i < second.len() && second[i] == ';';
            assert(i >= 6);
            assert(list[i - 6] == ';');
        }
    }
    text::lemma_split_undoes_joining(parts, ';');
    assert(first.subrange(0, 5) == "FREQ="@);
    assert(second.subrange(0, 6) == "BYDAY="@);
    assert(first.skip(5) == freq);
    assert(second.skip(6) == list);
    assert(first[0] == 'F' && second[0] == 'B');
    lemma_key_at_front("FREQ="@, second);
    lemma_key_at_front("BYDAY="@, first);
    lemma_key_at_front("UNTIL="@, first);
    lemma_key_at_front("UNTIL="@, second);
    let front = parts.drop_last();
    assert(front == seq![first]);
    assert(front.drop_last().len() == 0);
    assert(parts.last() == second && front.last() == first);
    assert(recurrence::last_value(parts, "BYDAY="@) == Some(list));
    assert(recurrence::last_value(parts, "FREQ="@) == recurrence::last_value(front, "FREQ="@));
    assert(recurrence::last_value(front, "FREQ="@) == Some(freq));
    assert(recurrence::last_value(front.drop_last(), "UNTIL="@) is None);
    assert(recurrence::last_value(front, "UNTIL="@) is None);
    assert(recurrence::last_value(parts, "UNTIL="@) is None);
}

/// A text that begins with a key begins with its first character.
pub proof fn lemma_key_at_front(key: Seq<char>, s: Seq<char>)
    requires
        key.len() > 0,
    ensures
        key.is_prefix_of(s) ==> s[0] == key[0],
{
    if key.is_prefix_of(s) {
        assert(s.subrange(0, key.len() as int)[0] == key[0]);
    }
}

/// An event does not take place before it first does.
pub proof fn lemma_not_before_the_start(start: Date, rule: Seq<char>, today: Date)
    requires
        today.before(start),
    ensures
        recurrence::occurs(start, rule, today) == Some(false),
{
}

/// An event does not take place behind the last day that its rule names.
pub proof fn lemma_not_behind_the_end(start: Date, rule: recurrence::RuleModel, today: Date)
    requires
        rule.until matches Some(last) && last.before(today),
    ensures
        recurrence::recurs(start, rule, today) == Some(false),
{
}

/// Whether the rule names no last day before `today`.
pub open spec fn not_ended(rule: recurrence::RuleModel, today: Date) -> bool {
    rule.until matches Some(last) ==> !last.before(today)
}

/// The words for how often an event recurs differ.
pub proof fn lemma_frequencies_differ()
    ensures
        "WEEKLY"@ != "DAILY"@,
        "MONTHLY"@ != "DAILY"@,
        "MONTHLY"@ != "WEEKLY"@,
        "YEARLY"@ != "DAILY"@,
        "YEARLY"@ != "WEEKLY"@,
        "YEARLY"@ != "MONTHLY"@,
{
    reveal_strlit("DAILY");
    reveal_strlit("WEEKLY");
    reveal_strlit("MONTHLY");
    reveal_strlit("YEARLY");
    assert("DAILY"@.len() == 5 && "MONTHLY"@.len() == 7);
    assert("WEEKLY"@.len() == 6 && "YEARLY"@.len() == 6);
    assert("WEEKLY"@[0] != "YEARLY"@[0]);
}

/// A daily event whose rule lists no days takes place on every day from its first to its last.
pub proof fn lemma_daily(start: Date, rule: recurrence::RuleModel, today: Date)
    requires
        rule.freq == "DAILY"@,
        rule.byday is None,
        not_ended(rule, today),
    ensures
        recurrence::recurs(start, rule, today) == Some(true),
{
}

/// A weekly event whose rule lists no days takes place on every seventh day from its first to its
/// last, and on no other.
pub proof fn lemma_weekly(start: Date, rule: recurrence::RuleModel, today: Date)
    requires
        rule.freq == "WEEKLY"@,
        rule.byday is None,
        not_ended(rule, today),
    ensures
        recurrence::recurs(start, rule, today) == Some(
            (today.number() - start.number()) % 7 == 0,
        ),
{
    lemma_frequencies_differ();
}

/// A monthly event whose rule lists no days takes place on the same day of every month that has it.
pub proof fn lemma_monthly(start: Date, rule: recurrence::RuleModel, today: Date)
    requires
        rule.freq == "MONTHLY"@,
        rule.byday is None,
        not_ended(rule, today),
    ensures
        recurrence::recurs(start, rule, today) == Some(today.day == start.day),
{
    lemma_frequencies_differ();
}

/// A yearly event takes place on the same day of every year that has it, whatever days its rule
/// lists.
pub proof fn lemma_yearly(start: Date, rule: recurrence::RuleModel, today: Date)
    requires
        rule.freq == "YEARLY"@,
        not_ended(rule, today),
    ensures
        recurrence::recurs(start, rule, today) == Some(
            today.month == start.month && today.day == start.day,
        ),
{
    lemma_frequencies_differ();
}

/// A rule that says neither `DAILY`, `WEEKLY`, `MONTHLY` nor `YEARLY` gives no day.
pub proof fn lemma_unknown_frequency(start: Date, rule: recurrence::RuleModel, today: Date)
    requires
        rule.freq != "DAILY"@,
        rule.freq != "WEEKLY"@,
        rule.freq != "MONTHLY"@,
        rule.freq != "YEARLY"@,
    ensures
        recurrence::recurs(start, rule, today) == Some(false),
{
}

/// No two days of the week have the same letters.
pub proof fn lemma_codes_differ(i: int, j: int)
    requires
        0 <= i < 7,
        0 <= j < 7,
    ensures
        recurrence::code(i).len() == 2,
        recurrence::code(i) == recurrence::code(j) ==> i == j,
{
    reveal_strlit("MO");
    reveal_strlit("TU");
    reveal_strlit("WE");
    reveal_strlit("TH");
    reveal_strlit("FR");
    reveal_strlit("SA");
    reveal_strlit("SU");
    if recurrence::code(i) == recurrence::code(j) {
        assert(recurrence::code(i)[0] == recurrence::code(j)[0]);
        assert(recurrence::code(i)[1] == recurrence::code(j)[1]);
    }
}

/// A daily or a weekly event whose rule lists days of the week takes place on exactly the listed days,
/// every week from its first day to its last.
pub proof fn lemma_on_listed_days(
    start: Date,
    rule: recurrence::RuleModel,
    days: Seq<int>,
    today: Date,
)
    requires
        rule.freq == "DAILY"@ || rule.freq == "WEEKLY"@,
        rule.byday matches Some(listed) && listed.len() == days.len() && forall|i: int|
            0 <= i < days.len() ==> 0 <= #[trigger] days[i] < 7 && listed[i] == recurrence::code(
                days[i],
            ),
        not_ended(rule, today),
    ensures
        recurrence::recurs(start, rule, today) == Some(days.contains(today.weekday_index())),
{
    lemma_frequencies_differ();
    let listed = rule.byday->0;
    let w = today.weekday_index();
    assert(0 <= w < 7);
    if days.contains(w) {
        let i = choose|i: int| 0 <= i < days.len() && days[i] == w;
        assert(listed[i].subrange(0, listed[i].len() as int) == listed[i]);
        assert(text::occurs_at(listed[i], recurrence::code(w), 0));
        assert(text::contains_text(listed[i], recurrence::code(w)));
    }
    if recurrence::some_weekly_byday(listed, today) {
        let i = choose|i: int|
            0 <= i < listed.len() && text::contains_text(
                #[trigger] listed[i],
                recurrence::code(w),
            );
        lemma_codes_differ(days[i], w);
        lemma_codes_differ(w, days[i]);
        let k = choose|k: int| text::occurs_at(listed[i], recurrence::code(w), k);
        assert(k == 0);
        assert(listed[i].subrange(0, 2) == listed[i]);
    }
}

/// The days of one name in a month are numbered from 1 on: the first lies in the month's first week,
/// and each of the others comes seven days, and one number, behind the one before.
pub proof fn lemma_numbered_from_start(a: Date, b: Date)
    requires
        a.valid(),
        b.valid(),
        a.year == b.year,
        a.month == b.month,
    ensures
        recurrence::nth_from_start(a) == 1 <==> a.day <= 7,
        a.weekday_index() == b.weekday_index() <==> (b.day - a.day) % 7 == 0,
        b.day == a.day + 7 ==> recurrence::nth_from_start(b) == recurrence::nth_from_start(a) + 1,
        a.weekday_index() == b.weekday_index() && recurrence::nth_from_start(a)
            == recurrence::nth_from_start(b) ==> a == b,
{
    assert(b.number() - a.number() == b.day - a.day);
}

/// Counted from the end, the days of one name in a month are numbered from 1 on: the last lies in the
/// month's last seven days, and each of the others comes seven days before, and one number behind,
/// the one that follows it.
pub proof fn lemma_numbered_from_end(a: Date, b: Date)
    requires
        a.valid(),
        b.valid(),
        a.year == b.year,
        a.month == b.month,
    ensures
        recurrence::nth_from_end(a) == 1 <==> a.day + 7 > dates::days_in_month(
            a.year as int,
            a.month as int,
        ),
        b.day == a.day + 7 ==> recurrence::nth_from_end(a) == recurrence::nth_from_end(b) + 1,
        a.weekday_index() == b.weekday_index() && recurrence::nth_from_end(a)
            == recurrence::nth_from_end(b) ==> a == b,
{
    assert(b.number() - a.number() == b.day - a.day);
}

/// An entry with a number names at most one day of a month.
pub proof fn lemma_numbered_entry_names_one_day(d: Seq<char>, a: Date, b: Date)
    requires
        a.valid(),
        b.valid(),
        a.year == b.year,
        a.month == b.month,
        text::byte_len(d) > 2,
        recurrence::monthly_byday(d, a) == Some(true),
        recurrence::monthly_byday(d, b) == Some(true),
    ensures
        a == b,
{
    let prefix = text::byte_prefix(d, (text::byte_len(d) - 2) as nat)->0;
    lemma_codes_differ(a.weekday_index(), b.weekday_index());
    lemma_prefix_not_empty(d, (text::byte_len(d) - 2) as nat);
    lemma_numbered_from_start(a, b);
    lemma_numbered_from_end(a, b);
    let n = recurrence::number(prefix)->0;
    assert(recurrence::number(prefix) is Some);
    if n <= 0 {
        assert(recurrence::nth_from_end(a) == -n && recurrence::nth_from_end(b) == -n);
    }
}

/// Every month has a first, a second, a third and a fourth day of each name.
pub proof fn lemma_numbered_day_exists(year: i32, month: u32, index: int, n: int) -> (d: Date)
    requires
        dates::valid_ymd(year as int, month as int, 1),
        0 <= index < 7,
        1 <= n <= 4,
    ensures
        d.valid(),
        d.year == year,
        d.month == month,
        d.weekday_index() == index,
        recurrence::nth_from_start(d) == n,
{
    let first = Date { year, month, day: 1 };
    let days = (index - first.weekday_index()) % 7;
    let d = Date { year, month, day: (1 + days + 7 * (n - 1)) as u32 };
    assert(d.number() == first.number() + days + 7 * (n - 1));
    d
}

/// The first bytes of a text, where there are some, hold a character.
proof fn lemma_prefix_not_empty(d: Seq<char>, n: nat)
    requires
        d.len() > 0,
        n > 0,
        text::byte_prefix(d, n) is Some,
    ensures
        text::byte_prefix(d, n)->0.len() > 0,
{
}

/// An event that does not recur takes place on the day on which it starts, and on no other.
pub proof fn lemma_once(event: ics::EventModel, start: Date, today: Date)
    requires
        event.rrule is None,
    ensures
        agenda::takes_place(event, start, today) == Some(start == today),
{
}

/// A recurring event is not on the list of a day that it excludes, whatever its rule says.
pub proof fn lemma_excluded_day_is_free(event: ics::EventModel, start: Date, today: Date)
    requires
        event.rrule is Some,
        event.exdates.contains(dates::date_text(today, "%Y%m%d"@)),
    ensures
        agenda::takes_place(event, start, today) == Some(false),
        !(agenda::entry(event, today) matches Some(Some(_))),
{
}

/// An all-day event that was written with a day is on the list of that day, and only there.
pub proof fn lemma_all_day_event(event: ics::EventModel, day: Date, today: Date)
    requires
        day.valid(),
        0 <= day.year <= 9999,
        event.dtstart == dates::date_text(day, "%Y%m%d"@),
        event.dtstart_is_date,
        event.rrule is None,
    ensures
        agenda::entry(event, today) == Some(
            if day == today {
                Some(agenda::on_day(event, None))
            } else {
                None
            },
        ),
{
    lemma_day_read_back(day);
    let s = event.dtstart;
    assert(s.last() != 'Z') by {
        assert(dates::is_digit(s[7]));
    }
    assert(text::trimmed_end(s, 'Z') == s);
    lemma_ascii_prefix(s, 8);
    assert(s.take(8) == s);
}

/// The first bytes of a text that begins with ASCII characters are its first characters.
pub proof fn lemma_ascii_prefix(s: Seq<char>, n: nat)
    requires
        n <= s.len(),
        forall|i: int| 0 <= i < n ==> #[trigger] s[i] <= '\u{7f}',
    ensures
        text::byte_prefix(s, n) == Some(s.take(n as int)),
    decreases n,
{
    if n > 0 {
        let rest = s.skip(1);
        assert forall|i: int| 0 <= i < n - 1 implies #[trigger] rest[i] <= '\u{7f}' by {
            assert(rest[i] == s[i + 1]);
        }
        lemma_ascii_prefix(rest, (n - 1) as nat);
        assert(seq![s[0]] + rest.take(n - 1) == s.take(n as int));
    } else {
        assert(s.take(0) == Seq::<char>::empty());
    }
}

/// A time as calendars write times.
pub open spec fn time_text(t: DateTime) -> Seq<char> {
    dates::date_text(t.date, "%Y%m%d"@) + seq!['T'] + dates::zero_padded(t.hour as nat, 2)
        + dates::zero_padded(t.minute as nat, 2) + dates::zero_padded(t.second as nat, 2)
}

/// A time that is written as calendars write times is read as that time, for the years with four
/// digits.
pub proof fn lemma_time_read_back(t: DateTime)
    requires
        t.valid(),
        0 <= t.date.year <= 9999,
    ensures
        dates::is_compact_datetime(time_text(t)),
        time_text(t).take(8) == dates::date_text(t.date, "%Y%m%d"@),
        agenda::time_of(dates::time_in(time_text(t))) == Some(t),
{
    reveal_with_fuel(power_of_ten, 5);
    lemma_day_read_back(t.date);
    lemma_padded(t.hour as nat, 2);
    lemma_padded(t.minute as nat, 2);
    lemma_padded(t.second as nat, 2);
    let day = dates::date_text(t.date, "%Y%m%d"@);
    let h = dates::zero_padded(t.hour as nat, 2);
    let m = dates::zero_padded(t.minute as nat, 2);
    let e = dates::zero_padded(t.second as nat, 2);
    let s = time_text(t);
    assert(s.take(8) == day);
    assert(s[8] == 'T');
    assert(s.subrange(9, 11) == h);
    assert(s.subrange(11, 13) == m);
    assert(s.subrange(13, 15) == e);
    let clock = s.skip(9);
    assert forall|i: int| 0 <= i < 6 implies dates::is_digit(#[trigger] clock[i]) by {
        if i < 2 {
            assert(clock[i] == h[i]);
        } else if i < 4 {
            assert(clock[i] == m[i - 2]);
        } else {
            assert(clock[i] == e[i - 4]);
        }
    }
}

/// An event that was written with a time, in universal time or not, is on the list of its day at that
/// time, and only there.
pub proof fn lemma_timed_event(event: ics::EventModel, t: DateTime, today: Date)
    requires
        t.valid(),
        0 <= t.date.year <= 9999,
        event.dtstart == time_text(t) || event.dtstart == time_text(t).push('Z'),
        !event.dtstart_is_date,
        event.rrule is None,
    ensures
        agenda::entry(event, today) == Some(
            if t.date == today {
                Some(agenda::on_day(event, Some(t)))
            } else {
                None
            },
        ),
{
    lemma_time_read_back(t);
    lemma_day_read_back(t.date);
    let s = time_text(t);
    assert(s.last() != 'Z') by {
        assert(dates::is_digit(s.skip(9)[5]));
    }
    assert(s.push('Z').drop_last() == s);
    assert(text::trimmed_end(s, 'Z') == s);
    assert(text::trimmed_end(event.dtstart, 'Z') == s);
    assert forall|i: int| 0 <= i < 15 implies #[trigger] s[i] <= '\u{7f}' by {
        if i < 8 {
            assert(dates::is_digit(s.take(8)[i]));
        } else if i > 8 {
            assert(dates::is_digit(s.skip(9)[i - 9]));
        }
    }
    lemma_ascii_prefix(s, 8);
    lemma_ascii_prefix(s, 15);
    assert(s.take(15) == s);
    text::lemma_bytes_at_least_chars(s);
}

/// What two calendars put on a day's list is what the first does and what the second does.
pub proof fn lemma_calendars_add_up(
    a: Seq<ics::EventModel>,
    b: Seq<ics::EventModel>,
    today: Date,
)
    ensures
        agenda::entries(a + b, today) == match (
            agenda::entries(a, today),
            agenda::entries(b, today),
        ) {
            (Some(first), Some(second)) => Some(first + second),
            _ => None,
        },
    decreases b.len(),
{
    if b.len() == 0 {
        assert(a + b == a);
        if let Some(first) = agenda::entries(a, today) {
            assert(first + Seq::<agenda::DayEventModel>::empty() == first);
        }
    } else {
        lemma_calendars_add_up(a, b.drop_last(), today);
        assert((a + b).drop_last() == a + b.drop_last());
        assert((a + b).last() == b.last());
        if let (Some(first), Some(second)) = (
            agenda::entries(a, today),
            agenda::entries(b.drop_last(), today),
        ) {
            if let Some(Some(e)) = agenda::entry(b.last(), today) {
                assert(first + second.push(e) == (first + second).push(e));
            }
        }
    }
}

/// A recurring event into which an excluded day was written, with or without a time behind it, is not
/// on the list of that day.
pub proof fn lemma_written_exclusion(lines: Seq<Seq<char>>, day: Date, rest: Seq<char>, start: Date)
    requires
        day.valid(),
        0 <= day.year <= 9999,
        ics::event_of(lines).rrule is Some,
    ensures
        ({
            let line = "EXDATE"@ + seq![':'] + (dates::date_text(day, "%Y%m%d"@) + rest);
            let event = ics::event_of(lines.push(line));
            &&& ics::readable_line(line)
            &&& event.exdates == ics::event_of(lines).exdates.push(
                dates::date_text(day, "%Y%m%d"@),
            )
            &&& event.rrule == ics::event_of(lines).rrule
            &&& agenda::takes_place(event, start, day) == Some(false)
        }),
{
    reveal_strlit("EXDATE");
    reveal_strlit("RRULE");
    let text = dates::date_text(day, "%Y%m%d"@);
    let value = text + rest;
    let line = "EXDATE"@ + seq![':'] + value;
    let event = ics::event_of(lines.push(line));
    assert("EXDATE"@ =~= seq!['E', 'X', 'D', 'A', 'T', 'E']);
    ics_laws::lemma_property_read_back("EXDATE"@, value);
    lemma_day_read_back(day);
    assert forall|i: int| 0 <= i < 8 implies #[trigger] value[i] <= '\u{7f}' by {
        assert(value[i] == text[i]);
    }
    lemma_ascii_prefix(value, 8);
    assert(value.take(8) == text);
    assert(lines.push(line).drop_last() == lines);
    assert("EXDATE"@ != "RRULE"@);
    assert(event.exdates.last() == text);
}

/// An event that was written as a calendar with a day and no time is on the list of that day, and
/// only there; the calendar can be read where each line of the event can.
pub proof fn lemma_written_day_is_listed(
    lines: Seq<(Seq<char>, Seq<(int, Seq<char>)>)>,
    end: Seq<char>,
    group: Seq<Seq<char>>,
    day: Date,
    today: Date,
)
    requires
        ics_laws::are_lines(lines),
        ics_laws::is_line_end(end),
        ics_laws::flat_lines(lines) == seq!["BEGIN:VEVENT"@] + group + seq!["END:VEVENT"@],
        !group.contains("BEGIN:VEVENT"@),
        !group.contains("END:VEVENT"@),
        day.valid(),
        0 <= day.year <= 9999,
        ics::event_of(group).dtstart == dates::date_text(day, "%Y%m%d"@),
        ics::event_of(group).dtstart_is_date,
        ics::event_of(group).rrule is None,
    ensures
        ics::is_readable(ics_laws::written(lines, end)) == ics_laws::lines_readable(group),
        agenda::agenda(ics::events_of(ics_laws::written(lines, end)), today) == Some(
            if day == today {
                seq![agenda::on_day(ics::event_of(group), None)]
            } else {
                Seq::empty()
            },
        ),
{
    lemma_day_read_back(day);
    ics_laws::lemma_calendar_read_back(lines, end, group);
    lemma_all_day_event(ics::event_of(group), day, today);
    lemma_list_of_one(ics::event_of(group), today);
}

/// An event that was written as a calendar with a time is on the list of its day at that time, and
/// only there; the calendar can be read where each line of the event can.
pub proof fn lemma_written_time_is_listed(
    lines: Seq<(Seq<char>, Seq<(int, Seq<char>)>)>,
    end: Seq<char>,
    group: Seq<Seq<char>>,
    t: DateTime,
    today: Date,
)
    requires
        ics_laws::are_lines(lines),
        ics_laws::is_line_end(end),
        ics_laws::flat_lines(lines) == seq!["BEGIN:VEVENT"@] + group + seq!["END:VEVENT"@],
        !group.contains("BEGIN:VEVENT"@),
        !group.contains("END:VEVENT"@),
        t.valid(),
        0 <= t.date.year <= 9999,
        ics::event_of(group).dtstart == time_text(t) || ics::event_of(group).dtstart == time_text(
            t,
        ).push('Z'),
        !ics::event_of(group).dtstart_is_date,
        ics::event_of(group).rrule is None,
    ensures
        ics::is_readable(ics_laws::written(lines, end)) == ics_laws::lines_readable(group),
        agenda::agenda(ics::events_of(ics_laws::written(lines, end)), today) == Some(
            if t.date == today {
                seq![agenda::on_day(ics::event_of(group), Some(t))]
            } else {
                Seq::empty()
            },
        ),
{
    lemma_time_read_back(t);
    ics_laws::lemma_calendar_read_back(lines, end, group);
    lemma_timed_event(ics::event_of(group), t, today);
    lemma_list_of_one(ics::event_of(group), today);
}

/// The list of a single event holds what the event puts on it.
pub proof fn lemma_list_of_one(event: ics::EventModel, today: Date)
    requires
        agenda::entry(event, today) is Some,
    ensures
        agenda::agenda(seq![event], today) == Some(
            match agenda::entry(event, today)->0 {
                Some(e) => seq![e],
                None => Seq::empty(),
            },
        ),
{
    let events = seq![event];
    assert(events.drop_last() == Seq::<ics::EventModel>::empty());
    assert(agenda::entries(events.drop_last(), today) == Some(
        Seq::<agenda::DayEventModel>::empty(),
    ));
    match agenda::entry(event, today)->0 {
        Some(e) => {
            let list = seq![e];
            assert(Seq::<agenda::DayEventModel>::empty().push(e) == list);
            assert(agenda::entries(events, today) == Some(list));
            agenda::lemma_by_time_again(list);
        },
        None => {
            assert(agenda::by_time(Seq::empty()) == Seq::<agenda::DayEventModel>::empty());
        },
    }
}

/// A start that begins with a day, whatever stands behind it, is a start on that day.
pub proof fn lemma_start_day_read_back(day: Date, rest: Seq<char>)
    requires
        day.valid(),
        0 <= day.year <= 9999,
    ensures
        agenda::day_part(dates::date_text(day, "%Y%m%d"@) + rest) is Some,
        agenda::start_day(dates::date_text(day, "%Y%m%d"@) + rest) == Some(day),
{
    let text = dates::date_text(day, "%Y%m%d"@);
    lemma_day_read_back(day);
    assert(dates::is_digit(text[7]));
    assert(text.last() != 'Z');
    text::lemma_trimmed_end_apart(text, rest, 'Z');
    let s = text + text::trimmed_end(rest, 'Z');
    assert forall|i: int| 0 <= i < 8 implies #[trigger] s[i] <= '\u{7f}' by {
        assert(s[i] == text[i]);
        assert(dates::is_digit(text[i]));
    }
    lemma_ascii_prefix(s, 8);
    assert(s.take(8) == text);
}

/// An event whose start begins with a day puts nothing on the list of a day on which it does not take
/// place; one that is marked as starting on a day stands on the list of each day on which it takes
/// place, recurring or not, all day and with its own name and place.
pub proof fn lemma_day_entry(event: ics::EventModel, day: Date, rest: Seq<char>, today: Date)
    requires
        day.valid(),
        0 <= day.year <= 9999,
        event.dtstart == dates::date_text(day, "%Y%m%d"@) + rest,
    ensures
        agenda::takes_place(event, day, today) is None ==> agenda::entry(event, today) is None,
        agenda::takes_place(event, day, today) == Some(false) ==> agenda::entry(event, today)
            == Some(None::<agenda::DayEventModel>),
        agenda::takes_place(event, day, today) == Some(true) && event.dtstart_is_date
            ==> agenda::entry(event, today) == Some(
            Some(
                agenda::DayEventModel {
                    time: agenda::EventTime::AllDay,
                    summary: event.summary,
                    location: event.location,
                },
            ),
        ),
{
    lemma_start_day_read_back(day, rest);
}

/// An event that was written with a time, in universal time or not, and is not marked as starting on a
/// day, stands on the list of each day on which it takes place, recurring or not, at its time of the
/// first day and with its own name and place.
pub proof fn lemma_timed_entry(event: ics::EventModel, t: DateTime, today: Date)
    requires
        t.valid(),
        0 <= t.date.year <= 9999,
        event.dtstart == time_text(t) || event.dtstart == time_text(t).push('Z'),
        !event.dtstart_is_date,
        agenda::takes_place(event, t.date, today) == Some(true),
    ensures
        agenda::entry(event, today) == Some(
            Some(
                agenda::DayEventModel {
                    time: agenda::EventTime::At(t),
                    summary: event.summary,
                    location: event.location,
                },
            ),
        ),
{
    lemma_time_read_back(t);
    lemma_day_read_back(t.date);
    let s = time_text(t);
    assert(s.last() != 'Z') by {
        assert(dates::is_digit(s.skip(9)[5]));
    }
    assert(s.push('Z').drop_last() == s);
    assert(text::trimmed_end(s, 'Z') == s);
    assert(text::trimmed_end(event.dtstart, 'Z') == s);
    assert forall|i: int| 0 <= i < 15 implies #[trigger] s[i] <= '\u{7f}' by {
        if i < 8 {
            assert(dates::is_digit(s.take(8)[i]));
        } else if i > 8 {
            assert(dates::is_digit(s.skip(9)[i - 9]));
        }
    }
    lemma_ascii_prefix(s, 8);
    lemma_ascii_prefix(s, 15);
    assert(s.take(15) == s);
    text::lemma_bytes_at_least_chars(s);
}

/// Whatever stands behind the time of a start does not matter for the entry of the event.
pub proof fn lemma_timed_entry_with_more(
    event: ics::EventModel,
    t: DateTime,
    rest: Seq<char>,
    today: Date,
)
    requires
        t.valid(),
        0 <= t.date.year <= 9999,
        event.dtstart == time_text(t) + rest,
        !event.dtstart_is_date,
        agenda::takes_place(event, t.date, today) == Some(true),
    ensures
        agenda::entry(event, today) == Some(
            Some(
                agenda::DayEventModel {
                    time: agenda::EventTime::At(t),
                    summary: event.summary,
                    location: event.location,
                },
            ),
        ),
{
    lemma_time_read_back(t);
    let s = time_text(t);
    assert(s.last() != 'Z') by {
        assert(dates::is_digit(s.skip(9)[5]));
    }
    text::lemma_trimmed_end_apart(s, rest, 'Z');
    let whole = s + text::trimmed_end(rest, 'Z');
    assert forall|i: int| 0 <= i < 15 implies #[trigger] whole[i] <= '\u{7f}' by {
        assert(whole[i] == s[i]);
        if i < 8 {
            assert(dates::is_digit(s.take(8)[i]));
        } else if i > 8 {
            assert(dates::is_digit(s.skip(9)[i - 9]));
        }
    }
    lemma_ascii_prefix(whole, 8);
    lemma_ascii_prefix(whole, 15);
    assert(whole.take(8) == s.take(8));
    assert(whole.take(15) == s);
    lemma_day_read_back(t.date);
    text::lemma_bytes_at_least_chars(whole);
}

/// The day of an ASCII start is what its first eight characters say, or all where there are fewer, and
/// its time what its first fifteen say, where there are that many; the letters `Z` at its end do not
/// count.
pub proof fn lemma_ascii_start(s: Seq<char>, marks: Seq<char>)
    requires
        recurrence_laws::is_ascii(s),
        s.len() > 0 ==> s.last() != 'Z',
        forall|i: int| 0 <= i < marks.len() ==> #[trigger] marks[i] == 'Z',
    ensures
        agenda::day_part(s + marks) is Some,
        agenda::time_readable(s + marks),
        agenda::start_day(s + marks) == recurrence::date_of(
            dates::date_in(
                if s.len() > 8 {
                    s.take(8)
                } else {
                    s
                },
            ),
        ),
        agenda::start_time(s + marks) == if s.len() < 15 {
            None
        } else {
            agenda::time_of(dates::time_in(s.take(15)))
        },
{
    text::lemma_trimmed_end_run(s, marks, 'Z');
    recurrence_laws::lemma_ascii_bytes(s);
    if s.len() > 8 {
        lemma_ascii_prefix(s, 8);
    } else {
        text::lemma_short_prefix(s, 8);
    }
    if s.len() >= 15 {
        lemma_ascii_prefix(s, 15);
    } else {
        text::lemma_short_prefix(s, 15);
    }
}

/// An event stands on the list of a day on which it takes place at the time that its start gives, and
/// all day where its start gives none or is marked as a day.
pub proof fn lemma_entry_on_its_day(event: ics::EventModel, start: Date, today: Date)
    requires
        agenda::day_part(event.dtstart) is Some,
        agenda::start_day(event.dtstart) == Some(start),
        agenda::time_readable(event.dtstart),
        agenda::takes_place(event, start, today) is Some,
    ensures
        agenda::entry(event, today) is Some,
        agenda::entry(event, today)->0 is Some <==> agenda::takes_place(event, start, today)
            == Some(true),
        agenda::entry(event, today)->0 matches Some(e) ==> {
            &&& e.summary == event.summary
            &&& e.location == event.location
            &&& e.time is At <==> !event.dtstart_is_date && agenda::start_time(event.dtstart) is Some
            &&& e.time matches agenda::EventTime::At(t) ==> agenda::start_time(event.dtstart)
                == Some(t)
        },
{
}

/// What is read of a day, a `T` and three numbers of two digits, where the day exists.
proof fn lemma_clock_read(t: DateTime)
    requires
        t.date.valid(),
        0 <= t.date.year <= 9999,
        t.hour < 100,
        t.minute < 100,
        t.second < 100,
    ensures
        time_text(t).len() == 15,
        time_text(t)[14] != 'Z',
        forall|i: int| 0 <= i < 15 ==> #[trigger] time_text(t)[i] <= '\u{7f}',
        time_text(t).take(8) == dates::date_text(t.date, "%Y%m%d"@),
        agenda::time_of(dates::time_in(time_text(t))) == if t.hour < 24 && t.minute < 60 && t.second
            <= 60 {
            Some(
                DateTime {
                    second: if t.second == 60 {
                        59
                    } else {
                        t.second
                    },
                    ..t
                },
            )
        } else {
            None
        },
{
    reveal_with_fuel(power_of_ten, 5);
    lemma_day_read_back(t.date);
    lemma_padded(t.hour as nat, 2);
    lemma_padded(t.minute as nat, 2);
    lemma_padded(t.second as nat, 2);
    let day = dates::date_text(t.date, "%Y%m%d"@);
    let h = dates::zero_padded(t.hour as nat, 2);
    let m = dates::zero_padded(t.minute as nat, 2);
    let e = dates::zero_padded(t.second as nat, 2);
    let s = time_text(t);
    assert(s.take(8) == day);
    assert(s[8] == 'T');
    assert(s.subrange(9, 11) == h);
    assert(s.subrange(11, 13) == m);
    assert(s.subrange(13, 15) == e);
    let clock = s.skip(9);
    assert forall|i: int| 0 <= i < 6 implies dates::is_digit(#[trigger] clock[i]) by {
        if i < 2 {
            assert(clock[i] == h[i]);
        } else if i < 4 {
            assert(clock[i] == m[i - 2]);
        } else {
            assert(clock[i] == e[i - 4]);
        }
    }
    assert forall|i: int| 0 <= i < 15 implies #[trigger] s[i] <= '\u{7f}' by {
        if i < 8 {
            assert(dates::is_digit(s.take(8)[i]));
        } else if i > 8 {
            assert(dates::is_digit(clock[i - 9]));
        }
    }
    assert(dates::is_digit(clock[5]));
}

/// An event whose start names a time that no clock shows stands all day on the list of each day on
/// which it takes place; a sixtieth second is taken as the fifty-ninth.
pub proof fn lemma_time_that_no_clock_shows(
    event: ics::EventModel,
    t: DateTime,
    rest: Seq<char>,
    today: Date,
)
    requires
        t.date.valid(),
        0 <= t.date.year <= 9999,
        t.hour < 100,
        t.minute < 100,
        60 <= t.second < 100 || t.second < 60 && (t.hour >= 24 || t.minute >= 60),
        event.dtstart == time_text(t) + rest,
        !event.dtstart_is_date,
        agenda::takes_place(event, t.date, today) == Some(true),
    ensures
        agenda::entry(event, today) == Some(
            Some(
                agenda::DayEventModel {
                    time: if t.hour < 24 && t.minute < 60 && t.second == 60 {
                        agenda::EventTime::At(DateTime { second: 59, ..t })
                    } else {
                        agenda::EventTime::AllDay
                    },
                    summary: event.summary,
                    location: event.location,
                },
            ),
        ),
{
    lemma_clock_read(t);
    let s = time_text(t);
    text::lemma_trimmed_end_apart(s, rest, 'Z');
    let whole = s + text::trimmed_end(rest, 'Z');
    assert forall|i: int| 0 <= i < 15 implies #[trigger] whole[i] <= '\u{7f}' by {
        assert(whole[i] == s[i]);
    }
    lemma_ascii_prefix(whole, 8);
    lemma_ascii_prefix(whole, 15);
    assert(whole.take(8) == s.take(8));
    assert(whole.take(15) == s);
    lemma_day_read_back(t.date);
    text::lemma_bytes_at_least_chars(whole);
}

/// An event whose start names a day that the calendar does not have is on no list.
pub proof fn lemma_day_that_no_month_has(
    event: ics::EventModel,
    year: nat,
    month: nat,
    day: nat,
    rest: Seq<char>,
    today: Date,
)
    requires
        year < 10000,
        month < 100,
        day < 100,
        !dates::valid_ymd(year as int, month as int, day as int),
        event.dtstart == dates::zero_padded(year, 4) + dates::zero_padded(month, 2)
            + dates::zero_padded(day, 2) + rest,
    ensures
        agenda::entry(event, today) == Some(None::<agenda::DayEventModel>),
{
    reveal_with_fuel(power_of_ten, 5);
    lemma_padded(year, 4);
    lemma_padded(month, 2);
    lemma_padded(day, 2);
    let y = dates::zero_padded(year, 4);
    let m = dates::zero_padded(month, 2);
    let e = dates::zero_padded(day, 2);
    let s = y + m + e;
    assert forall|i: int| 0 <= i < 8 implies dates::is_digit(#[trigger] s[i]) by {
        if i < 4 {
            assert(s[i] == y[i]);
        } else if i < 6 {
            assert(s[i] == m[i - 4]);
        } else {
            assert(s[i] == e[i - 6]);
        }
    }
    assert(s.subrange(0, 4) == y);
    assert(s.subrange(4, 6) == m);
    assert(s.subrange(6, 8) == e);
    assert(dates::is_digit(s[7]));
    text::lemma_trimmed_end_apart(s, rest, 'Z');
    let whole = s + text::trimmed_end(rest, 'Z');
    assert forall|i: int| 0 <= i < 8 implies #[trigger] whole[i] <= '\u{7f}' by {
        assert(whole[i] == s[i]);
        assert(dates::is_digit(s[i]));
    }
    lemma_ascii_prefix(whole, 8);
    assert(whole.take(8) == s);
}

/// An event whose start is a day with too little behind it for a time stands all day on the list of
/// each day on which it takes place, marked as starting on a day or not.
pub proof fn lemma_untimed_entry(event: ics::EventModel, day: Date, rest: Seq<char>, today: Date)
    requires
        day.valid(),
        0 <= day.year <= 9999,
        event.dtstart == dates::date_text(day, "%Y%m%d"@) + rest,
        text::byte_len(rest) < 7,
        agenda::takes_place(event, day, today) == Some(true),
    ensures
        agenda::entry(event, today) == Some(
            Some(
                agenda::DayEventModel {
                    time: agenda::EventTime::AllDay,
                    summary: event.summary,
                    location: event.location,
                },
            ),
        ),
{
    let text = dates::date_text(day, "%Y%m%d"@);
    lemma_start_day_read_back(day, rest);
    lemma_day_read_back(day);
    assert(dates::is_digit(text[7]));
    text::lemma_trimmed_end_apart(text, rest, 'Z');
    let tail = text::trimmed_end(rest, 'Z');
    lemma_trimmed_is_shorter(rest);
    lemma_digit_bytes(text);
    text::lemma_byte_len_concat(text, tail);
    text::lemma_short_prefix(text + tail, 15);
}

/// A text is not longer when the run at its end has gone.
proof fn lemma_trimmed_is_shorter(s: Seq<char>)
    ensures
        text::byte_len(text::trimmed_end(s, 'Z')) <= text::byte_len(s),
    decreases s.len(),
{
    if s.len() > 0 && s.last() == 'Z' {
        lemma_trimmed_is_shorter(s.drop_last());
        text::lemma_byte_len_concat(s.drop_last(), seq!['Z']);
        assert(s.drop_last() + seq!['Z'] == s);
    }
}

/// A run of digits has a byte for each digit.
proof fn lemma_digit_bytes(s: Seq<char>)
    requires
        dates::all_digits(s),
    ensures
        text::byte_len(s) == s.len(),
    decreases s.len(),
{
    if s.len() > 0 {
        let rest = s.skip(1);
        assert(dates::is_digit(s[0]));
        assert forall|i: int| 0 <= i < rest.len() implies dates::is_digit(#[trigger] rest[i]) by {
            assert(dates::is_digit(s[i + 1]));
        }
        lemma_digit_bytes(rest);
    }
}

/// A recurring event that excludes no days takes place by its rule.
pub proof fn lemma_nothing_excluded(event: ics::EventModel, start: Date, today: Date)
    requires
        event.rrule is Some,
        event.exdates.len() == 0,
    ensures
        agenda::takes_place(event, start, today) == recurrence::occurs(
            start,
            event.rrule->0,
            today,
        ),
{
}

/// An excluded day changes nothing on other days: what was written for another day, or for none, does
/// not keep a recurring event from taking place.
pub proof fn lemma_other_exclusion(
    event: ics::EventModel,
    excluded: Seq<char>,
    start: Date,
    today: Date,
)
    requires
        excluded != dates::date_text(today, "%Y%m%d"@),
    ensures
        agenda::takes_place(
            ics::EventModel { exdates: event.exdates.push(excluded), ..event },
            start,
            today,
        ) == agenda::takes_place(event, start, today),
{
    let text = dates::date_text(today, "%Y%m%d"@);
    let more = event.exdates.push(excluded);
    if event.exdates.contains(text) {
        let i = choose|i: int| 0 <= i < event.exdates.len() && event.exdates[i] == text;
        assert(more[i] == text);
    }
    if more.contains(text) {
        let i = choose|i: int| 0 <= i < more.len() && more[i] == text;
        assert(event.exdates[i] == text);
    }
}

/// A recurring event into which an excluded day was written, with any parameters and with or without a
/// time behind the day, does not take place on that day, and takes place on every other as before.
pub proof fn lemma_written_exclusion_with_params(
    lines: Seq<Seq<char>>,
    params: Option<Seq<char>>,
    day: Date,
    rest: Seq<char>,
    start: Date,
    other: Date,
)
    requires
        params matches Some(p) ==> !p.contains(':'),
        day.valid(),
        0 <= day.year <= 9999,
        ics::event_of(lines).rrule is Some,
        other.valid(),
        0 <= other.year <= 9999,
        other != day,
    ensures
        ({
            let line = ics_laws::property_line(
                "EXDATE"@,
                params,
                dates::date_text(day, "%Y%m%d"@) + rest,
            );
            let event = ics::event_of(lines.push(line));
            &&& ics::readable_line(line)
            &&& event.exdates == ics::event_of(lines).exdates.push(
                dates::date_text(day, "%Y%m%d"@),
            )
            &&& agenda::takes_place(event, start, day) == Some(false)
            &&& agenda::takes_place(event, start, other) == agenda::takes_place(
                ics::event_of(lines),
                start,
                other,
            )
        }),
{
    let text = dates::date_text(day, "%Y%m%d"@);
    lemma_day_read_back(day);
    assert forall|i: int| 0 <= i < text.len() implies #[trigger] text[i] <= '\u{7f}' by {
        assert(dates::is_digit(text[i]));
    }
    ics_laws::lemma_exclusion_written(lines, params, text, rest);
    let before = ics::event_of(lines);
    let days = before.exdates.push(text);
    assert(days.last() == text);
    lemma_excluded_day_is_free(ics::EventModel { exdates: days, ..before }, start, day);
    if text == dates::date_text(other, "%Y%m%d"@) {
        lemma_days_written_apart(day, other);
    }
    lemma_other_exclusion(before, text, start, other);
}

/// Whether a time comes before another on the clock or in the calendar.
pub open spec fn is_earlier(a: DateTime, b: DateTime) -> bool {
    ||| a.date.before(b.date)
    ||| a.date == b.date && a.hour < b.hour
    ||| a.date == b.date && a.hour == b.hour && a.minute < b.minute
    ||| a.date == b.date && a.hour == b.hour && a.minute == b.minute && a.second < b.second
}

/// Earlier events stand before later ones, events of the same second at the same place, and events
/// without a time behind all of them.
pub proof fn lemma_places_in_the_list(a: DateTime, b: DateTime)
    requires
        a.valid(),
        b.valid(),
    ensures
        agenda::EventTime::At(a).key() < agenda::EventTime::At(b).key() <==> is_earlier(a, b),
        agenda::EventTime::At(a).key() == agenda::EventTime::At(b).key() <==> a == b,
        agenda::EventTime::At(a).key() < agenda::EventTime::AllDay.key(),
{
    dates::lemma_order(a.date, b.date);
    dates::lemma_order(b.date, a.date);
    dates::lemma_in_range(a.date);
    dates::lemma_range_bounds();
}

/// A day's list holds what the events put on it, neither more nor less, and in the order of time.
pub proof fn lemma_list_holds_the_entries(events: Seq<ics::EventModel>, today: Date)
    requires
        agenda::entries(events, today) is Some,
    ensures
        agenda::agenda(events, today) is Some,
        agenda::is_by_time(agenda::agenda(events, today)->0),
        agenda::agenda(events, today)->0.len() == agenda::entries(events, today)->0.len(),
        forall|key: int| #[trigger]
            agenda::at_key(agenda::agenda(events, today)->0, key) == agenda::at_key(
                agenda::entries(events, today)->0,
                key,
            ),
{
    agenda::lemma_by_time_is_stable(agenda::entries(events, today)->0);
}

/// What a single event puts on a day's list is its entry, and there is no list where the entry cannot
/// be made.
pub proof fn lemma_entries_of_one(event: ics::EventModel, today: Date)
    ensures
        agenda::entries(seq![event], today) == match agenda::entry(event, today) {
            Some(Some(e)) => Some(seq![e]),
            Some(None) => Some(Seq::empty()),
            None => None,
        },
        agenda::entries(Seq::empty(), today) == Some(Seq::<agenda::DayEventModel>::empty()),
{
    let events = seq![event];
    assert(events.drop_last() == Seq::<ics::EventModel>::empty());
    assert(agenda::entries(events.drop_last(), today) == Some(
        Seq::<agenda::DayEventModel>::empty(),
    ));
    if let Some(Some(e)) = agenda::entry(event, today) {
        assert(Seq::<agenda::DayEventModel>::empty().push(e) == seq![e]);
    }
}

/// A run of digits is what is written for its value.
proof fn lemma_digits_written(s: Seq<char>)
    requires
        dates::all_digits(s),
    ensures
        dates::digits_value(s) >= 0,
        dates::digits_value(s) < power_of_ten(s.len()),
        dates::zero_padded(dates::digits_value(s) as nat, s.len()) == s,
    decreases s.len(),
{
    if s.len() > 0 {
        let front = s.drop_last();
        let c = s.last();
        assert(dates::is_digit(s[s.len() - 1]));
        assert forall|i: int| 0 <= i < front.len() implies dates::is_digit(#[trigger] front[i]) by {
            assert(dates::is_digit(s[i]));
        }
        lemma_digits_written(front);
        let n = dates::digits_value(s) as nat;
        assert(n / 10 == dates::digits_value(front));
        assert(n % 10 == dates::digit_value(c));
        assert(dates::digit(n as int) == c);
        assert(front.push(c) == s);
    }
}

/// Eight digits name a day exactly where a day is written so: what is read as a day is what is written
/// for that day.
pub proof fn lemma_day_written_back(s: Seq<char>)
    requires
        dates::is_compact_date(s),
    ensures
        dates::date_in(s) matches Some((y, m, d)) ==> {
            let day = Date { year: y, month: m, day: d };
            day.valid() && dates::date_text(day, "%Y%m%d"@) == s
        },
        dates::date_in(s) is None ==> forall|day: Date|
            day.valid() && 0 <= day.year <= 9999 ==> #[trigger] dates::date_text(day, "%Y%m%d"@)
                != s,
{
    reveal_with_fuel(power_of_ten, 5);
    let a = s.subrange(0, 4);
    let b = s.subrange(4, 6);
    let c = s.subrange(6, 8);
    assert forall|i: int| 0 <= i < 4 implies dates::is_digit(#[trigger] a[i]) by {
        assert(dates::is_digit(s[i]));
    }
    assert forall|i: int| 0 <= i < 2 implies dates::is_digit(#[trigger] b[i]) by {
        assert(dates::is_digit(s[i + 4]));
    }
    assert forall|i: int| 0 <= i < 2 implies dates::is_digit(#[trigger] c[i]) by {
        assert(dates::is_digit(s[i + 6]));
    }
    lemma_digits_written(a);
    lemma_digits_written(b);
    lemma_digits_written(c);
    if let Some((y, m, d)) = dates::date_in(s) {
        let day = Date { year: y, month: m, day: d };
        lemma_compact_text(day);
        assert(a + b + c == s);
    } else {
        assert forall|day: Date| day.valid() && 0 <= day.year <= 9999 implies
            #[trigger] dates::date_text(day, "%Y%m%d"@) != s by {
            lemma_day_read_back(day);
        }
    }
}

/// The days of the week follow each other, and return every seven days.
pub proof fn lemma_weekdays_follow(a: Date, b: Date)
    requires
        a.valid(),
        b.valid(),
    ensures
        0 <= a.weekday_index() < 7,
        b.number() == a.number() + 1 ==> b.weekday_index() == if a.weekday_index() == 6 {
            0
        } else {
            a.weekday_index() + 1
        },
        a.weekday_index() == b.weekday_index() <==> (b.number() - a.number()) % 7 == 0,
{
    lemma_sevens(a.number() - 1, b.number() - 1);
}

/// Counting by sevens.
proof fn lemma_sevens(m: int, n: int)
    ensures
        0 <= m % 7 < 7,
        n == m + 1 ==> n % 7 == if m % 7 == 6 {
            0
        } else {
            m % 7 + 1
        },
        m % 7 == n % 7 <==> (n - m) % 7 == 0,
{
}

/// The list of a day in a summary of several days is the day's own list, and it stands as far behind
/// the first list as the day lies behind the first day.
pub proof fn lemma_list_of_a_day_among_several(
    lists: Seq<(Date, Seq<agenda::DayEventModel>)>,
    events: Seq<ics::EventModel>,
    first: Date,
    count: int,
    day: Date,
)
    requires
        agenda::are_lists(lists, events, first, count),
        day.valid(),
        first.number() <= day.number() < first.number() + count,
    ensures
        lists.len() == count,
        lists[day.number() - first.number()].0 == day,
        agenda::agenda(events, day) == Some(lists[day.number() - first.number()].1),
{
    let i = day.number() - first.number();
    assert(lists[i].0.valid());
    dates::lemma_order(lists[i].0, day);
}

/// The lists of several days can be made where the list of each day can: those of one day more where
/// its list can be made too.
pub proof fn lemma_lists_of_one_day_more(
    events: Seq<ics::EventModel>,
    first: Date,
    count: int,
    day: Date,
)
    requires
        0 <= count,
        day.valid(),
        day.number() == first.number() + count,
    ensures
        agenda::lists_exist(events, first, 0),
        agenda::lists_exist(events, first, count + 1) <==> agenda::lists_exist(
            events,
            first,
            count,
        ) && agenda::agenda(events, day) is Some,
{
    assert forall|d: Date| d.valid() && d.number() == first.number() + count implies d == day by {
        dates::lemma_order(d, day);
    }
    if agenda::lists_exist(events, first, count) && agenda::agenda(events, day) is Some {
        assert forall|d: Date|
            d.valid() && first.number() <= d.number() < first.number() + (count
                + 1) implies #[trigger] agenda::agenda(events, d) is Some by {
            if d.number() == first.number() + count {
                assert(d == day);
            }
        }
    }
}

}

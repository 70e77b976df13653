//! On which days a recurring event takes place.

use crate::dates;
use crate::dates::{Date, Weekday};
use crate::ics;
use crate::text;
use vstd::prelude::*;

verus! {

/// The two letters by which a recurrence rule names the day of the week.
pub open spec fn code(index: int) -> Seq<char> {
    if index == 0 {
        "MO"@
    } else if index == 1 {
        "TU"@
    } else if index == 2 {
        "WE"@
    } else if index == 3 {
        "TH"@
    } else if index == 4 {
        "FR"@
    } else if index == 5 {
        "SA"@
    } else {
        "SU"@
    }
}

/// The two letters by which a recurrence rule names the day of the week.
pub fn weekday_code(wd: Weekday) -> (r: &'static str)
    ensures
        r@ == code(wd.index()),
{
    match wd {
        Weekday::Mon => "MO",
        Weekday::Tue => "TU",
        Weekday::Wed => "WE",
        Weekday::Thu => "TH",
        Weekday::Fri => "FR",
        Weekday::Sat => "SA",
        Weekday::Sun => "SU",
    }
}

/// The number that a text writes in decimal, with or without a sign, where 32 bits hold it.
pub open spec fn number(s: Seq<char>) -> Option<int> {
    let signed = s.len() > 0 && (s[0] == '-' || s[0] == '+');
    let digits = if signed {
        s.skip(1)
    } else {
        s
    };
    let size = dates::digits_value(digits);
    let value = if s.len() > 0 && s[0] == '-' {
        -size
    } else {
        size
    };
    if digits.len() > 0 && dates::all_digits(digits) && i32::MIN <= value <= i32::MAX {
        Some(value)
    } else {
        None
    }
}

/// Whether `d`, an entry of a monthly rule's list of days such as `3TH` or `-1FR`, names the day
/// `today`. The last two bytes are the day of the week. A number before them counts the days of that
/// name in the month, from its beginning or, where it is not positive, from its end; without a number
/// each of them is meant. There is no answer where the last two bytes begin inside a character, or
/// where the end of the month lies beyond the calendar's reach.
pub open spec fn monthly_byday(d: Seq<char>, today: Date) -> Option<bool> {
    if text::byte_len(d) < 2 {
        Some(false)
    } else {
        match text::byte_prefix(d, (text::byte_len(d) - 2) as nat) {
            None => None,
            Some(prefix) => if d.skip(prefix.len() as int) != code(today.weekday_index()) {
                Some(false)
            } else if prefix.len() == 0 {
                Some(true)
            } else {
                match number(prefix) {
                    None => Some(false),
                    Some(n) => if n > 0 {
                        Some(nth_from_start(today) == n)
                    } else if dates::month_reached(today.year as int, today.month as int) {
                        Some(nth_from_end(today) == -n)
                    } else {
                        None
                    },
                }
            },
        }
    }
}

/// The day is the how-manieth of its name in its month.
pub open spec fn nth_from_start(d: Date) -> int {
    (d.day - 1) / 7 + 1
}

/// The day is the how-manieth of its name in its month, counted from the month's end.
pub open spec fn nth_from_end(d: Date) -> int {
    (dates::days_in_month(d.year as int, d.month as int) - d.day) / 7 + 1
}

/// A run of digits is worth no less than its beginning.
proof fn lemma_digits_grow(s: Seq<char>, k: int)
    requires
        dates::all_digits(s),
        0 <= k <= s.len(),
    ensures
        0 <= dates::digits_value(s.take(k)) <= dates::digits_value(s),
    decreases s.len(),
{
    if s.len() > 0 {
        let rest = s.drop_last();
        assert(dates::is_digit(s[s.len() - 1]));
        assert forall|i: int| 0 <= i < rest.len() implies dates::is_digit(#[trigger] rest[i]) by {
            assert(rest[i] == s[i]);
        }
        if k < s.len() {
            assert(rest.take(k) == s.take(k));
            lemma_digits_grow(rest, k);
        } else {
            assert(s.take(k) == s);
            lemma_digits_grow(rest, rest.len() as int);
            assert(rest.take(rest.len() as int) == rest);
        }
    }
}

/// The number that a text writes in decimal.
pub fn parse_number(s: &[char]) -> (r: Option<i32>)
    ensures
        r matches Some(n) ==> number(s@) == Some(n as int),
        r is None ==> number(s@) is None,
{
    if s.len() == 0 {
        return None;
    }
    let negative: bool = s[0] == '-';
    let start: usize = if negative || s[0] == '+' {
        1
    } else {
        0
    };
    let ghost digits = s@.skip(start as int);
    assert(start == 0 ==> digits == s@);
    if s.len() == start {
        return None;
    }
    let mut value: i64 = 0;
    let mut i: usize = start;
    while i < s.len()
        invariant
            start <= i <= s@.len(),
            digits == s@.skip(start as int),
            number(s@) is Some ==> dates::all_digits(digits) && dates::digits_value(digits) <= 2147483648,
            0 <= value <= 2147483648,
            dates::all_digits(digits.take(i - start)),
            value == dates::digits_value(digits.take(i - start)),
        decreases s@.len() - i,
    {
        let c: char = s[i];
        let ghost k = i - start;
        assert(digits[k] == c);
        assert(digits.take(k + 1).drop_last() == digits.take(k));
        if c < '0' || c > '9' {
            assert(!dates::is_digit(digits[k]));
            return None;
        }
        assert(dates::all_digits(digits.take(k + 1))) by {
            assert forall|j: int| 0 <= j < k + 1 implies dates::is_digit(
                #[trigger] digits.take(k + 1)[j],
            ) by {
                if j < k {
                    assert(digits.take(k)[j] == digits[j]);
                    assert(dates::is_digit(digits.take(k)[j]));
                }
            }
        }
        value = value * 10 + (c as u32 as i64 - 48);
        i += 1;
        if value > 2147483648 {
            proof {
                if dates::all_digits(digits) {
                    lemma_digits_grow(digits, k + 1);
                }
            }
            return None;
        }
    }
    assert(digits.take(digits.len() as int) == digits);
    let value: i64 = if negative {
        -value
    } else {
        value
    };
    if value > 2147483647 {
        None
    } else {
        Some(value as i32)
    }
}

/// Whether an entry of a monthly rule's list of days names the day `today`; no answer where the
/// entry or the month cannot be read.
pub fn monthly_byday_checked(d: &str, today: Date) -> (r: Option<bool>)
    requires
        today.valid(),
    ensures
        r == monthly_byday(d@, today),
{
    let d: Vec<char> = text::chars_of(d);
    if text::byte_count(d.as_slice(), 2) < 2 {
        return Some(false);
    }
    let n: usize = match text::before_last_two_bytes(d.as_slice()) {
        Some(n) => n,
        None => {
            return None;
        },
    };
    let wd: Vec<char> = text::part(d.as_slice(), n, d.len());
    let prefix: Vec<char> = text::part(d.as_slice(), 0, n);
    assert(prefix@ == d@.take(n as int));
    assert(wd@ == d@.skip(n as int));
    if !text::same_text(wd.as_slice(), weekday_code(dates::weekday(today))) {
        return Some(false);
    }
    if prefix.len() == 0 {
        return Some(true);
    }
    let ordinal: i32 = match parse_number(prefix.as_slice()) {
        Some(n) => n,
        None => {
            return Some(false);
        },
    };
    if ordinal > 0 {
        Some(((today.day - 1) / 7 + 1) as i32 == ordinal)
    } else {
        if today.year == dates::MAX_YEAR && today.month == 12 {
            return None;
        }
        let next_month: Date = dates::first_of_next_month(today.year, today.month);
        let ghost last = Date {
            year: today.year,
            month: today.month,
            day: dates::days_in_month(today.year as int, today.month as int) as u32,
        };
        proof {
            dates::lemma_last_of_month(today.year as int, today.month as int);
            dates::lemma_in_range(last);
        }
        let last_day: Date = dates::minus_days(next_month, 1);
        let days_from_end: i64 = dates::days_since(last_day, today);
        assert(days_from_end == last.day - today.day);
        Some(-((days_from_end as i32 / 7) + 1) == ordinal)
    }
}

/// Whether an entry of a monthly rule's list of days, such as `3TH` (the third Thursday) or `-1FR`
/// (the last Friday), names the day `today`.
pub fn monthly_byday_matches(d: &str, today: Date) -> (r: bool)
    requires
        today.valid(),
        monthly_byday(d@, today) is Some,
    ensures
        Some(r) == monthly_byday(d@, today),
{
    monthly_byday_checked(d, today).unwrap()
}

/// What a recurrence rule says.
#[derive(Debug)]
pub struct Rule {
    /// How often the event recurs.
    pub freq: String,
    /// The days on which it recurs, where the rule lists them.
    pub byday: Option<Vec<String>>,
    /// The last day on which it recurs, where the rule names one that exists.
    pub until: Option<Date>,
}

/// What a [`Rule`] holds.
pub struct RuleModel {
    pub freq: Seq<char>,
    pub byday: Option<Seq<Seq<char>>>,
    pub until: Option<Date>,
}

impl View for Rule {
    type V = RuleModel;

    open spec fn view(&self) -> RuleModel {
        RuleModel {
            freq: self.freq@,
            byday: match self.byday {
                Some(days) => Some(text::texts(days@)),
                None => None,
            },
            until: self.until,
        }
    }
}

/// What stands behind `key` in the last of the parts that begin with it.
pub open spec fn last_value(parts: Seq<Seq<char>>, key: Seq<char>) -> Option<Seq<char>>
    decreases parts.len(),
{
    if parts.len() == 0 {
        None
    } else if key.is_prefix_of(parts.last()) {
        Some(parts.last().skip(key.len() as int))
    } else {
        last_value(parts.drop_last(), key)
    }
}

/// Whether the eighth byte of every `UNTIL` among the parts lies outside the characters.
pub open spec fn readable_parts(parts: Seq<Seq<char>>) -> bool {
    forall|i: int|
        0 <= i < parts.len() && "UNTIL="@.is_prefix_of(#[trigger] parts[i]) ==> text::byte_prefix(
            parts[i].skip("UNTIL="@.len() as int),
            8,
        ) is Some
}

/// The date with the given fields.
pub open spec fn date_of(fields: Option<(i32, u32, u32)>) -> Option<Date> {
    match fields {
        Some((year, month, day)) => Some(Date { year, month, day }),
        None => None,
    }
}

/// The last day that an `UNTIL` names: its first eight bytes, read as year, month and day.
pub open spec fn until_day(value: Option<Seq<char>>) -> Option<Date> {
    match value {
        Some(v) => match text::byte_prefix(v, 8) {
            Some(v) => date_of(dates::date_in(v)),
            None => None,
        },
        None => None,
    }
}

/// What the parts of a recurrence rule say. A part that is given several times counts where it
/// stands last.
pub open spec fn rule_of_parts(parts: Seq<Seq<char>>) -> RuleModel {
    RuleModel {
        freq: ics::or_empty(last_value(parts, "FREQ="@)),
        byday: match last_value(parts, "BYDAY="@) {
            Some(v) => Some(text::split(v, ',')),
            None => None,
        },
        until: until_day(last_value(parts, "UNTIL="@)),
    }
}

/// What a recurrence rule says; nothing where a last day cannot be read.
pub open spec fn rule_of(rule: Seq<char>) -> Option<RuleModel> {
    let parts = text::split(rule, ';');
    if readable_parts(parts) {
        Some(rule_of_parts(parts))
    } else {
        None
    }
}

/// The three keys of a rule begin differently.
proof fn lemma_keys_differ()
    ensures
        "FREQ="@.len() == 5,
        "BYDAY="@.len() == 6,
        "UNTIL="@.len() == 6,
        "FREQ="@[0] == 'F',
        "BYDAY="@[0] == 'B',
        "UNTIL="@[0] == 'U',
{
    reveal_strlit("FREQ=");
    reveal_strlit("BYDAY=");
    reveal_strlit("UNTIL=");
}

/// What stands behind `key`, where the part begins with it.
fn value_of(part: &[char], key: &str) -> (r: Option<Vec<char>>)
    ensures
        r is Some <==> key@.is_prefix_of(part@),
        r matches Some(v) ==> v@ == part@.skip(key@.len() as int),
{
    let k: Vec<char> = text::chars_of(key);
    let here: bool = text::stands_at(part, k.as_slice(), 0);
    assert(here == k@.is_prefix_of(part@));
    if here {
        let r: Vec<char> = text::part(part, k.len(), part.len());
        assert(r@ == part@.skip(k@.len() as int));
        Some(r)
    } else {
        None
    }
}

/// The strings of a list of character vectors.
fn strings(v: &Vec<Vec<char>>) -> (r: Vec<String>)
    ensures
        text::texts(r@) == text::char_texts(v@),
{
    let mut r: Vec<String> = Vec::new();
    for i in 0..v.len()
        invariant
            r@.len() == i,
            forall|k: int| 0 <= k < i ==> (#[trigger] r@[k])@ == v@[k]@,
    {
        r.push(text::string_of(v[i].as_slice()));
    }
    assert(text::texts(r@) == text::char_texts(v@));
    r
}

/// Reads a recurrence rule, where every last day in it can be read.
pub fn parse_rule(rule: &str) -> (r: Option<Rule>)
    ensures
        r is Some <==> rule_of(rule@) is Some,
        r matches Some(rule_read) ==> rule_of(rule@) == Some(rule_read@),
        r matches Some(rule_read) ==> (rule_read.until matches Some(d) ==> d.valid()),
{
    let whole: Vec<char> = text::chars_of(rule);
    let parts: Vec<Vec<char>> = text::split_text(whole.as_slice(), ';');
    let ghost all = text::char_texts(parts@);
    let mut freq: String = String::new();
    let mut byday: Option<Vec<String>> = None;
    let mut until: Option<Date> = None;
    let mut i: usize = 0;
    while i < parts.len()
        invariant
            i <= parts@.len(),
            all == text::char_texts(parts@),
            all == text::split(rule@, ';'),
            readable_parts(all.take(i as int)),
            (Rule { freq, byday, until })@ == rule_of_parts(all.take(i as int)),
            until matches Some(d) ==> d.valid(),
        decreases parts@.len() - i,
    {
        let part: &Vec<char> = &parts[i];
        assert(all[i as int] == part@);
        assert(all.take(i + 1).drop_last() == all.take(i as int));
        assert(all.take(i + 1).last() == part@);
        assert forall|p: Seq<char>| #![auto]
            p.len() > 0 && p.is_prefix_of(part@) implies part@.len() > 0 && p[0] == part@[0] by {
            assert(part@.subrange(0, p.len() as int)[0] == part@[0]);
        }
        assert(readable_parts(all.take(i + 1)) <==> readable_parts(all.take(i as int)) && (
        "UNTIL="@.is_prefix_of(part@) ==> text::byte_prefix(
            part@.skip("UNTIL="@.len() as int),
            8,
        ) is Some)) by {
            assert forall|j: int| 0 <= j < i implies all.take(i + 1)[j] == #[trigger] all.take(
                i as int,
            )[j] by {}
            assert(all.take(i + 1)[i as int] == part@);
        }
        proof {
            lemma_keys_differ();
        }
        if let Some(v) = value_of(part.as_slice(), "FREQ=") {
            freq = text::string_of(v.as_slice());
        } else if let Some(v) = value_of(part.as_slice(), "BYDAY=") {
            let days: Vec<Vec<char>> = text::split_text(v.as_slice(), ',');
            byday = Some(strings(&days));
        } else if let Some(v) = value_of(part.as_slice(), "UNTIL=") {
            match text::first_bytes(v.as_slice(), 8) {
                Some(day) => {
                    let day: String = text::string_of(day.as_slice());
                    until = dates::parse_date(day.as_str(), "%Y%m%d");
                },
                None => {
                    assert(!readable_parts(all)) by {
                        assert("UNTIL="@.is_prefix_of(all[i as int]));
                    }
                    return None;
                },
            }
        }
        i += 1;
    }
    assert(all.take(parts@.len() as int) == all);
    Some(Rule { freq, byday, until })
}

/// Whether one of the entries names the day `today`. The entries are read in order up to the first
/// that does; there is no answer where one of these cannot be read.
pub open spec fn some_monthly_byday(days: Seq<Seq<char>>, today: Date) -> Option<bool>
    decreases days.len(),
{
    if days.len() == 0 {
        Some(false)
    } else {
        match monthly_byday(days[0], today) {
            Some(false) => some_monthly_byday(days.skip(1), today),
            answer => answer,
        }
    }
}

/// Whether one of the entries holds the letters of the day of the week.
pub open spec fn some_weekly_byday(days: Seq<Seq<char>>, today: Date) -> bool {
    exists|i: int|
        0 <= i < days.len() && text::contains_text(#[trigger] days[i], code(today.weekday_index()))
}

/// Whether an event that first takes place on the day `start`, not behind `today`, recurs on the day
/// `today` by the rule. A list of days keeps a daily or a weekly event to the days of the week that it
/// names, and a monthly event to the days of the month that it names. A yearly event recurs on the
/// day of the year on which it first took place; a list of days does not change that.
pub open spec fn recurs(start: Date, rule: RuleModel, today: Date) -> Option<bool> {
    if rule.until matches Some(last) && last.before(today) {
        Some(false)
    } else if rule.freq == "DAILY"@ {
        match rule.byday {
            None => Some(true),
            Some(days) => Some(some_weekly_byday(days, today)),
        }
    } else if rule.freq == "WEEKLY"@ {
        match rule.byday {
            None => Some(start.weekday_index() == today.weekday_index()),
            Some(days) => Some(some_weekly_byday(days, today)),
        }
    } else if rule.freq == "MONTHLY"@ {
        match rule.byday {
            None => Some(start.day == today.day),
            Some(days) => some_monthly_byday(days, today),
        }
    } else if rule.freq == "YEARLY"@ {
        Some(start.month == today.month && start.day == today.day)
    } else {
        Some(false)
    }
}

/// Whether an event that first takes place on the day `start` and recurs by the rule takes place on
/// the day `today`. There is no answer where what the answer rests on cannot be read.
pub open spec fn occurs(start: Date, rule: Seq<char>, today: Date) -> Option<bool> {
    if today.before(start) {
        Some(false)
    } else {
        match rule_of(rule) {
            None => None,
            Some(rule) => recurs(start, rule, today),
        }
    }
}

/// Whether two weekdays are the same.
fn same_weekday(a: Date, b: Date) -> (r: bool)
    requires
        a.valid(),
        b.valid(),
    ensures
        r == (a.weekday_index() == b.weekday_index()),
{
    dates::weekday(a) == dates::weekday(b)
}

/// Whether one of the entries holds the letters of the day of the week.
fn any_weekly_byday(days: &Vec<String>, today: Date) -> (r: bool)
    requires
        today.valid(),
    ensures
        r == some_weekly_byday(text::texts(days@), today),
{
    let wd: &'static str = weekday_code(dates::weekday(today));
    let ghost all = text::texts(days@);
    for i in 0..days.len()
        invariant
            wd@ == code(today.weekday_index()),
            all == text::texts(days@),
            forall|k: int| 0 <= k < i ==> !text::contains_text(#[trigger] all[k], wd@),
    {
        let day: Vec<char> = text::chars_of(days[i].as_str());
        assert(all[i as int] == day@);
        if text::has_text(day.as_slice(), wd) {
            return true;
        }
    }
    false
}

/// Whether an event recurs on the day `today` by a rule that has been read.
pub fn rule_recurs(start: Date, rule: &Rule, today: Date) -> (r: Option<bool>)
    requires
        start.valid(),
        today.valid(),
    ensures
        r == recurs(start, rule@, today),
{
    if let Some(last) = rule.until {
        if last.is_before(today) {
            return Some(false);
        }
    }
    let freq: Vec<char> = text::chars_of(rule.freq.as_str());
    if text::same_text(freq.as_slice(), "DAILY") {
        match &rule.byday {
            None => Some(true),
            Some(days) => Some(any_weekly_byday(days, today)),
        }
    } else if text::same_text(freq.as_slice(), "WEEKLY") {
        match &rule.byday {
            None => Some(same_weekday(start, today)),
            Some(days) => Some(any_weekly_byday(days, today)),
        }
    } else if text::same_text(freq.as_slice(), "MONTHLY") {
        match &rule.byday {
            None => Some(start.day == today.day),
            Some(days) => {
                let ghost all = text::texts(days@);
                let mut i: usize = 0;
                assert(all.skip(0) == all);
                while i < days.len()
                    invariant
                        i <= days@.len(),
                        today.valid(),
                        all == text::texts(days@),
                        recurs(start, rule@, today) == some_monthly_byday(
                            all.skip(i as int),
                            today,
                        ),
                    decreases days@.len() - i,
                {
                    assert(all.skip(i as int)[0] == days@[i as int]@);
                    assert(all.skip(i as int).skip(1) == all.skip(i + 1));
                    match monthly_byday_checked(days[i].as_str(), today) {
                        Some(false) => {},
                        answer => {
                            return answer;
                        },
                    }
                    i += 1;
                }
                Some(false)
            },
        }
    } else if text::same_text(freq.as_slice(), "YEARLY") {
        Some(start.month == today.month && start.day == today.day)
    } else {
        Some(false)
    }
}

/// Whether an event that first takes place on the day `start` and recurs by the rule takes place on
/// the day `today`; no answer where what the answer rests on cannot be read.
pub fn rrule_matches_checked(start: Date, rule: &str, today: Date) -> (r: Option<bool>)
    requires
        start.valid(),
        today.valid(),
    ensures
        r == occurs(start, rule@, today),
{
    if today.is_before(start) {
        return Some(false);
    }
    match parse_rule(rule) {
        None => None,
        Some(rule) => rule_recurs(start, &rule, today),
    }
}

/// Whether an event that first takes place on the day `start` and recurs by the rule takes place on
/// the day `today`. The rule's `FREQ`, `BYDAY` and `UNTIL` count; a yearly event keeps to its day of
/// the year whatever days the rule lists.
pub fn rrule_matches(start: Date, rule: &str, today: Date) -> (r: bool)
    requires
        start.valid(),
        today.valid(),
        occurs(start, rule@, today) is Some,
    ensures
        Some(r) == occurs(start, rule@, today),
{
    rrule_matches_checked(start, rule, today).unwrap()
}

}

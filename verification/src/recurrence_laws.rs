//! What holds of recurrence rules: each part says what it says, the order of the parts does not matter,
//! and an event takes place on exactly the days that its rule names.

use crate::agenda_laws;
use crate::dates;
use crate::dates::Date;
use crate::recurrence;
use crate::text;
use vstd::prelude::*;

verus! {

/// Whether at most one of the parts begins with the key.
pub open spec fn is_single(parts: Seq<Seq<char>>, key: Seq<char>) -> bool {
    forall|i: int, j: int|
        #![trigger parts[i], parts[j]]
        0 <= i < parts.len() && 0 <= j < parts.len() && key.is_prefix_of(parts[i])
            && key.is_prefix_of(parts[j]) ==> i == j
}

/// Whether two lists hold the same parts that begin with the key.
pub open spec fn same_parts(a: Seq<Seq<char>>, b: Seq<Seq<char>>, key: Seq<char>) -> bool {
    forall|part: Seq<char>| #[trigger]
        key.is_prefix_of(part) ==> (a.contains(part) <==> b.contains(part))
}

/// Whether two lists hold the same entries, in whatever order.
pub open spec fn same_entries(a: Seq<Seq<char>>, b: Seq<Seq<char>>) -> bool {
    forall|d: Seq<char>| #[trigger] a.contains(d) <==> b.contains(d)
}

/// Whether two lists of days are both missing or hold the same entries.
pub open spec fn same_days(a: Option<Seq<Seq<char>>>, b: Option<Seq<Seq<char>>>) -> bool {
    match (a, b) {
        (Some(a), Some(b)) => same_entries(a, b),
        (None, None) => true,
        _ => false,
    }
}

/// Whether two rules say the same: each gives its frequency and its last day once or not at all, and
/// both the same, and both list the same days. The order of the parts, the order of the days, and
/// parts with other keys are left open.
pub open spec fn say_the_same(a: Seq<Seq<char>>, b: Seq<Seq<char>>) -> bool {
    &&& is_single(a, "FREQ="@)
    &&& is_single(b, "FREQ="@)
    &&& same_parts(a, b, "FREQ="@)
    &&& is_single(a, "UNTIL="@)
    &&& is_single(b, "UNTIL="@)
    &&& same_parts(a, b, "UNTIL="@)
    &&& same_days(recurrence::rule_of_parts(a).byday, recurrence::rule_of_parts(b).byday)
}

/// The value of a key is that of a part that begins with it; there is none where no part does.
proof fn lemma_last_value(parts: Seq<Seq<char>>, key: Seq<char>) -> (i: int)
    ensures
        match recurrence::last_value(parts, key) {
            Some(v) => 0 <= i < parts.len() && key.is_prefix_of(parts[i]) && v == parts[i].skip(
                key.len() as int,
            ),
            None => forall|j: int|
                0 <= j < parts.len() ==> !key.is_prefix_of(#[trigger] parts[j]),
        },
    decreases parts.len(),
{
    if parts.len() == 0 {
        0
    } else if key.is_prefix_of(parts.last()) {
        parts.len() - 1
    } else {
        let front = parts.drop_last();
        let i = lemma_last_value(front, key);
        if recurrence::last_value(front, key) is None {
            assert forall|j: int| 0 <= j < parts.len() implies !key.is_prefix_of(
                #[trigger] parts[j],
            ) by {
                if j < front.len() {
                    assert(front[j] == parts[j]);
                }
            }
        } else {
            assert(front[i] == parts[i]);
        }
        i
    }
}

/// Lists that hold the same single part for a key give it the same value.
proof fn lemma_same_value(a: Seq<Seq<char>>, b: Seq<Seq<char>>, key: Seq<char>)
    requires
        is_single(a, key),
        is_single(b, key),
        same_parts(a, b, key),
    ensures
        recurrence::last_value(a, key) == recurrence::last_value(b, key),
{
    let i = lemma_last_value(a, key);
    let j = lemma_last_value(b, key);
    if recurrence::last_value(a, key) is Some {
        assert(a.contains(a[i]));
        assert(b.contains(a[i]));
        let k = choose|k: int| 0 <= k < b.len() && b[k] == a[i];
        assert(key.is_prefix_of(b[k]));
        assert(b[j] == b[k]);
    } else if recurrence::last_value(b, key) is Some {
        assert(b.contains(b[j]));
        assert(a.contains(b[j]));
        let k = choose|k: int| 0 <= k < a.len() && a[k] == b[j];
        assert(key.is_prefix_of(a[k]));
    }
}

/// Lists that hold the same last days are readable or not alike.
proof fn lemma_readable_too(a: Seq<Seq<char>>, b: Seq<Seq<char>>)
    requires
        same_parts(a, b, "UNTIL="@),
        recurrence::readable_parts(a),
    ensures
        recurrence::readable_parts(b),
{
    let key = "UNTIL="@;
    assert forall|i: int| 0 <= i < b.len() && key.is_prefix_of(#[trigger] b[i]) implies
        text::byte_prefix(b[i].skip(key.len() as int), 8) is Some by {
        assert(b.contains(b[i]));
        assert(a.contains(b[i]));
        let k = choose|k: int| 0 <= k < a.len() && a[k] == b[i];
        assert(key.is_prefix_of(a[k]));
    }
}

/// Whether each of the entries can be held against the day `today`.
pub open spec fn entries_readable(days: Seq<Seq<char>>, today: Date) -> bool {
    forall|i: int|
        0 <= i < days.len() ==> recurrence::monthly_byday(#[trigger] days[i], today) is Some
}

/// Whether what a monthly rule lists can be held against the day `today`, where it comes to that.
pub open spec fn days_readable(rule: recurrence::RuleModel, today: Date) -> bool {
    rule.freq == "MONTHLY"@ && agenda_laws::not_ended(rule, today) ==> (
    rule.byday matches Some(days) ==> entries_readable(days, today))
}

/// Where all entries can be read, one of them names the day or none does.
proof fn lemma_some_entry(days: Seq<Seq<char>>, today: Date)
    requires
        entries_readable(days, today),
    ensures
        recurrence::some_monthly_byday(days, today) == Some(
            exists|d: Seq<char>| #[trigger]
                days.contains(d) && recurrence::monthly_byday(d, today) == Some(true),
        ),
    decreases days.len(),
{
    if days.len() > 0 {
        let rest = days.skip(1);
        assert(recurrence::monthly_byday(days[0], today) is Some);
        assert forall|i: int| 0 <= i < rest.len() implies recurrence::monthly_byday(
            #[trigger] rest[i],
            today,
        ) is Some by {
            assert(recurrence::monthly_byday(days[i + 1], today) is Some);
        }
        lemma_some_entry(rest, today);
        assert forall|d: Seq<char>| #[trigger] days.contains(d) <==> d == days[0] || rest.contains(d) by {
            if days.contains(d) {
                let i = choose|i: int| 0 <= i < days.len() && days[i] == d;
                if i > 0 {
                    assert(rest[i - 1] == d);
                }
            }
            if rest.contains(d) {
                let i = choose|i: int| 0 <= i < rest.len() && rest[i] == d;
                assert(days[i + 1] == d);
            }
        }
        assert(days.contains(days[0]));
        if exists|d: Seq<char>| #[trigger]
            rest.contains(d) && recurrence::monthly_byday(d, today) == Some(true) {
            let d = choose|d: Seq<char>| #[trigger]
                rest.contains(d) && recurrence::monthly_byday(d, today) == Some(true);
            assert(days.contains(d));
        }
    }
}

/// The order of the days that a rule lists does not matter.
pub proof fn lemma_order_of_days_does_not_matter(
    start: Date,
    a: recurrence::RuleModel,
    b: recurrence::RuleModel,
    today: Date,
)
    requires
        a.freq == b.freq,
        a.until == b.until,
        same_days(a.byday, b.byday),
        days_readable(a, today),
    ensures
        recurrence::recurs(start, a, today) == recurrence::recurs(start, b, today),
{
    if let (Some(p), Some(q)) = (a.byday, b.byday) {
        lemma_same_weekly(p, q, today);
        lemma_same_weekly(q, p, today);
        if a.freq == "MONTHLY"@ && agenda_laws::not_ended(a, today) {
            assert forall|i: int| 0 <= i < q.len() implies recurrence::monthly_byday(
                #[trigger] q[i],
                today,
            ) is Some by {
                assert(q.contains(q[i]));
                assert(p.contains(q[i]));
                let k = choose|k: int| 0 <= k < p.len() && p[k] == q[i];
                assert(recurrence::monthly_byday(p[k], today) is Some);
            }
            lemma_some_entry(p, today);
            lemma_some_entry(q, today);
            lemma_same_monthly(p, q, today);
            lemma_same_monthly(q, p, today);
        }
    }
}

/// A day of the month that one list names is named by another that holds the same entries.
proof fn lemma_same_monthly(a: Seq<Seq<char>>, b: Seq<Seq<char>>, today: Date)
    requires
        same_entries(a, b),
        entries_readable(a, today),
        entries_readable(b, today),
    ensures
        recurrence::some_monthly_byday(a, today) == Some(true) ==> recurrence::some_monthly_byday(
            b,
            today,
        ) == Some(true),
{
    lemma_some_entry(a, today);
    lemma_some_entry(b, today);
    if recurrence::some_monthly_byday(a, today) == Some(true) {
        let d = choose|d: Seq<char>| #[trigger]
            a.contains(d) && recurrence::monthly_byday(d, today) == Some(true);
        assert(b.contains(d));
    }
}

/// A day of the week that one list names is named by another that holds the same entries.
proof fn lemma_same_weekly(a: Seq<Seq<char>>, b: Seq<Seq<char>>, today: Date)
    requires
        same_entries(a, b),
    ensures
        recurrence::some_weekly_byday(a, today) ==> recurrence::some_weekly_byday(b, today),
{
    let code = recurrence::code(today.weekday_index());
    if recurrence::some_weekly_byday(a, today) {
        let i = choose|i: int|
            0 <= i < a.len() && text::contains_text(#[trigger] a[i], code);
        assert(a.contains(a[i]));
        assert(b.contains(a[i]));
        let k = choose|k: int| 0 <= k < b.len() && b[k] == a[i];
        assert(text::contains_text(b[k], code));
    }
}

/// The order of a rule's parts, the order of the days that it lists, and parts with other keys do not
/// matter: the event takes place on the same days.
pub proof fn lemma_order_of_parts_does_not_matter(
    start: Date,
    a: Seq<char>,
    b: Seq<char>,
    today: Date,
)
    requires
        say_the_same(text::split(a, ';'), text::split(b, ';')),
        recurrence::rule_of(a) matches Some(rule) ==> days_readable(rule, today),
    ensures
        recurrence::occurs(start, a, today) == recurrence::occurs(start, b, today),
{
    let p = text::split(a, ';');
    let q = text::split(b, ';');
    lemma_same_value(p, q, "FREQ="@);
    lemma_same_value(p, q, "UNTIL="@);
    if recurrence::readable_parts(p) {
        lemma_readable_too(p, q);
        lemma_order_of_days_does_not_matter(
            start,
            recurrence::rule_of_parts(p),
            recurrence::rule_of_parts(q),
            today,
        );
    } else if recurrence::readable_parts(q) {
        lemma_readable_too(q, p);
    }
}

/// Whether a text is written in ASCII.
pub open spec fn is_ascii(s: Seq<char>) -> bool {
    forall|i: int| 0 <= i < s.len() ==> #[trigger] s[i] <= '\u{7f}'
}

/// A text in ASCII has a byte for each character.
pub proof fn lemma_ascii_bytes(s: Seq<char>)
    requires
        is_ascii(s),
    ensures
        text::byte_len(s) == s.len(),
    decreases s.len(),
{
    if s.len() > 0 {
        let rest = s.skip(1);
        assert forall|i: int| 0 <= i < rest.len() implies #[trigger] rest[i] <= '\u{7f}' by {
            assert(rest[i] == s[i + 1]);
        }
        lemma_ascii_bytes(rest);
    }
}

/// The pieces of a text in ASCII are in ASCII.
proof fn lemma_ascii_pieces(s: Seq<char>, c: char)
    requires
        is_ascii(s),
    ensures
        forall|i: int| 0 <= i < text::split(s, c).len() ==> is_ascii(#[trigger] text::split(s, c)[i]),
    decreases s.len(),
{
    let pieces = text::split(s, c);
    text::lemma_char_index(s, c, 0);
    if let Some(k) = text::char_index(s, c, 0) {
        let rest = s.skip(k + 1);
        assert forall|i: int| 0 <= i < rest.len() implies #[trigger] rest[i] <= '\u{7f}' by {
            assert(rest[i] == s[i + k + 1]);
        }
        lemma_ascii_pieces(rest, c);
        assert forall|i: int| 0 <= i < pieces.len() implies is_ascii(#[trigger] pieces[i]) by {
            if i == 0 {
                assert(pieces[0] == s.take(k));
            } else {
                assert(pieces[i] == text::split(rest, c)[i - 1]);
            }
        }
    } else {
        assert(pieces == seq![s]);
    }
}

/// What a rule in ASCII lists can be held against every day of a month that does not end the
/// calendar.
pub proof fn lemma_ascii_days_readable(rule: Seq<char>, today: Date)
    requires
        is_ascii(rule),
        dates::month_reached(today.year as int, today.month as int),
    ensures
        recurrence::rule_of(rule) matches Some(r) ==> days_readable(r, today),
{
    if let Some(r) = recurrence::rule_of(rule) {
        if let Some(days) = r.byday {
            let parts = text::split(rule, ';');
            let key = "BYDAY="@;
            lemma_ascii_pieces(rule, ';');
            let i = lemma_last_value(parts, key);
            let v = parts[i].skip(key.len() as int);
            assert(is_ascii(parts[i]));
            assert forall|k: int| 0 <= k < v.len() implies #[trigger] v[k] <= '\u{7f}' by {
                assert(v[k] == parts[i][k + key.len()]);
            }
            lemma_ascii_pieces(v, ',');
            assert forall|k: int| 0 <= k < days.len() implies recurrence::monthly_byday(
                #[trigger] days[k],
                today,
            ) is Some by {
                let d = days[k];
                assert(is_ascii(text::split(v, ',')[k]));
                lemma_ascii_bytes(d);
                if d.len() >= 2 {
                    agenda_laws::lemma_ascii_prefix(d, (d.len() - 2) as nat);
                }
            }
        }
    }
}

/// A last day that is written behind a rule that has none only takes days away.
pub proof fn lemma_last_day_takes_days_away(
    start: Date,
    rule: Seq<char>,
    day: Seq<char>,
    today: Date,
)
    requires
        recurrence::last_value(text::split(rule, ';'), "UNTIL="@) is None,
        !day.contains(';'),
    ensures
        recurrence::occurs(start, rule + (seq![';'] + ("UNTIL="@ + day)), today) == Some(true)
            ==> recurrence::occurs(start, rule, today) == Some(true),
{
    reveal_strlit("FREQ=");
    reveal_strlit("BYDAY=");
    reveal_strlit("UNTIL=");
    let part = "UNTIL="@ + day;
    let ended = rule + (seq![';'] + part);
    let parts = text::split(rule, ';');
    assert forall|i: int| 0 <= i < part.len() implies part[i] != ';' by {
        if i >= 6 {
            assert(part[i] == day[i - 6]);
            assert(day.contains(day[i - 6]));
        }
    }
    text::lemma_split_apart(rule, part, ';');
    text::lemma_char_index_none(part, ';', 0);
    let all = text::split(ended, ';');
    assert(all == parts + seq![part]);
    assert(all.drop_last() == parts);
    assert(all.last() == part);
    assert(part[0] == 'U');
    agenda_laws::lemma_key_at_front("FREQ="@, part);
    agenda_laws::lemma_key_at_front("BYDAY="@, part);
    if recurrence::readable_parts(all) {
        assert forall|i: int| 0 <= i < parts.len() && "UNTIL="@.is_prefix_of(
            #[trigger] parts[i],
        ) implies text::byte_prefix(parts[i].skip("UNTIL="@.len() as int), 8) is Some by {
            assert(all[i] == parts[i]);
        }
    }
}

/// A number is read as it is written, with or without a sign.
pub proof fn lemma_number_read_back(n: nat, width: nat)
    requires
        width > 0,
        n < agenda_laws::power_of_ten(width),
        n <= i32::MAX,
    ensures
        recurrence::number(dates::zero_padded(n, width)) == Some(n as int),
        recurrence::number(seq!['+'] + dates::zero_padded(n, width)) == Some(n as int),
        recurrence::number(seq!['-'] + dates::zero_padded(n, width)) == Some(-(n as int)),
{
    let digits = dates::zero_padded(n, width);
    agenda_laws::lemma_padded(n, width);
    assert(dates::is_digit(digits[0]));
    assert((seq!['+'] + digits).skip(1) == digits);
    assert((seq!['-'] + digits).skip(1) == digits);
}

/// A text with anything but digits in it, a sign at its beginning aside, is no number.
pub proof fn lemma_no_number(s: Seq<char>, i: int)
    requires
        0 <= i < s.len(),
        !dates::is_digit(s[i]),
        i == 0 ==> s[0] != '+' && s[0] != '-',
    ensures
        recurrence::number(s) is None,
{
    if s[0] == '-' || s[0] == '+' {
        assert(s.skip(1)[i - 1] == s[i]);
    }
}

/// The letters of a day of the week, and what stands before them, in an entry in ASCII.
proof fn lemma_entry_parts(prefix: Seq<char>, index: int)
    requires
        is_ascii(prefix),
        0 <= index < 7,
    ensures
        ({
            let d = prefix + recurrence::code(index);
            &&& text::byte_len(d) == prefix.len() + 2
            &&& text::byte_prefix(d, prefix.len()) == Some(prefix)
            &&& d.skip(prefix.len() as int) == recurrence::code(index)
        }),
{
    reveal_strlit("MO");
    reveal_strlit("TU");
    reveal_strlit("WE");
    reveal_strlit("TH");
    reveal_strlit("FR");
    reveal_strlit("SA");
    reveal_strlit("SU");
    let code = recurrence::code(index);
    let d = prefix + code;
    assert(code.len() == 2 && code[0] <= '\u{7f}' && code[1] <= '\u{7f}');
    assert forall|i: int| 0 <= i < d.len() implies #[trigger] d[i] <= '\u{7f}' by {
        if i < prefix.len() {
            assert(d[i] == prefix[i]);
        } else {
            assert(d[i] == code[i - prefix.len()]);
        }
    }
    lemma_ascii_bytes(d);
    agenda_laws::lemma_ascii_prefix(d, prefix.len());
    assert(d.take(prefix.len() as int) == prefix);
    assert(d.skip(prefix.len() as int) == code);
}

/// An entry without a number names every day of its name, and no other.
pub proof fn lemma_plain_entry(today: Date, index: int)
    requires
        0 <= index < 7,
    ensures
        recurrence::monthly_byday(recurrence::code(index), today) == Some(
            today.weekday_index() == index,
        ),
{
    let none = Seq::<char>::empty();
    lemma_entry_parts(none, index);
    assert(none + recurrence::code(index) == recurrence::code(index));
    assert(0 <= today.weekday_index() < 7);
    agenda_laws::lemma_codes_differ(index, today.weekday_index());
}

/// An entry with a number `n` names the day of its name that lies in the `n`-th seven days of the
/// month, and no other; with a minus sign it names the one that lies in the `n`-th seven days from
/// the month's end.
pub proof fn lemma_numbered_entry(today: Date, index: int, n: nat, width: nat)
    requires
        today.valid(),
        0 <= index < 7,
        1 <= n <= i32::MAX,
        width > 0,
        n < agenda_laws::power_of_ten(width),
    ensures
        recurrence::monthly_byday(
            dates::zero_padded(n, width) + recurrence::code(index),
            today,
        ) == Some(today.weekday_index() == index && 7 * (n - 1) < today.day <= 7 * n),
        recurrence::monthly_byday(
            seq!['+'] + dates::zero_padded(n, width) + recurrence::code(index),
            today,
        ) == Some(today.weekday_index() == index && 7 * (n - 1) < today.day <= 7 * n),
        dates::month_reached(today.year as int, today.month as int) ==> ({
            let length = dates::days_in_month(today.year as int, today.month as int);
            recurrence::monthly_byday(
                seq!['-'] + dates::zero_padded(n, width) + recurrence::code(index),
                today,
            ) == Some(
                today.weekday_index() == index && today.day + 7 * n > length && length >= today.day
                    + 7 * (n - 1),
            )
        }),
{
    let digits = dates::zero_padded(n, width);
    let plus = seq!['+'] + digits;
    let minus = seq!['-'] + digits;
    agenda_laws::lemma_padded(n, width);
    lemma_number_read_back(n, width);
    assert forall|i: int| 0 <= i < digits.len() implies #[trigger] digits[i] <= '\u{7f}' by {
        assert(dates::is_digit(digits[i]));
    }
    assert forall|i: int| 0 <= i < plus.len() implies #[trigger] plus[i] <= '\u{7f}' by {
        if i > 0 {
            assert(plus[i] == digits[i - 1]);
        }
    }
    assert forall|i: int| 0 <= i < minus.len() implies #[trigger] minus[i] <= '\u{7f}' by {
        if i > 0 {
            assert(minus[i] == digits[i - 1]);
        }
    }
    lemma_entry_parts(digits, index);
    lemma_entry_parts(plus, index);
    lemma_entry_parts(minus, index);
    assert(0 <= today.weekday_index() < 7);
    agenda_laws::lemma_codes_differ(index, today.weekday_index());
}

/// An entry with the number 0 names no day.
pub proof fn lemma_entry_with_zero(today: Date, index: int, width: nat)
    requires
        today.valid(),
        dates::month_reached(today.year as int, today.month as int),
        0 <= index < 7,
        width > 0,
    ensures
        recurrence::monthly_byday(
            dates::zero_padded(0, width) + recurrence::code(index),
            today,
        ) == Some(false),
{
    let digits = dates::zero_padded(0, width);
    lemma_some_power(width);
    agenda_laws::lemma_padded(0, width);
    lemma_number_read_back(0, width);
    assert forall|i: int| 0 <= i < digits.len() implies #[trigger] digits[i] <= '\u{7f}' by {
        assert(dates::is_digit(digits[i]));
    }
    lemma_entry_parts(digits, index);
}

/// A power of ten is more than 0.
proof fn lemma_some_power(width: nat)
    ensures
        agenda_laws::power_of_ten(width) > 0,
    decreases width,
{
    if width > 0 {
        lemma_some_power((width - 1) as nat);
    }
}

/// An entry whose letters are those of a day of the week, and which has something else than a number
/// before them, names no day.
pub proof fn lemma_entry_without_number(prefix: Seq<char>, i: int, index: int, today: Date)
    requires
        is_ascii(prefix),
        0 <= i < prefix.len(),
        !dates::is_digit(prefix[i]),
        i == 0 ==> prefix[0] != '+' && prefix[0] != '-',
        0 <= index < 7,
    ensures
        recurrence::monthly_byday(prefix + recurrence::code(index), today) == Some(false),
{
    lemma_entry_parts(prefix, index);
    lemma_no_number(prefix, i);
}

/// An entry that does not end with the letters of a day of the week names no day.
pub proof fn lemma_entry_of_no_day(prefix: Seq<char>, letters: Seq<char>, today: Date)
    requires
        is_ascii(prefix),
        is_ascii(letters),
        letters.len() == 2,
        letters != recurrence::code(today.weekday_index()),
    ensures
        recurrence::monthly_byday(prefix + letters, today) == Some(false),
{
    let d = prefix + letters;
    assert forall|i: int| 0 <= i < d.len() implies #[trigger] d[i] <= '\u{7f}' by {
        if i < prefix.len() {
            assert(d[i] == prefix[i]);
        } else {
            assert(d[i] == letters[i - prefix.len()]);
        }
    }
    lemma_ascii_bytes(d);
    agenda_laws::lemma_ascii_prefix(d, prefix.len());
    assert(d.take(prefix.len() as int) == prefix);
    assert(d.skip(prefix.len() as int) == letters);
}

/// The day of the name in the `n`-th seven days from the end of a month.
proof fn lemma_day_from_end(year: i32, month: u32, index: int, n: nat) -> (d: Date)
    requires
        dates::valid_ymd(year as int, month as int, 1),
        0 <= index < 7,
        1 <= n <= 4,
    ensures
        d.valid(),
        d.year == year,
        d.month == month,
        d.weekday_index() == index,
        d.day + 7 * n > dates::days_in_month(year as int, month as int),
        dates::days_in_month(year as int, month as int) >= d.day + 7 * (n - 1),
{
    let length = dates::days_in_month(year as int, month as int);
    let last = Date { year, month, day: length as u32 };
    let m = last.number() - 1;
    let days = (m % 7 - index) % 7;
    lemma_weeks_back(m, index, n - 1);
    let back = days + 7 * (n - 1);
    assert(28 <= length <= 31);
    let d = Date { year, month, day: (length - back) as u32 };
    assert(d.day == length - back);
    assert(d.number() - 1 == m - back);
    d
}

/// Counting back to a day of a name, and some weeks more, ends on a day of that name.
proof fn lemma_weeks_back(m: int, index: int, weeks: int)
    requires
        0 <= index < 7,
    ensures
        0 <= (m % 7 - index) % 7 < 7,
        (m - ((m % 7 - index) % 7 + 7 * weeks)) % 7 == index,
{
}

/// Two days of one name in a month lie a number of weeks apart.
proof fn lemma_same_name(a: Date, b: Date)
    requires
        a.year == b.year,
        a.month == b.month,
        a.weekday_index() == b.weekday_index(),
    ensures
        (b.day - a.day) % 7 == 0,
{
    let x = a.number() - 1;
    let y = b.number() - 1;
    assert(y - x == b.day - a.day);
    assert(x % 7 == y % 7);
    assert((y - x) % 7 == 0);
}

/// Every month has exactly one last day of each name, and a last but one, but two and but three: the
/// day of the name in the month's last seven days, and so on back.
pub proof fn lemma_numbered_from_end_exists(year: i32, month: u32, index: int, n: nat) -> (d: Date)
    requires
        dates::valid_ymd(year as int, month as int, 1),
        dates::month_reached(year as int, month as int),
        0 <= index < 7,
        1 <= n <= 4,
    ensures
        d.valid(),
        d.year == year,
        d.month == month,
        recurrence::monthly_byday(
            seq!['-'] + dates::zero_padded(n, 1) + recurrence::code(index),
            d,
        ) == Some(true),
        forall|e: Date|
            e.valid() && e.year == year && e.month == month && #[trigger] recurrence::monthly_byday(
                seq!['-'] + dates::zero_padded(n, 1) + recurrence::code(index),
                e,
            ) == Some(true) ==> e == d,
{
    reveal_with_fuel(agenda_laws::power_of_ten, 3);
    let d = lemma_day_from_end(year, month, index, n);
    lemma_numbered_entry(d, index, n, 1);
    let entry = seq!['-'] + dates::zero_padded(n, 1) + recurrence::code(index);
    assert forall|e: Date|
        e.valid() && e.year == year && e.month == month && #[trigger] recurrence::monthly_byday(
            entry,
            e,
        ) == Some(true) implies e == d by {
        lemma_numbered_entry(e, index, n, 1);
        lemma_same_name(d, e);
    }
    d
}

/// A monthly event whose rule lists days takes place on exactly the days that one of the entries
/// names.
pub proof fn lemma_monthly_on_listed_days(start: Date, rule: recurrence::RuleModel, today: Date)
    requires
        rule.freq == "MONTHLY"@,
        agenda_laws::not_ended(rule, today),
        rule.byday matches Some(days) && entries_readable(days, today),
    ensures
        recurrence::recurs(start, rule, today) == Some(
            exists|d: Seq<char>| #[trigger]
                rule.byday->0.contains(d) && recurrence::monthly_byday(d, today) == Some(true),
        ),
{
    agenda_laws::lemma_frequencies_differ();
    lemma_some_entry(rule.byday->0, today);
}

/// Whether the letters of the day of the week stand in one of the entries.
pub open spec fn lists_weekday(days: Seq<Seq<char>>, today: Date) -> bool {
    exists|d: Seq<char>| #[trigger]
        days.contains(d) && text::contains_text(d, recurrence::code(today.weekday_index()))
}

/// Whether one of the entries names the day of the month.
pub open spec fn lists_day(days: Seq<Seq<char>>, today: Date) -> bool {
    exists|d: Seq<char>| #[trigger]
        days.contains(d) && recurrence::monthly_byday(d, today) == Some(true)
}

/// Whether an event takes place, told from the places of the days in the count of days.
pub open spec fn is_due(start: Date, rule: recurrence::RuleModel, today: Date) -> bool {
    &&& start.number() <= today.number()
    &&& rule.until matches Some(last) ==> today.number() <= last.number()
    &&& rule.freq == "DAILY"@ || rule.freq == "WEEKLY"@ || rule.freq == "MONTHLY"@ || rule.freq
        == "YEARLY"@
    &&& rule.freq == "DAILY"@ || rule.freq == "WEEKLY"@ ==> (rule.byday matches Some(days)
        ==> lists_weekday(days, today))
    &&& rule.freq == "WEEKLY"@ && rule.byday is None ==> (today.number() - start.number()) % 7 == 0
    &&& rule.freq == "MONTHLY"@ ==> match rule.byday {
        Some(days) => lists_day(days, today),
        None => today.day == start.day,
    }
    &&& rule.freq == "YEARLY"@ ==> today.day == start.day && today.month == start.month
}

/// An event takes place on a day exactly where the day lies between its first and its last, both
/// among them, and its rule names the day.
pub proof fn lemma_occurs(start: Date, text: Seq<char>, today: Date)
    requires
        start.valid(),
        today.valid(),
        recurrence::rule_of(text) matches Some(rule) && days_readable(rule, today) && (
        rule.until matches Some(last) ==> last.valid()),
    ensures
        recurrence::occurs(start, text, today) == Some(
            is_due(start, recurrence::rule_of(text)->0, today),
        ),
{
    let rule = recurrence::rule_of(text)->0;
    dates::lemma_order(today, start);
    dates::lemma_order(start, today);
    let ended = rule.until matches Some(last) && last.before(today);
    assert(ended <==> !(rule.until matches Some(last) ==> today.number() <= last.number())) by {
        if let Some(last) = rule.until {
            dates::lemma_order(last, today);
        }
    }
    if !today.before(start) && !ended {
        lemma_recurs(start, rule, today);
    }
}

/// An event that has begun and not ended takes place where its rule names the day.
#[verifier::spinoff_prover]
proof fn lemma_recurs(start: Date, rule: recurrence::RuleModel, today: Date)
    requires
        start.valid(),
        today.valid(),
        days_readable(rule, today),
        agenda_laws::not_ended(rule, today),
        start.number() <= today.number(),
        rule.until matches Some(last) ==> today.number() <= last.number(),
    ensures
        recurrence::recurs(start, rule, today) == Some(is_due(start, rule, today)),
{
    agenda_laws::lemma_frequencies_differ();
    if let Some(days) = rule.byday {
        lemma_lists_weekday(days, today);
        if rule.freq == "MONTHLY"@ {
            lemma_some_entry(days, today);
        }
    } else if rule.freq == "WEEKLY"@ {
        agenda_laws::lemma_weekdays_follow(start, today);
    }
}

/// An entry holds the letters exactly where one at some place does.
proof fn lemma_lists_weekday(days: Seq<Seq<char>>, today: Date)
    ensures
        recurrence::some_weekly_byday(days, today) == lists_weekday(days, today),
{
    let code = recurrence::code(today.weekday_index());
    if recurrence::some_weekly_byday(days, today) {
        let i = choose|i: int|
            0 <= i < days.len() && text::contains_text(#[trigger] days[i], code);
        assert(days.contains(days[i]));
    }
    if lists_weekday(days, today) {
        let d = choose|d: Seq<char>| #[trigger] days.contains(d) && text::contains_text(d, code);
        let i = choose|i: int| 0 <= i < days.len() && days[i] == d;
        assert(text::contains_text(days[i], code));
    }
}

/// The empty rule says nothing.
pub proof fn lemma_empty_rule()
    ensures
        recurrence::rule_of(Seq::<char>::empty()) == Some(
            recurrence::RuleModel { freq: Seq::empty(), byday: None, until: None },
        ),
{
    reveal_strlit("FREQ=");
    reveal_strlit("BYDAY=");
    reveal_strlit("UNTIL=");
    let none = Seq::<char>::empty();
    let parts = text::split(none, ';');
    assert(text::char_index(none, ';', 0) is None);
    assert(parts == seq![none]);
    assert(parts.drop_last().len() == 0);
    assert(recurrence::last_value(parts.drop_last(), "FREQ="@) is None);
    assert(recurrence::last_value(parts.drop_last(), "BYDAY="@) is None);
    assert(recurrence::last_value(parts.drop_last(), "UNTIL="@) is None);
}

/// The parts of a rule behind which a part is written.
proof fn lemma_one_part_more(rule: Seq<char>, part: Seq<char>)
    requires
        !part.contains(';'),
    ensures
        text::split(rule + (seq![';'] + part), ';') == text::split(rule, ';').push(part),
        text::split(rule, ';').push(part).drop_last() == text::split(rule, ';'),
        recurrence::readable_parts(text::split(rule, ';').push(part)) <==> (
        recurrence::readable_parts(text::split(rule, ';')) && ("UNTIL="@.is_prefix_of(part)
            ==> text::byte_prefix(part.skip("UNTIL="@.len() as int), 8) is Some)),
{
    let parts = text::split(rule, ';');
    let all = parts.push(part);
    assert forall|i: int| 0 <= i < part.len() implies part[i] != ';' by {
        assert(part.contains(part[i]));
    }
    text::lemma_split_apart(rule, part, ';');
    text::lemma_char_index_none(part, ';', 0);
    assert(text::split(part, ';') == seq![part]);
    assert(parts + seq![part] == all);
    assert(all.drop_last() == parts);
    let key = "UNTIL="@;
    if recurrence::readable_parts(all) {
        assert forall|i: int| 0 <= i < parts.len() && key.is_prefix_of(
            #[trigger] parts[i],
        ) implies text::byte_prefix(parts[i].skip(key.len() as int), 8) is Some by {
            assert(all[i] == parts[i]);
        }
        assert(all[parts.len() as int] == part);
    }
    if recurrence::readable_parts(parts) && (key.is_prefix_of(part) ==> text::byte_prefix(
        part.skip(key.len() as int),
        8,
    ) is Some) {
        assert forall|i: int| 0 <= i < all.len() && key.is_prefix_of(
            #[trigger] all[i],
        ) implies text::byte_prefix(all[i].skip(key.len() as int), 8) is Some by {
            if i < parts.len() {
                assert(all[i] == parts[i]);
            }
        }
    }
}

/// A key in front of a value, as a part.
proof fn lemma_key_and_value(key: Seq<char>, value: Seq<char>)
    requires
        !key.contains(';'),
        !value.contains(';'),
    ensures
        key.is_prefix_of(key + value),
        (key + value).skip(key.len() as int) == value,
        !(key + value).contains(';'),
{
    let part = key + value;
    assert(part.subrange(0, key.len() as int) == key);
    assert(part.skip(key.len() as int) == value);
    if part.contains(';') {
        let i = choose|i: int| 0 <= i < part.len() && part[i] == ';';
        if i < key.len() {
            assert(key[i] == ';');
        } else {
            assert(value[i - key.len()] == ';');
        }
    }
}

/// The characters of the keys.
proof fn lemma_keys()
    ensures
        "FREQ="@ == seq!['F', 'R', 'E', 'Q', '='],
        "BYDAY="@ == seq!['B', 'Y', 'D', 'A', 'Y', '='],
        "UNTIL="@ == seq!['U', 'N', 'T', 'I', 'L', '='],
        !"FREQ="@.contains(';'),
        !"BYDAY="@.contains(';'),
        !"UNTIL="@.contains(';'),
{
    reveal_strlit("FREQ=");
    reveal_strlit("BYDAY=");
    reveal_strlit("UNTIL=");
    assert("FREQ="@ =~= seq!['F', 'R', 'E', 'Q', '=']);
    assert("BYDAY="@ =~= seq!['B', 'Y', 'D', 'A', 'Y', '=']);
    assert("UNTIL="@ =~= seq!['U', 'N', 'T', 'I', 'L', '=']);
}

/// A frequency that is written behind a rule takes the place of the one before, and changes nothing
/// else.
pub proof fn lemma_frequency_written(rule: Seq<char>, freq: Seq<char>)
    requires
        recurrence::rule_of(rule) is Some,
        !freq.contains(';'),
    ensures
        recurrence::rule_of(rule + (seq![';'] + ("FREQ="@ + freq))) == Some(
            recurrence::RuleModel { freq, ..recurrence::rule_of(rule)->0 },
        ),
{
    lemma_keys();
    let part = "FREQ="@ + freq;
    lemma_key_and_value("FREQ="@, freq);
    lemma_one_part_more(rule, part);
    agenda_laws::lemma_key_at_front("BYDAY="@, part);
    agenda_laws::lemma_key_at_front("UNTIL="@, part);
}

/// A list of days that is written behind a rule takes the place of the one before, and changes
/// nothing else.
pub proof fn lemma_days_written(rule: Seq<char>, days: Seq<Seq<char>>)
    requires
        recurrence::rule_of(rule) is Some,
        days.len() > 0,
        forall|i: int|
            0 <= i < days.len() ==> !(#[trigger] days[i]).contains(',') && !days[i].contains(';'),
    ensures
        recurrence::rule_of(
            rule + (seq![';'] + ("BYDAY="@ + text::joined(days, seq![',']))),
        ) == Some(
            recurrence::RuleModel { byday: Some(days), ..recurrence::rule_of(rule)->0 },
        ),
{
    lemma_keys();
    let list = text::joined(days, seq![',']);
    let part = "BYDAY="@ + list;
    assert forall|i: int| 0 <= i < days.len() implies !(#[trigger] days[i]).contains(';') by {
        assert(!days[i].contains(','));
    }
    text::lemma_joined_without(days, seq![','], ';');
    text::lemma_split_undoes_joining(days, ',');
    lemma_key_and_value("BYDAY="@, list);
    lemma_one_part_more(rule, part);
    agenda_laws::lemma_key_at_front("FREQ="@, part);
    agenda_laws::lemma_key_at_front("UNTIL="@, part);
}

/// A last day that is written behind a rule, with or without a time behind it, takes the place of the
/// one before, and changes nothing else.
pub proof fn lemma_last_day_written(rule: Seq<char>, day: Date, rest: Seq<char>)
    requires
        recurrence::rule_of(rule) is Some,
        day.valid(),
        0 <= day.year <= 9999,
        !rest.contains(';'),
    ensures
        recurrence::rule_of(
            rule + (seq![';'] + ("UNTIL="@ + (dates::date_text(day, "%Y%m%d"@) + rest))),
        ) == Some(
            recurrence::RuleModel { until: Some(day), ..recurrence::rule_of(rule)->0 },
        ),
{
    lemma_keys();
    let text = dates::date_text(day, "%Y%m%d"@);
    let value = text + rest;
    let part = "UNTIL="@ + value;
    agenda_laws::lemma_day_read_back(day);
    assert forall|i: int| 0 <= i < 8 implies #[trigger] value[i] <= '\u{7f}' by {
        assert(value[i] == text[i]);
        assert(dates::is_digit(text[i]));
    }
    agenda_laws::lemma_ascii_prefix(value, 8);
    assert(value.take(8) == text);
    assert(!value.contains(';')) by {
        if value.contains(';') {
            let i = choose|i: int| 0 <= i < value.len() && value[i] == ';';
            if i < 8 {
                assert(dates::is_digit(text[i]));
            } else {
                assert(rest[i - 8] == ';');
            }
        }
    }
    lemma_key_and_value("UNTIL="@, value);
    lemma_one_part_more(rule, part);
    agenda_laws::lemma_key_at_front("FREQ="@, part);
    agenda_laws::lemma_key_at_front("BYDAY="@, part);
}

/// Whatever ASCII text is written behind a rule as its last day, the first eight characters of it, or
/// all where there are fewer, say which day that is, and nothing else changes.
pub proof fn lemma_other_last_day_written(rule: Seq<char>, value: Seq<char>)
    requires
        recurrence::rule_of(rule) is Some,
        is_ascii(value),
        !value.contains(';'),
    ensures
        recurrence::rule_of(rule + (seq![';'] + ("UNTIL="@ + value))) == Some(
            recurrence::RuleModel {
                until: recurrence::date_of(
                    dates::date_in(
                        if value.len() > 8 {
                            value.take(8)
                        } else {
                            value
                        },
                    ),
                ),
                ..recurrence::rule_of(rule)->0
            },
        ),
{
    lemma_keys();
    let part = "UNTIL="@ + value;
    if value.len() > 8 {
        agenda_laws::lemma_ascii_prefix(value, 8);
    } else {
        lemma_ascii_bytes(value);
        text::lemma_short_prefix(value, 8);
    }
    lemma_key_and_value("UNTIL="@, value);
    lemma_one_part_more(rule, part);
    agenda_laws::lemma_key_at_front("FREQ="@, part);
    agenda_laws::lemma_key_at_front("BYDAY="@, part);
}

/// A last day that the calendar does not have, written behind a rule, takes away the one before, and
/// changes nothing else: the event recurs without an end.
pub proof fn lemma_last_day_that_no_month_has(
    rule: Seq<char>,
    year: nat,
    month: nat,
    day: nat,
    rest: Seq<char>,
)
    requires
        recurrence::rule_of(rule) is Some,
        year < 10000,
        month < 100,
        day < 100,
        !dates::valid_ymd(year as int, month as int, day as int),
        !rest.contains(';'),
    ensures
        recurrence::rule_of(
            rule + (seq![';'] + ("UNTIL="@ + (dates::zero_padded(year, 4) + dates::zero_padded(
                month,
                2,
            ) + dates::zero_padded(day, 2) + rest))),
        ) == Some(recurrence::RuleModel { until: None, ..recurrence::rule_of(rule)->0 }),
{
    reveal_with_fuel(agenda_laws::power_of_ten, 5);
    agenda_laws::lemma_padded(year, 4);
    agenda_laws::lemma_padded(month, 2);
    agenda_laws::lemma_padded(day, 2);
    let y = dates::zero_padded(year, 4);
    let m = dates::zero_padded(month, 2);
    let e = dates::zero_padded(day, 2);
    let text = y + m + e;
    assert forall|i: int| 0 <= i < 8 implies dates::is_digit(#[trigger] text[i]) by {
        if i < 4 {
            assert(text[i] == y[i]);
        } else if i < 6 {
            assert(text[i] == m[i - 4]);
        } else {
            assert(text[i] == e[i - 6]);
        }
    }
    assert(text.subrange(0, 4) == y);
    assert(text.subrange(4, 6) == m);
    assert(text.subrange(6, 8) == e);
    lemma_keys();
    let value = text + rest;
    let part = "UNTIL="@ + value;
    assert forall|i: int| 0 <= i < 8 implies #[trigger] value[i] <= '\u{7f}' by {
        assert(value[i] == text[i]);
        assert(dates::is_digit(text[i]));
    }
    agenda_laws::lemma_ascii_prefix(value, 8);
    assert(value.take(8) == text);
    assert(!value.contains(';')) by {
        if value.contains(';') {
            let i = choose|i: int| 0 <= i < value.len() && value[i] == ';';
            if i < 8 {
                assert(dates::is_digit(text[i]));
            } else {
                assert(rest[i - 8] == ';');
            }
        }
    }
    lemma_key_and_value("UNTIL="@, value);
    lemma_one_part_more(rule, part);
    agenda_laws::lemma_key_at_front("FREQ="@, part);
    agenda_laws::lemma_key_at_front("BYDAY="@, part);
}

/// A part with another key that is written behind a rule changes nothing.
pub proof fn lemma_other_part_written(rule: Seq<char>, part: Seq<char>)
    requires
        !part.contains(';'),
        !"FREQ="@.is_prefix_of(part),
        !"BYDAY="@.is_prefix_of(part),
        !"UNTIL="@.is_prefix_of(part),
    ensures
        recurrence::rule_of(rule + (seq![';'] + part)) == recurrence::rule_of(rule),
{
    lemma_one_part_more(rule, part);
}

/// A semicolon before a rule changes nothing.
pub proof fn lemma_leading_semicolon(rule: Seq<char>)
    ensures
        recurrence::rule_of(seq![';'] + rule) == recurrence::rule_of(rule),
{
    lemma_keys();
    let none = Seq::<char>::empty();
    text::lemma_split_apart(none, rule, ';');
    assert(none + (seq![';'] + rule) == seq![';'] + rule);
    assert(text::char_index(none, ';', 0) is None);
    let parts = text::split(rule, ';');
    let all = seq![none] + parts;
    assert(text::split(seq![';'] + rule, ';') == all);
    lemma_nothing_in_front(parts, "FREQ="@);
    lemma_nothing_in_front(parts, "BYDAY="@);
    lemma_nothing_in_front(parts, "UNTIL="@);
    let key = "UNTIL="@;
    if recurrence::readable_parts(parts) {
        assert forall|i: int| 0 <= i < all.len() && key.is_prefix_of(
            #[trigger] all[i],
        ) implies text::byte_prefix(all[i].skip(key.len() as int), 8) is Some by {
            if i > 0 {
                assert(all[i] == parts[i - 1]);
            }
        }
    }
    if recurrence::readable_parts(all) {
        assert forall|i: int| 0 <= i < parts.len() && key.is_prefix_of(
            #[trigger] parts[i],
        ) implies text::byte_prefix(parts[i].skip(key.len() as int), 8) is Some by {
            assert(all[i + 1] == parts[i]);
        }
    }
}

/// An empty part in front changes no value.
proof fn lemma_nothing_in_front(parts: Seq<Seq<char>>, key: Seq<char>)
    requires
        key.len() > 0,
    ensures
        recurrence::last_value(seq![Seq::<char>::empty()] + parts, key) == recurrence::last_value(
            parts,
            key,
        ),
    decreases parts.len(),
{
    let none = Seq::<char>::empty();
    let all = seq![none] + parts;
    if parts.len() == 0 {
        assert(all.last() == none);
        assert(all.drop_last().len() == 0);
        assert(recurrence::last_value(all.drop_last(), key) is None);
    } else {
        assert(all.last() == parts.last());
        assert(all.drop_last() == seq![none] + parts.drop_last());
        lemma_nothing_in_front(parts.drop_last(), key);
    }
}

}

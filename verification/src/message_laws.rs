//! What holds of the summaries.

use crate::agenda;
use crate::agenda_laws;
use crate::dates;
use crate::dates::{Date, DateTime};
use crate::message;
use crate::text;
use vstd::prelude::*;

verus! {

/// The characters of the entities.
proof fn lemma_entities()
    ensures
        "&amp;"@ == seq!['&', 'a', 'm', 'p', ';'],
        "&lt;"@ == seq!['&', 'l', 't', ';'],
        "&gt;"@ == seq!['&', 'g', 't', ';'],
        "&quot;"@ == seq!['&', 'q', 'u', 'o', 't', ';'],
{
    reveal_strlit("&amp;");
    reveal_strlit("&lt;");
    reveal_strlit("&gt;");
    reveal_strlit("&quot;");
    assert("&amp;"@ =~= seq!['&', 'a', 'm', 'p', ';']);
    assert("&lt;"@ =~= seq!['&', 'l', 't', ';']);
    assert("&gt;"@ =~= seq!['&', 'g', 't', ';']);
    assert("&quot;"@ =~= seq!['&', 'q', 'u', 'o', 't', ';']);
}

/// A text for HTML holds no character by which a tag or a quoted value could begin or end, and each
/// `&` in it begins one of the four entities.
pub proof fn lemma_escaped_is_text(s: Seq<char>, i: int)
    requires
        0 <= i < message::html_escaped(s).len(),
    ensures
        message::html_escaped(s)[i] != '<',
        message::html_escaped(s)[i] != '>',
        message::html_escaped(s)[i] != '"',
        message::html_escaped(s)[i] == '&' ==> {
            ||| text::occurs_at(message::html_escaped(s), "&amp;"@, i)
            ||| text::occurs_at(message::html_escaped(s), "&lt;"@, i)
            ||| text::occurs_at(message::html_escaped(s), "&gt;"@, i)
            ||| text::occurs_at(message::html_escaped(s), "&quot;"@, i)
        },
    decreases s.len(),
{
    lemma_entities();
    if s.len() > 0 {
        let front = message::html_escaped(s.drop_last());
        let e = message::entity(s.last());
        let whole = message::html_escaped(s);
        assert(whole == front + e);
        if i < front.len() {
            lemma_escaped_is_text(s.drop_last(), i);
            lemma_stays(front, e, "&amp;"@, i);
            lemma_stays(front, e, "&lt;"@, i);
            lemma_stays(front, e, "&gt;"@, i);
            lemma_stays(front, e, "&quot;"@, i);
        } else {
            assert(whole[i] == e[i - front.len()]);
            if whole[i] == '&' {
                assert(i == front.len());
                assert(whole.subrange(i, i + e.len()) == e);
            }
        }
    }
}

/// What stands in a text stands there when more is written behind it.
proof fn lemma_stays(a: Seq<char>, b: Seq<char>, p: Seq<char>, i: int)
    ensures
        text::occurs_at(a, p, i) ==> text::occurs_at(a + b, p, i),
{
    if text::occurs_at(a, p, i) {
        assert((a + b).subrange(i, i + p.len()) == a.subrange(i, i + p.len()));
    }
}

/// Writing two texts for HTML one after the other is writing them together.
pub proof fn lemma_escapes_add_up(a: Seq<char>, b: Seq<char>)
    ensures
        message::html_escaped(a + b) == message::html_escaped(a) + message::html_escaped(b),
    decreases b.len(),
{
    if b.len() == 0 {
        assert(a + b == a);
        assert(message::html_escaped(a) + message::html_escaped(b) == message::html_escaped(a));
    } else {
        lemma_escapes_add_up(a, b.drop_last());
        assert((a + b).drop_last() == a + b.drop_last());
        assert((a + b).last() == b.last());
        assert(message::html_escaped(a) + message::html_escaped(b.drop_last()) + message::entity(
            b.last(),
        ) == message::html_escaped(a) + (message::html_escaped(b.drop_last()) + message::entity(
            b.last(),
        )));
    }
}

/// The `k`-th of the characters that HTML text cannot hold as they are.
spec fn special(k: int) -> char {
    if k == 0 {
        '&'
    } else if k == 1 {
        '<'
    } else if k == 2 {
        '>'
    } else {
        '"'
    }
}

/// What stands for a character when the first `k` of the special ones have been replaced.
spec fn staged_char(c: char, k: int) -> Seq<char> {
    if c == '&' && k < 1 || c == '<' && k < 2 || c == '>' && k < 3 || c == '"' && k < 4 {
        seq![c]
    } else {
        message::entity(c)
    }
}

/// What stands for a text when the first `k` of the special characters have been replaced.
spec fn staged(s: Seq<char>, k: int) -> Seq<char>
    decreases s.len(),
{
    if s.len() == 0 {
        s
    } else {
        staged_char(s[0], k) + staged(s.skip(1), k)
    }
}

/// Replacing one more of the special characters.
proof fn lemma_stage(s: Seq<char>, k: int)
    requires
        0 <= k < 4,
    ensures
        text::replaced(staged(s, k), seq![special(k)], message::entity(special(k))) == staged(
            s,
            k + 1,
        ),
    decreases s.len(),
{
    if s.len() > 0 {
        lemma_entities();
        let p = seq![special(k)];
        let q = message::entity(special(k));
        let t = staged_char(s[0], k);
        let rest = staged(s.skip(1), k);
        lemma_stage(s.skip(1), k);
        if s[0] == special(k) {
            assert(t == p);
            text::lemma_replaced_front(rest, p, q);
        } else {
            assert(staged_char(s[0], k + 1) == t);
            assert forall|i: int| 0 <= i < t.len() implies !p.is_prefix_of(
                #[trigger] (t + rest).skip(i),
            ) by {
                let u = (t + rest).skip(i);
                assert(u[0] == t[i]);
                assert(t[i] != special(k));
                if p.is_prefix_of(u) {
                    assert(u.subrange(0, 1)[0] == p[0]);
                }
            }
            text::lemma_replaced_keeps(t, rest, p, q);
        }
    }
}

/// Before anything is replaced the text stands as it is; when all is replaced it stands as in HTML.
proof fn lemma_stages_meet(s: Seq<char>)
    ensures
        staged(s, 0) == s,
        staged(s, 4) == message::html_escaped(s),
    decreases s.len(),
{
    if s.len() > 0 {
        let first = seq![s[0]];
        let rest = s.skip(1);
        lemma_stages_meet(rest);
        assert(first + rest == s);
        lemma_escapes_add_up(first, rest);
        assert(first.drop_last() == Seq::<char>::empty());
        assert(message::html_escaped(first.drop_last()) + message::entity(s[0])
            == message::entity(s[0]));
        assert(message::html_escaped(first) == message::entity(s[0]));
    }
}

/// Writing a text for HTML is replacing first every `&`, then every `<`, `>` and `"`.
pub proof fn lemma_escape_by_replacing(s: Seq<char>)
    ensures
        message::html_escaped(s) == text::replaced(
            text::replaced(
                text::replaced(
                    text::replaced(s, seq!['&'], "&amp;"@),
                    seq!['<'],
                    "&lt;"@,
                ),
                seq!['>'],
                "&gt;"@,
            ),
            seq!['"'],
            "&quot;"@,
        ),
{
    lemma_stages_meet(s);
    lemma_stage(s, 0);
    lemma_stage(s, 1);
    lemma_stage(s, 2);
    lemma_stage(s, 3);
}

/// How many events the lists hold.
pub open spec fn event_count(lists: Seq<(Date, Seq<agenda::DayEventModel>)>) -> nat
    decreases lists.len(),
{
    if lists.len() == 0 {
        0
    } else {
        event_count(lists.drop_last()) + lists.last().1.len()
    }
}

/// A summary of several days has a line for each event, plain and in HTML, and there is such a line
/// exactly where one of the days has an event.
pub proof fn lemma_one_line_for_each_event(lists: Seq<(Date, Seq<agenda::DayEventModel>)>)
    ensures
        message::plain_day_lines(lists).len() == event_count(lists),
        message::html_day_lines(lists).len() == event_count(lists),
        message::has_events(lists) <==> event_count(lists) > 0,
    decreases lists.len(),
{
    if lists.len() > 0 {
        let front = lists.drop_last();
        lemma_one_line_for_each_event(front);
        if message::has_events(lists) {
            let i = choose|i: int| 0 <= i < lists.len() && (#[trigger] lists[i]).1.len() > 0;
            if i < front.len() {
                assert(front[i].1.len() > 0);
            }
        }
        if event_count(lists) > 0 {
            if lists.last().1.len() > 0 {
                assert(lists[lists.len() - 1].1.len() > 0);
            } else {
                let i = choose|i: int| 0 <= i < front.len() && (#[trigger] front[i]).1.len() > 0;
                assert(lists[i].1.len() > 0);
            }
        }
    }
}

/// A day without events leaves no trace in a summary of several days.
pub proof fn lemma_empty_day_leaves_no_trace(
    header: Seq<char>,
    lists: Seq<(Date, Seq<agenda::DayEventModel>)>,
    day: Date,
)
    ensures
        message::days_message(header, lists.push((day, Seq::empty()))) == message::days_message(
            header,
            lists,
        ),
{
    let more = lists.push((day, Seq::<agenda::DayEventModel>::empty()));
    assert(more.drop_last() == lists);
    lemma_one_line_for_each_event(lists);
    lemma_one_line_for_each_event(more);
    assert(message::plain_day_lines(more) == message::plain_day_lines(lists));
    assert(message::html_day_lines(more) == message::html_day_lines(lists));
}

/// The place of an event stands in brackets directly behind its name, in HTML in italics and escaped;
/// it does not depend on the time of the event, and an event without a place ends with its name.
pub proof fn lemma_place_stands_behind_the_name(
    prefix: Seq<char>,
    e: agenda::DayEventModel,
    place: Seq<char>,
)
    ensures
        message::plain_line(prefix, agenda::DayEventModel { location: Some(place), ..e })
            == message::plain_line(prefix, agenda::DayEventModel { location: None, ..e }) + " ["@
            + place + "]"@,
        message::html_line(prefix, agenda::DayEventModel { location: Some(place), ..e })
            == message::html_line(prefix, agenda::DayEventModel { location: None, ..e })
            + " <em>["@ + message::html_escaped(place) + "]</em>"@,
        e.summary.is_suffix_of(
            message::plain_line(prefix, agenda::DayEventModel { location: None, ..e }),
        ),
        message::html_escaped(e.summary).is_suffix_of(
            message::html_line(prefix, agenda::DayEventModel { location: None, ..e }),
        ),
{
    let bare = agenda::DayEventModel { location: None, ..e };
    let plain = message::plain_line(prefix, bare);
    let html = message::html_line(prefix, bare);
    let name = message::html_escaped(e.summary);
    assert(plain + (" ["@ + place + "]"@) == plain + " ["@ + place + "]"@);
    assert(html + (" <em>["@ + message::html_escaped(place) + "]</em>"@) == html + " <em>["@
        + message::html_escaped(place) + "]</em>"@);
    assert(plain.subrange(plain.len() - e.summary.len(), plain.len() as int) == e.summary);
    assert(html.subrange(html.len() - name.len(), html.len() as int) == name);
    assert(message::plain_line(prefix, agenda::DayEventModel { location: Some(place), ..e })
        == plain + (" ["@ + place + "]"@));
    assert(message::html_line(prefix, agenda::DayEventModel { location: Some(place), ..e })
        == html + (" <em>["@ + message::html_escaped(place) + "]</em>"@));
}

/// The hour and the minute as a summary shows them: two digits each, with a colon between them.
pub proof fn lemma_time_is_shown(t: DateTime)
    requires
        t.valid(),
    ensures
        ({
            let s = message::time_text(agenda::EventTime::At(t));
            &&& s.len() == 5
            &&& dates::all_digits(s.subrange(0, 2))
            &&& dates::digits_value(s.subrange(0, 2)) == t.hour
            &&& s[2] == ':'
            &&& dates::all_digits(s.subrange(3, 5))
            &&& dates::digits_value(s.subrange(3, 5)) == t.minute
        }),
{
    reveal_strlit(":");
    reveal_with_fuel(agenda_laws::power_of_ten, 4);
    agenda_laws::lemma_padded(t.hour as nat, 2);
    agenda_laws::lemma_padded(t.minute as nat, 2);
    let s = dates::clock_text(t);
    assert(s.subrange(0, 2) == dates::zero_padded(t.hour as nat, 2));
    assert(s.subrange(3, 5) == dates::zero_padded(t.minute as nat, 2));
}

/// A line shows the prefix, the time, a space and the name, in this order; the time of an event
/// without one is `All day`. In HTML the name is escaped, and nothing else differs.
pub proof fn lemma_line_shows_time_and_name(prefix: Seq<char>, e: agenda::DayEventModel)
    requires
        e.location is None,
    ensures
        message::plain_line(prefix, e) == prefix + match e.time {
            agenda::EventTime::AllDay => "All day"@,
            agenda::EventTime::At(t) => dates::clock_text(t),
        } + " "@ + e.summary,
        message::html_line(prefix, e) == message::plain_line(
            prefix,
            agenda::DayEventModel { summary: message::html_escaped(e.summary), ..e },
        ),
{
    let none = Seq::<char>::empty();
    let shown = prefix + message::time_text(e.time) + " "@;
    assert(shown + e.summary + none == shown + e.summary);
}

/// Joining one piece more puts a separator and the piece at the end.
proof fn lemma_joined_push(pieces: Seq<Seq<char>>, piece: Seq<char>, sep: Seq<char>)
    requires
        pieces.len() > 0,
    ensures
        text::joined(pieces.push(piece), sep) == text::joined(pieces, sep) + sep + piece,
{
    assert(pieces.push(piece).drop_last() == pieces);
}

/// The summary of a day without events says so, and names the day.
pub proof fn lemma_summary_of_an_empty_day(today: Date)
    ensures
        message::today_message(today, Seq::empty()).0 == "📅 No events today ("@
            + dates::date_text(today, "%a %d %b %Y"@) + ")."@,
        message::today_message(today, Seq::empty()).1 == message::today_message(
            today,
            Seq::empty(),
        ).0,
{
}

/// The summary of a day with one event is the day and, in a line of its own, the event.
pub proof fn lemma_summary_of_one_event(today: Date, e: agenda::DayEventModel)
    ensures
        message::today_message(today, seq![e]).0 == "📅 "@ + dates::date_text(
            today,
            "%a %d %b %Y"@,
        ) + "\n"@ + message::plain_line("• "@, e),
        message::today_message(today, seq![e]).1 == "📅 <strong>"@ + dates::date_text(
            today,
            "%a %d %b %Y"@,
        ) + "</strong>"@ + "<br>"@ + message::html_line("• "@, e),
{
    let day = dates::date_text(today, "%a %d %b %Y"@);
    let head = seq!["📅 "@ + day];
    let head_html = seq!["📅 <strong>"@ + day + "</strong>"@];
    assert(message::plain_lines("• "@, seq![e]) == seq![message::plain_line("• "@, e)]);
    assert(message::html_lines("• "@, seq![e]) == seq![message::html_line("• "@, e)]);
    assert(head + seq![message::plain_line("• "@, e)] == head.push(
        message::plain_line("• "@, e),
    ));
    assert(head_html + seq![message::html_line("• "@, e)] == head_html.push(
        message::html_line("• "@, e),
    ));
    lemma_joined_push(head, message::plain_line("• "@, e), "\n"@);
    lemma_joined_push(head_html, message::html_line("• "@, e), "<br>"@);
}

/// One event more on a day that has some is one line more at the end of its summary.
pub proof fn lemma_summary_of_one_event_more(
    today: Date,
    list: Seq<agenda::DayEventModel>,
    e: agenda::DayEventModel,
)
    requires
        list.len() > 0,
    ensures
        message::today_message(today, list.push(e)).0 == message::today_message(today, list).0
            + "\n"@ + message::plain_line("• "@, e),
        message::today_message(today, list.push(e)).1 == message::today_message(today, list).1
            + "<br>"@ + message::html_line("• "@, e),
{
    let day = dates::date_text(today, "%a %d %b %Y"@);
    let plain = seq!["📅 "@ + day] + message::plain_lines("• "@, list);
    let html = seq!["📅 <strong>"@ + day + "</strong>"@] + message::html_lines("• "@, list);
    assert(seq!["📅 "@ + day] + message::plain_lines("• "@, list.push(e)) == plain.push(
        message::plain_line("• "@, e),
    ));
    assert(seq!["📅 <strong>"@ + day + "</strong>"@] + message::html_lines("• "@, list.push(e))
        == html.push(message::html_line("• "@, e)));
    lemma_joined_push(plain, message::plain_line("• "@, e), "\n"@);
    lemma_joined_push(html, message::html_line("• "@, e), "<br>"@);
}

/// The summary of days without events says so under its header.
pub proof fn lemma_summary_of_empty_days(
    header: Seq<char>,
    lists: Seq<(Date, Seq<agenda::DayEventModel>)>,
)
    requires
        event_count(lists) == 0,
    ensures
        message::days_message(header, lists).0 == header + ": no events."@,
        message::days_message(header, lists).1 == header + ": no events."@,
{
    lemma_one_line_for_each_event(lists);
}

/// The first event of several days stands in a line of its own under the header, behind the name of
/// its day.
pub proof fn lemma_summary_of_the_first_event(
    header: Seq<char>,
    lists: Seq<(Date, Seq<agenda::DayEventModel>)>,
    day: Date,
    e: agenda::DayEventModel,
)
    requires
        event_count(lists) == 0,
    ensures
        message::days_message(header, lists.push((day, seq![e]))).0 == header + "\n"@
            + message::plain_line(dates::date_text(day, "%a %d"@) + " · "@, e),
        message::days_message(header, lists.push((day, seq![e]))).1 == "<strong>"@ + header
            + "</strong>"@ + "<br>"@ + message::html_line(
            "<strong>"@ + dates::date_text(day, "%a %d"@) + "</strong> · "@,
            e,
        ),
{
    let more = lists.push((day, seq![e]));
    let plain = message::plain_line(dates::date_text(day, "%a %d"@) + " · "@, e);
    let html = message::html_line(
        "<strong>"@ + dates::date_text(day, "%a %d"@) + "</strong> · "@,
        e,
    );
    let head = seq![header];
    let head_html = seq!["<strong>"@ + header + "</strong>"@];
    assert(more.drop_last() == lists);
    lemma_one_line_for_each_event(lists);
    lemma_one_line_for_each_event(more);
    assert(message::plain_day_lines(more) == seq![plain]);
    assert(message::html_day_lines(more) == seq![html]);
    assert(head + seq![plain] == head.push(plain));
    assert(head_html + seq![html] == head_html.push(html));
    lemma_joined_push(head, plain, "\n"@);
    lemma_joined_push(head_html, html, "<br>"@);
}

/// One event more on the last of several days, where there are events before it, is one line more at
/// the end of their summary, behind the name of the day.
pub proof fn lemma_summary_of_one_event_more_of_several_days(
    header: Seq<char>,
    lists: Seq<(Date, Seq<agenda::DayEventModel>)>,
    day: Date,
    list: Seq<agenda::DayEventModel>,
    e: agenda::DayEventModel,
)
    requires
        event_count(lists) + list.len() > 0,
    ensures
        message::days_message(header, lists.push((day, list.push(e)))).0 == message::days_message(
            header,
            lists.push((day, list)),
        ).0 + "\n"@ + message::plain_line(dates::date_text(day, "%a %d"@) + " · "@, e),
        message::days_message(header, lists.push((day, list.push(e)))).1 == message::days_message(
            header,
            lists.push((day, list)),
        ).1 + "<br>"@ + message::html_line(
            "<strong>"@ + dates::date_text(day, "%a %d"@) + "</strong> · "@,
            e,
        ),
{
    let known = lists.push((day, list));
    let more = lists.push((day, list.push(e)));
    let plain = message::plain_line(dates::date_text(day, "%a %d"@) + " · "@, e);
    let html = message::html_line(
        "<strong>"@ + dates::date_text(day, "%a %d"@) + "</strong> · "@,
        e,
    );
    assert(known.drop_last() == lists);
    assert(more.drop_last() == lists);
    lemma_one_line_for_each_event(known);
    lemma_one_line_for_each_event(more);
    let lines = seq![header] + message::plain_day_lines(known);
    let lines_html = seq!["<strong>"@ + header + "</strong>"@] + message::html_day_lines(known);
    assert(message::plain_day_lines(more) == message::plain_day_lines(known).push(plain));
    assert(message::html_day_lines(more) == message::html_day_lines(known).push(html));
    assert(seq![header] + message::plain_day_lines(more) == lines.push(plain));
    assert(seq!["<strong>"@ + header + "</strong>"@] + message::html_day_lines(more)
        == lines_html.push(html));
    lemma_joined_push(lines, plain, "\n"@);
    lemma_joined_push(lines_html, html, "<br>"@);
}

/// The header of a week names its first day, and the day six days behind it with its year.
pub proof fn lemma_week_header(first: Date, last: Date)
    requires
        last.valid(),
        last.number() == first.number() + 6,
    ensures
        message::week_header(first) == "📆 "@ + dates::date_text(first, "%a %d %b"@) + " – "@
            + dates::date_text(last, "%a %d %b %Y"@),
{
    dates::lemma_later(first, 6, last);
}

/// The header of a month names the month and the year of its day.
pub proof fn lemma_month_header(d: Date)
    ensures
        message::month_header(d) == "📅 "@ + (dates::month_name(d.month as int) + seq![' ']
            + dates::year_text(d.year as int)),
{
    lemma_dates_are_shown(d);
}

/// The dates of the summaries: the day of the week in three letters, the day of the month in two
/// digits, the first three letters of the month's name, the year, with spaces between them.
pub proof fn lemma_dates_are_shown(d: Date)
    ensures
        dates::date_text(d, "%a %d %b %Y"@) == dates::short_weekday(d.weekday_index()) + seq![' ']
            + dates::zero_padded(d.day as nat, 2) + seq![' '] + dates::month_name(
            d.month as int,
        ).take(3) + seq![' '] + dates::year_text(d.year as int),
        dates::date_text(d, "%a %d"@) == dates::short_weekday(d.weekday_index()) + seq![' ']
            + dates::zero_padded(d.day as nat, 2),
        dates::date_text(d, "%B %Y"@) == dates::month_name(d.month as int) + seq![' ']
            + dates::year_text(d.year as int),
{
    reveal_strlit("%a %d %b %Y");
    reveal_strlit("%a %d");
    reveal_strlit("%B %Y");
    let none = Seq::<char>::empty();
    assert(dates::date_text(d, none) == none);
    let a = dates::date_field(d, 'a');
    let e = dates::date_field(d, 'd');
    let b = dates::date_field(d, 'b');
    let y = dates::date_field(d, 'Y');
    let n = dates::date_field(d, 'B');
    let f = "%a %d %b %Y"@;
    let f1 = f.skip(2).skip(1);
    let f2 = f1.skip(2).skip(1);
    let f3 = f2.skip(2).skip(1);
    assert(f3 =~= seq!['%', 'Y']);
    assert(f2.skip(2)[0] == ' ' && f2[0] == '%' && f2[1] == 'b');
    assert(f1.skip(2)[0] == ' ' && f1[0] == '%' && f1[1] == 'd');
    assert(f.skip(2)[0] == ' ' && f[0] == '%' && f[1] == 'a');
    assert(f3.skip(2) == none);
    assert(dates::date_text(d, f3) == y + none);
    assert(dates::date_text(d, f2.skip(2)) == seq![' '] + (y + none));
    assert(dates::date_text(d, f2) == b + (seq![' '] + (y + none)));
    assert(dates::date_text(d, f1.skip(2)) == seq![' '] + (b + (seq![' '] + (y + none))));
    assert(dates::date_text(d, f1) == e + (seq![' '] + (b + (seq![' '] + (y + none)))));
    assert(dates::date_text(d, f.skip(2)) == seq![' '] + (e + (seq![' '] + (b + (seq![' '] + (y
        + none))))));
    assert(dates::date_text(d, f) == a + (seq![' '] + (e + (seq![' '] + (b + (seq![' '] + (y
        + none)))))));
    let g = "%a %d"@;
    let g1 = g.skip(2).skip(1);
    assert(g1 =~= seq!['%', 'd']);
    assert(g.skip(2)[0] == ' ' && g[0] == '%' && g[1] == 'a');
    assert(g1.skip(2) == none);
    assert(dates::date_text(d, g1) == e + none);
    assert(dates::date_text(d, g.skip(2)) == seq![' '] + (e + none));
    assert(dates::date_text(d, g) == a + (seq![' '] + (e + none)));
    let h = "%B %Y"@;
    let h1 = h.skip(2).skip(1);
    assert(h1 =~= seq!['%', 'Y']);
    assert(h.skip(2)[0] == ' ' && h[0] == '%' && h[1] == 'B');
    assert(h1.skip(2) == none);
    assert(dates::date_text(d, h1) == y + none);
    assert(dates::date_text(d, h.skip(2)) == seq![' '] + (y + none));
    assert(dates::date_text(d, h) == n + (seq![' '] + (y + none)));
}

}

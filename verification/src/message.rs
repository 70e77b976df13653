//! The summaries as they are posted: each once as plain text and once as HTML.

use crate::agenda;
use crate::agenda::{DayEvent, EventTime};
use crate::dates;
use crate::dates::Date;
use crate::text;
use vstd::prelude::*;

verus! {

/// How a character is written in HTML text.
pub open spec fn entity(c: char) -> Seq<char> {
    if c == '&' {
        "&amp;"@
    } else if c == '<' {
        "&lt;"@
    } else if c == '>' {
        "&gt;"@
    } else if c == '"' {
        "&quot;"@
    } else {
        seq![c]
    }
}

/// The text as it is written in HTML, character by character.
pub open spec fn html_escaped(s: Seq<char>) -> Seq<char>
    decreases s.len(),
{
    if s.len() == 0 {
        s
    } else {
        html_escaped(s.drop_last()) + entity(s.last())
    }
}

/// Writes a text for HTML.
pub fn html_escape(s: &str) -> (r: String)
    ensures
        r@ == html_escaped(s@),
{
    let cs: Vec<char> = text::chars_of(s);
    let mut r: String = String::new();
    for i in 0..cs.len()
        invariant
            cs@ == s@,
            r@ == html_escaped(cs@.take(i as int)),
    {
        let c: char = cs[i];
        assert(cs@.take(i + 1).drop_last() == cs@.take(i as int));
        if c == '&' {
            r.append("&amp;");
        } else if c == '<' {
            r.append("&lt;");
        } else if c == '>' {
            r.append("&gt;");
        } else if c == '"' {
            r.append("&quot;");
        } else {
            r.push(c);
        }
    }
    assert(cs@.take(cs@.len() as int) == cs@);
    r
}

/// The time of an event in a summary.
pub open spec fn time_text(t: EventTime) -> Seq<char> {
    match t {
        EventTime::AllDay => "All day"@,
        EventTime::At(t) => dates::clock_text(t),
    }
}

/// The place of an event in a plain summary, where it has one.
pub open spec fn plain_place(place: Option<Seq<char>>) -> Seq<char> {
    match place {
        Some(p) => " ["@ + p + "]"@,
        None => Seq::empty(),
    }
}

/// The place of an event in an HTML summary, where it has one.
pub open spec fn html_place(place: Option<Seq<char>>) -> Seq<char> {
    match place {
        Some(p) => " <em>["@ + html_escaped(p) + "]</em>"@,
        None => Seq::empty(),
    }
}

/// The line of an event in a plain summary.
pub open spec fn plain_line(prefix: Seq<char>, e: agenda::DayEventModel) -> Seq<char> {
    prefix + time_text(e.time) + " "@ + e.summary + plain_place(e.location)
}

/// The line of an event in an HTML summary.
pub open spec fn html_line(prefix: Seq<char>, e: agenda::DayEventModel) -> Seq<char> {
    prefix + time_text(e.time) + " "@ + html_escaped(e.summary) + html_place(e.location)
}

/// The lines of a day's list in a plain summary.
pub open spec fn plain_lines(prefix: Seq<char>, list: Seq<agenda::DayEventModel>) -> Seq<Seq<char>> {
    list.map_values(|e: agenda::DayEventModel| plain_line(prefix, e))
}

/// The lines of a day's list in an HTML summary.
pub open spec fn html_lines(prefix: Seq<char>, list: Seq<agenda::DayEventModel>) -> Seq<Seq<char>> {
    list.map_values(|e: agenda::DayEventModel| html_line(prefix, e))
}

/// The summary of a day, plain and in HTML.
pub open spec fn today_message(today: Date, list: Seq<agenda::DayEventModel>) -> (
    Seq<char>,
    Seq<char>,
) {
    let day = dates::date_text(today, "%a %d %b %Y"@);
    if list.len() == 0 {
        let text = "📅 No events today ("@ + day + ")."@;
        (text, text)
    } else {
        (
            text::joined(seq!["📅 "@ + day] + plain_lines("• "@, list), "\n"@),
            text::joined(
                seq!["📅 <strong>"@ + day + "</strong>"@] + html_lines("• "@, list),
                "<br>"@,
            ),
        )
    }
}

/// What stands before the events of a day in a plain summary of several days.
pub open spec fn plain_prefix(day: Date) -> Seq<char> {
    dates::date_text(day, "%a %d"@) + " · "@
}

/// What stands before the events of a day in an HTML summary of several days.
pub open spec fn html_prefix(day: Date) -> Seq<char> {
    "<strong>"@ + dates::date_text(day, "%a %d"@) + "</strong> · "@
}

/// The lines of several days in a plain summary.
pub open spec fn plain_day_lines(lists: Seq<(Date, Seq<agenda::DayEventModel>)>) -> Seq<Seq<char>>
    decreases lists.len(),
{
    if lists.len() == 0 {
        Seq::empty()
    } else {
        plain_day_lines(lists.drop_last()) + plain_lines(
            plain_prefix(lists.last().0),
            lists.last().1,
        )
    }
}

/// The lines of several days in an HTML summary.
pub open spec fn html_day_lines(lists: Seq<(Date, Seq<agenda::DayEventModel>)>) -> Seq<Seq<char>>
    decreases lists.len(),
{
    if lists.len() == 0 {
        Seq::empty()
    } else {
        html_day_lines(lists.drop_last()) + html_lines(html_prefix(lists.last().0), lists.last().1)
    }
}

/// Whether one of the days has an event.
pub open spec fn has_events(lists: Seq<(Date, Seq<agenda::DayEventModel>)>) -> bool {
    exists|i: int| 0 <= i < lists.len() && (#[trigger] lists[i]).1.len() > 0
}

/// The summary of several days under a header, plain and in HTML.
pub open spec fn days_message(
    header: Seq<char>,
    lists: Seq<(Date, Seq<agenda::DayEventModel>)>,
) -> (Seq<char>, Seq<char>) {
    if has_events(lists) {
        (
            text::joined(seq![header] + plain_day_lines(lists), "\n"@),
            text::joined(
                seq!["<strong>"@ + header + "</strong>"@] + html_day_lines(lists),
                "<br>"@,
            ),
        )
    } else {
        (header + ": no events."@, header + ": no events."@)
    }
}

/// The header of the summary of the seven days from `week_start` on.
pub open spec fn week_header(week_start: Date) -> Seq<char> {
    "📆 "@ + dates::date_text(week_start, "%a %d %b"@) + " – "@ + dates::date_text(
        dates::later(week_start, 6),
        "%a %d %b %Y"@,
    )
}

/// The header of the summary of the month of a day.
pub open spec fn month_header(month_start: Date) -> Seq<char> {
    "📅 "@ + dates::date_text(month_start, "%B %Y"@)
}

/// The formats of the summaries are date formats.
proof fn lemma_formats()
    ensures
        dates::is_date_format("%a %d %b %Y"@),
        dates::is_date_format("%a %d %b"@),
        dates::is_date_format("%a %d"@),
        dates::is_date_format("%B %Y"@),
{
    reveal_strlit("%a %d %b %Y");
    reveal_strlit("%a %d %b");
    reveal_strlit("%a %d");
    reveal_strlit("%B %Y");
}

/// The time of an event in a summary.
fn event_time(t: &EventTime) -> (r: String)
    requires
        t.valid(),
    ensures
        r@ == time_text(*t),
{
    match t {
        EventTime::AllDay => "All day".to_owned(),
        EventTime::At(t) => dates::format_time(*t, "%H:%M"),
    }
}

/// The line of an event in a plain summary.
fn plain_event(prefix: &str, e: &DayEvent) -> (r: String)
    requires
        e.time.valid(),
    ensures
        r@ == plain_line(prefix@, e@),
{
    let mut r: String = prefix.to_owned();
    r.append(event_time(&e.time).as_str());
    r.append(" ");
    r.append(e.summary.as_str());
    match &e.location {
        Some(l) => {
            r.append(" [");
            r.append(l.as_str());
            r.append("]");
            assert(r@ == plain_line(prefix@, e@));
        },
        None => {
            assert(r@ == plain_line(prefix@, e@));
        },
    }
    r
}

/// The line of an event in an HTML summary.
fn html_event(prefix: &str, e: &DayEvent) -> (r: String)
    requires
        e.time.valid(),
    ensures
        r@ == html_line(prefix@, e@),
{
    let mut r: String = prefix.to_owned();
    r.append(event_time(&e.time).as_str());
    r.append(" ");
    r.append(html_escape(e.summary.as_str()).as_str());
    match &e.location {
        Some(l) => {
            r.append(" <em>[");
            r.append(html_escape(l.as_str()).as_str());
            r.append("]</em>");
            assert(r@ == html_line(prefix@, e@));
        },
        None => {
            assert(r@ == html_line(prefix@, e@));
        },
    }
    r
}

/// Appends the lines of a day's list to the lines of the two summaries.
fn add_lines(
    plain: &mut Vec<String>,
    html: &mut Vec<String>,
    prefix: &str,
    prefix_html: &str,
    list: &[DayEvent],
)
    requires
        agenda::valid_times(agenda::day_models(list@)),
    ensures
        text::texts(final(plain)@) == text::texts(old(plain)@) + plain_lines(
            prefix@,
            agenda::day_models(list@),
        ),
        text::texts(final(html)@) == text::texts(old(html)@) + html_lines(
            prefix_html@,
            agenda::day_models(list@),
        ),
{
    let ghost models = agenda::day_models(list@);
    let ghost plain_before = text::texts(plain@);
    let ghost html_before = text::texts(html@);
    let ghost new_plain = plain_lines(prefix@, models);
    let ghost new_html = html_lines(prefix_html@, models);
    assert(plain_before + new_plain.take(0) == plain_before);
    assert(html_before + new_html.take(0) == html_before);
    for i in 0..list.len()
        invariant
            models == agenda::day_models(list@),
            agenda::valid_times(models),
            new_plain == plain_lines(prefix@, models),
            new_html == html_lines(prefix_html@, models),
            text::texts(plain@) == plain_before + new_plain.take(i as int),
            text::texts(html@) == html_before + new_html.take(i as int),
    {
        let e: &DayEvent = &list[i];
        assert(models[i as int] == e@);
        assert(models[i as int].time.valid());
        let ghost p0 = text::texts(plain@);
        let ghost h0 = text::texts(html@);
        plain.push(plain_event(prefix, e));
        html.push(html_event(prefix_html, e));
        assert(text::texts(plain@) == p0.push(plain_line(prefix@, e@)));
        assert(text::texts(html@) == h0.push(html_line(prefix_html@, e@)));
        assert(new_plain.take(i + 1) == new_plain.take(i as int).push(plain_line(prefix@, e@)));
        assert(new_html.take(i + 1) == new_html.take(i as int).push(html_line(prefix_html@, e@)));
    }
    assert(new_plain.take(new_plain.len() as int) == new_plain);
    assert(new_html.take(new_html.len() as int) == new_html);
}

/// The list that holds one text.
fn one_line(s: String) -> (r: Vec<String>)
    ensures
        text::texts(r@) == seq![s@],
{
    let mut r: Vec<String> = Vec::new();
    r.push(s);
    assert(text::texts(r@) == seq![s@]);
    r
}

/// The summary of the day `today`, plain and in HTML.
pub fn format_today_message(today: Date, events: &[DayEvent]) -> (r: (String, String))
    requires
        today.valid(),
        agenda::valid_times(agenda::day_models(events@)),
    ensures
        (r.0@, r.1@) == today_message(today, agenda::day_models(events@)),
{
    proof {
        lemma_formats();
    }
    let day: String = dates::format_date(today, "%a %d %b %Y");
    if events.len() == 0 {
        let mut plain: String = "📅 No events today (".to_owned();
        plain.append(day.as_str());
        plain.append(").");
        return (plain.clone(), plain);
    }
    let mut head: String = "📅 ".to_owned();
    head.append(day.as_str());
    let mut head_html: String = "📅 <strong>".to_owned();
    head_html.append(day.as_str());
    head_html.append("</strong>");
    let mut plain: Vec<String> = one_line(head);
    let mut html: Vec<String> = one_line(head_html);
    add_lines(&mut plain, &mut html, "• ", "• ", events);
    (text::join(&plain, "\n"), text::join(&html, "<br>"))
}

/// Whether the days exist and the times of their events do.
pub open spec fn valid_lists(lists: Seq<(Date, Seq<agenda::DayEventModel>)>) -> bool {
    forall|i: int|
        0 <= i < lists.len() ==> (#[trigger] lists[i]).0.valid() && agenda::valid_times(lists[i].1)
}

/// The summary of several days under a header, plain and in HTML.
fn format_days(header: String, lists: &[(Date, Vec<DayEvent>)]) -> (r: (String, String))
    requires
        valid_lists(agenda::list_models(lists@)),
    ensures
        (r.0@, r.1@) == days_message(header@, agenda::list_models(lists@)),
{
    let ghost models = agenda::list_models(lists@);
    if !any_events(lists) {
        let mut plain: String = header;
        plain.append(": no events.");
        return (plain.clone(), plain);
    }
    let mut head_html: String = "<strong>".to_owned();
    head_html.append(header.as_str());
    head_html.append("</strong>");
    let ghost head_text = header@;
    let ghost head_html_text = head_html@;
    let mut plain: Vec<String> = one_line(header);
    let mut html: Vec<String> = one_line(head_html);
    for i in 0..lists.len()
        invariant
            models == agenda::list_models(lists@),
            valid_lists(models),
            text::texts(plain@) == seq![head_text] + plain_day_lines(models.take(i as int)),
            text::texts(html@) == seq![head_html_text] + html_day_lines(models.take(i as int)),
    {
        let day: Date = lists[i].0;
        assert(models[i as int] == (day, agenda::day_models(lists@[i as int].1@)));
        assert(models.take(i + 1).drop_last() == models.take(i as int));
        assert(models.take(i + 1).last() == models[i as int]);
        proof {
            lemma_formats();
        }
        let name: String = dates::format_date(day, "%a %d");
        let mut prefix: String = name.clone();
        prefix.append(" · ");
        let mut prefix_html: String = "<strong>".to_owned();
        prefix_html.append(name.as_str());
        prefix_html.append("</strong> · ");
        add_lines(
            &mut plain,
            &mut html,
            prefix.as_str(),
            prefix_html.as_str(),
            lists[i].1.as_slice(),
        );
        assert(text::texts(plain@) == seq![head_text] + plain_day_lines(models.take(i + 1)));
        assert(text::texts(html@) == seq![head_html_text] + html_day_lines(models.take(i + 1)));
    }
    assert(models.take(models.len() as int) == models);
    (text::join(&plain, "\n"), text::join(&html, "<br>"))
}

/// The summary of the seven days from `week_start` on, plain and in HTML.
pub fn format_week_message(week_start: Date, week_days: &[(Date, Vec<DayEvent>)]) -> (r: (
    String,
    String,
))
    requires
        week_start.valid(),
        dates::in_range(week_start.number() + 6),
        valid_lists(agenda::list_models(week_days@)),
    ensures
        (r.0@, r.1@) == days_message(week_header(week_start), agenda::list_models(week_days@)),
{
    let week_end: Date = dates::plus_days(week_start, 6);
    proof {
        lemma_formats();
        dates::lemma_later(week_start, 6, week_end);
    }
    let mut header: String = "📆 ".to_owned();
    header.append(dates::format_date(week_start, "%a %d %b").as_str());
    header.append(" – ");
    header.append(dates::format_date(week_end, "%a %d %b %Y").as_str());
    format_days(header, week_days)
}

/// The summary of the month of a day, plain and in HTML.
pub fn format_month_message(month_start: Date, month_days: &[(Date, Vec<DayEvent>)]) -> (r: (
    String,
    String,
))
    requires
        month_start.valid(),
        valid_lists(agenda::list_models(month_days@)),
    ensures
        (r.0@, r.1@) == days_message(month_header(month_start), agenda::list_models(month_days@)),
{
    proof {
        lemma_formats();
    }
    let mut header: String = "📅 ".to_owned();
    header.append(dates::format_date(month_start, "%B %Y").as_str());
    format_days(header, month_days)
}

/// What is posted for the day `today`: nothing where the day has no event and empty days are not
/// posted, otherwise the summary, plain and in HTML.
pub fn daily_post(today: Date, events: &[DayEvent], post_if_empty: bool) -> (r: Option<
    (String, String),
>)
    requires
        today.valid(),
        agenda::valid_times(agenda::day_models(events@)),
    ensures
        r is None <==> events@.len() == 0 && !post_if_empty,
        r matches Some(m) ==> (m.0@, m.1@) == today_message(today, agenda::day_models(events@)),
{
    if events.len() == 0 && !post_if_empty {
        return None;
    }
    Some(format_today_message(today, events))
}

/// Whether one of the days has an event.
fn any_events(lists: &[(Date, Vec<DayEvent>)]) -> (r: bool)
    ensures
        r == has_events(agenda::list_models(lists@)),
{
    let ghost models = agenda::list_models(lists@);
    for i in 0..lists.len()
        invariant
            models == agenda::list_models(lists@),
            forall|k: int| 0 <= k < i ==> (#[trigger] models[k]).1.len() == 0,
    {
        assert(models[i as int].1.len() == lists@[i as int].1@.len());
        if lists[i].1.len() > 0 {
            return true;
        }
    }
    false
}

/// What is posted for the seven days from `week_start` on: nothing where they have no event and empty
/// weeks are not posted, otherwise the summary, plain and in HTML.
pub fn weekly_post(
    week_start: Date,
    week_days: &[(Date, Vec<DayEvent>)],
    post_if_empty: bool,
) -> (r: Option<(String, String)>)
    requires
        week_start.valid(),
        dates::in_range(week_start.number() + 6),
        valid_lists(agenda::list_models(week_days@)),
    ensures
        r is None <==> !has_events(agenda::list_models(week_days@)) && !post_if_empty,
        r matches Some(m) ==> (m.0@, m.1@) == days_message(
            week_header(week_start),
            agenda::list_models(week_days@),
        ),
{
    if !any_events(week_days) && !post_if_empty {
        return None;
    }
    Some(format_week_message(week_start, week_days))
}

/// What is posted for the month of a day: nothing where it has no event and empty months are not
/// posted, otherwise the summary, plain and in HTML.
pub fn monthly_post(
    month_start: Date,
    month_days: &[(Date, Vec<DayEvent>)],
    post_if_empty: bool,
) -> (r: Option<(String, String)>)
    requires
        month_start.valid(),
        valid_lists(agenda::list_models(month_days@)),
    ensures
        r is None <==> !has_events(agenda::list_models(month_days@)) && !post_if_empty,
        r matches Some(m) ==> (m.0@, m.1@) == days_message(
            month_header(month_start),
            agenda::list_models(month_days@),
        ),
{
    if !any_events(month_days) && !post_if_empty {
        return None;
    }
    Some(format_month_message(month_start, month_days))
}

}

//! What holds of what is taken from a CalDAV server's answers.

use crate::caldav;
use crate::dates;
use crate::dates::Date;
use crate::ics;
use crate::text;
use vstd::prelude::*;

verus! {

/// Each calendar that is taken from an answer stands in it, begins with `BEGIN:VCALENDAR` and ends
/// with `END:VCALENDAR`.
pub proof fn lemma_calendars_are_whole(xml: Seq<char>, pos: int, i: int)
    requires
        0 <= pos <= xml.len(),
        0 <= i < caldav::calendars_from(xml, pos).len(),
    ensures
        "BEGIN:VCALENDAR"@.is_prefix_of(caldav::calendars_from(xml, pos)[i]),
        "END:VCALENDAR"@.is_suffix_of(caldav::calendars_from(xml, pos)[i]),
        text::contains_text(xml, caldav::calendars_from(xml, pos)[i]),
    decreases xml.len() - pos,
{
    reveal_strlit("BEGIN:VCALENDAR");
    reveal_strlit("END:VCALENDAR");
    let first = "BEGIN:VCALENDAR"@;
    let end = "END:VCALENDAR"@;
    text::lemma_index_of(xml, first, pos);
    let start = text::index_of(xml, first, pos)->0;
    text::lemma_index_of(xml, end, start);
    let last = text::index_of(xml, end, start)->0;
    if i == 0 {
        let block = caldav::calendars_from(xml, pos)[0];
        assert(block == xml.subrange(start, last + 13));
        assert(xml.subrange(start, start + 15) == first);
        assert(xml.subrange(last, last + 13) == end);
        lemma_markers_apart(xml, start, last);
        assert(block.subrange(0, 15) == first);
        assert(block.subrange(block.len() - 13, block.len() as int) == end);
        assert(text::occurs_at(xml, block, start));
    } else {
        lemma_calendars_are_whole(xml, last + 13, i - 1);
    }
}

/// The marker at the end of a calendar does not begin inside the marker at its beginning.
proof fn lemma_markers_apart(xml: Seq<char>, start: int, last: int)
    requires
        text::occurs_at(xml, "BEGIN:VCALENDAR"@, start),
        text::occurs_at(xml, "END:VCALENDAR"@, last),
        start <= last,
    ensures
        start + 15 <= last,
{
    reveal_strlit("BEGIN:VCALENDAR");
    reveal_strlit("END:VCALENDAR");
    let first = "BEGIN:VCALENDAR"@;
    let end = "END:VCALENDAR"@;
    let k = last - start;
    assert forall|j: int| 0 <= j < 15 implies xml[start + j] == first[j] by {
        assert(xml.subrange(start, start + 15)[j] == xml[start + j]);
    }
    assert forall|j: int| 0 <= j < 13 implies xml[last + j] == end[j] by {
        assert(xml.subrange(last, last + 13)[j] == xml[last + j]);
    }
    if k < 15 {
        assert(xml[start + k] == end[0]);
        assert(first[k] == 'E');
        assert(k == 1 || k == 10);
        assert(xml[last + 1] == end[1]);
        assert(xml[start + (k + 1)] == first[k + 1]);
        if k == 10 {
            assert(xml[last + 3] == end[3]);
            assert(xml[start + 13] == first[13]);
        }
    }
}

/// An answer without `BEGIN:VCALENDAR` holds no calendar.
pub proof fn lemma_no_calendars(xml: Seq<char>)
    requires
        !text::contains_text(xml, "BEGIN:VCALENDAR"@),
    ensures
        caldav::calendars_from(xml, 0) == Seq::<Seq<char>>::empty(),
{
    text::lemma_contains(xml, "BEGIN:VCALENDAR"@);
}

/// A link that is followed stands in a response about a calendar, leads elsewhere than to the account
/// itself, and is not excluded.
pub proof fn lemma_wanted_link(
    block: Seq<char>,
    account_path: Seq<char>,
    exclude: Seq<Seq<char>>,
)
    requires
        caldav::wanted_link(block, account_path, exclude) is Some,
    ensures
        caldav::is_calendar(block),
        caldav::href_of(block) == caldav::wanted_link(block, account_path, exclude),
        text::trimmed_end(caldav::href_of(block)->0, '/') != account_path,
        !exclude.contains(
            caldav::after_last(text::trimmed_end(caldav::href_of(block)->0, '/'), '/'),
        ),
{
}

/// Whether an address is that of a link that is followed.
pub open spec fn leads_to(
    block: Seq<char>,
    account_url: Seq<char>,
    exclude: Seq<Seq<char>>,
    url: Seq<char>,
) -> bool {
    caldav::wanted_link(block, caldav::account_path(account_url), exclude) matches Some(link)
        && caldav::address(link, account_url) == Ok::<Seq<char>, Seq<char>>(url)
}

/// Every address that is found is that of a link in one of the responses, and every link that is to
/// be followed has its address found.
pub proof fn lemma_addresses_are_those_of_links(
    blocks: Seq<Seq<char>>,
    account_url: Seq<char>,
    exclude: Seq<Seq<char>>,
    url: Seq<char>,
)
    requires
        caldav::addresses(blocks, account_url, exclude) is Ok,
    ensures
        caldav::addresses(blocks, account_url, exclude)->Ok_0.len() <= blocks.len(),
        caldav::addresses(blocks, account_url, exclude)->Ok_0.contains(url) <==> exists|i: int|
            0 <= i < blocks.len() && leads_to(#[trigger] blocks[i], account_url, exclude, url),
    decreases blocks.len(),
{
    let urls = caldav::addresses(blocks, account_url, exclude)->Ok_0;
    if blocks.len() > 0 {
        let front = blocks.drop_last();
        lemma_addresses_are_those_of_links(front, account_url, exclude, url);
        let known = caldav::addresses(front, account_url, exclude)->Ok_0;
        let here = leads_to(blocks.last(), account_url, exclude, url);
        if known.contains(url) {
            let i = choose|i: int|
                0 <= i < front.len() && leads_to(#[trigger] front[i], account_url, exclude, url);
            assert(leads_to(blocks[i], account_url, exclude, url));
            let k = choose|k: int| 0 <= k < known.len() && known[k] == url;
            assert(urls[k] == url);
        }
        if here {
            assert(leads_to(blocks[blocks.len() - 1], account_url, exclude, url));
            assert(urls.last() == url);
        }
        if urls.contains(url) && !known.contains(url) {
            let k = choose|k: int| 0 <= k < urls.len() && urls[k] == url;
            if k < known.len() {
                assert(known[k] == url);
            }
            assert(here);
        }
        if exists|i: int|
            0 <= i < blocks.len() && leads_to(#[trigger] blocks[i], account_url, exclude, url) {
            let i = choose|i: int|
                0 <= i < blocks.len() && leads_to(#[trigger] blocks[i], account_url, exclude, url);
            if i < front.len() {
                assert(leads_to(front[i], account_url, exclude, url));
            }
        }
    }
}

/// What stands in a text behind its beginning stands in what is behind the beginning.
proof fn lemma_not_found_behind(pre: Seq<char>, x: Seq<char>, p: Seq<char>)
    requires
        !text::contains_text(x, p),
    ensures
        text::index_of(pre + x, p, pre.len() as int) is None,
{
    let s = pre + x;
    let n = pre.len() as int;
    assert forall|j: int| n <= j implies !text::occurs_at(s, p, j) by {
        if text::occurs_at(s, p, j) {
            assert(x.subrange(j - n, j - n + p.len()) == s.subrange(j, j + p.len()));
            assert(text::occurs_at(x, p, j - n));
        }
    }
    text::lemma_index_of(s, p, n);
}

/// An answer that holds calendars: each of them behind some text, and some text behind the last.
pub open spec fn answer_with_calendars(
    items: Seq<(Seq<char>, Seq<char>)>,
    tail: Seq<char>,
) -> Seq<char>
    decreases items.len(),
{
    if items.len() == 0 {
        tail
    } else {
        items[0].0 + ("BEGIN:VCALENDAR"@ + (items[0].1 + ("END:VCALENDAR"@ + answer_with_calendars(
            items.skip(1),
            tail,
        ))))
    }
}

/// The calendars in an answer are found, each from its `BEGIN:VCALENDAR` through its `END:VCALENDAR`,
/// in their order, whatever stands round them.
pub proof fn lemma_calendars_read_back(
    pre: Seq<char>,
    items: Seq<(Seq<char>, Seq<char>)>,
    tail: Seq<char>,
)
    requires
        forall|i: int|
            0 <= i < items.len() ==> !text::contains_text(
                (#[trigger] items[i]).0,
                "BEGIN:VCALENDAR"@,
            ) && !text::contains_text(items[i].1, "END:VCALENDAR"@),
        !text::contains_text(tail, "BEGIN:VCALENDAR"@),
    ensures
        caldav::calendars_from(pre + answer_with_calendars(items, tail), pre.len() as int)
            == items.map_values(
            |item: (Seq<char>, Seq<char>)| "BEGIN:VCALENDAR"@ + item.1 + "END:VCALENDAR"@,
        ),
    decreases items.len(),
{
    reveal_strlit("BEGIN:VCALENDAR");
    reveal_strlit("END:VCALENDAR");
    let first = "BEGIN:VCALENDAR"@;
    let end = "END:VCALENDAR"@;
    let blocks = items.map_values(|item: (Seq<char>, Seq<char>)| first + item.1 + end);
    let xml = pre + answer_with_calendars(items, tail);
    let pos = pre.len() as int;
    if items.len() == 0 {
        lemma_not_found_behind(pre, tail, first);
        assert(blocks == Seq::<Seq<char>>::empty());
    } else {
        let (sep, body) = items[0];
        let rest = items.skip(1);
        let more = answer_with_calendars(rest, tail);
        assert(!text::contains_text(items[0].0, first));
        assert forall|k: int| 0 <= k < first.len() - 1 implies #[trigger] first[k] != first.last() by {}
        assert forall|k: int| 0 <= k < end.len() - 1 implies #[trigger] end[k] != end.last() by {}
        text::lemma_found_behind(pre, sep, first, body + (end + more));
        let start = pos + sep.len();
        let head = first + body;
        lemma_no_end_inside(body);
        assert(xml == (pre + sep) + (head + (end + more)));
        text::lemma_found_behind(pre + sep, head, end, more);
        let last = start + head.len();
        let done = pre + sep + head + end;
        assert(xml == done + more);
        assert(done.len() == last + 13);
        assert forall|i: int| 0 <= i < rest.len() implies !text::contains_text(
            (#[trigger] rest[i]).0,
            first,
        ) && !text::contains_text(rest[i].1, end) by {
            assert(rest[i] == items[i + 1]);
            assert(!text::contains_text(items[i + 1].0, first));
        }
        lemma_calendars_read_back(done, rest, tail);
        assert(xml.subrange(start, last + 13) == first + body + end);
        assert(blocks == seq![first + body + end] + rest.map_values(
            |item: (Seq<char>, Seq<char>)| first + item.1 + end,
        ));
    }
}

/// The marker at the end of a calendar does not stand where its beginning and its body meet.
proof fn lemma_no_end_inside(body: Seq<char>)
    requires
        !text::contains_text(body, "END:VCALENDAR"@),
    ensures
        !text::contains_text("BEGIN:VCALENDAR"@ + body, "END:VCALENDAR"@),
{
    reveal_strlit("BEGIN:VCALENDAR");
    reveal_strlit("END:VCALENDAR");
    let first = "BEGIN:VCALENDAR"@;
    let end = "END:VCALENDAR"@;
    let s = first + body;
    assert forall|j: int| !text::occurs_at(s, end, j) by {
        if text::occurs_at(s, end, j) {
            if j >= 15 {
                assert(body.subrange(j - 15, j - 15 + 13) == s.subrange(j, j + 13));
                assert(text::occurs_at(body, end, j - 15));
            } else {
                assert(s.subrange(0, 15) == first);
                assert(text::occurs_at(s, first, 0));
                lemma_markers_apart(s, 0, j);
            }
        }
    }
}

/// The tag that opens a response, in capital or in small letters.
pub open spec fn response_tag(capital: bool) -> Seq<char> {
    if capital {
        "<D:response>"@
    } else {
        "<d:response>"@
    }
}

/// The tag that closes a response, in capital or in small letters.
pub open spec fn response_close(capital: bool) -> Seq<char> {
    if capital {
        "</D:response>"@
    } else {
        "</d:response>"@
    }
}

/// An answer that holds responses: each of them behind some text, and some text behind the last.
pub open spec fn answer_with_responses(
    capital: bool,
    items: Seq<(Seq<char>, Seq<char>)>,
    tail: Seq<char>,
) -> Seq<char>
    decreases items.len(),
{
    if items.len() == 0 {
        tail
    } else {
        items[0].0 + (response_tag(capital) + (items[0].1 + (response_close(capital)
            + answer_with_responses(capital, items.skip(1), tail))))
    }
}

/// The characters of the tags of a response.
proof fn lemma_response_tags()
    ensures
        "<D:response>"@ == seq!['<', 'D', ':', 'r', 'e', 's', 'p', 'o', 'n', 's', 'e', '>'],
        "<d:response>"@ == seq!['<', 'd', ':', 'r', 'e', 's', 'p', 'o', 'n', 's', 'e', '>'],
        "</D:response>"@ == seq!['<', '/', 'D', ':', 'r', 'e', 's', 'p', 'o', 'n', 's', 'e', '>'],
        "</d:response>"@ == seq!['<', '/', 'd', ':', 'r', 'e', 's', 'p', 'o', 'n', 's', 'e', '>'],
        "<D:"@ == seq!['<', 'D', ':'],
{
    reveal_strlit("<D:response>");
    reveal_strlit("<d:response>");
    reveal_strlit("</D:response>");
    reveal_strlit("</d:response>");
    reveal_strlit("<D:");
    assert("<D:response>"@ =~= seq!['<', 'D', ':', 'r', 'e', 's', 'p', 'o', 'n', 's', 'e', '>']);
    assert("<d:response>"@ =~= seq!['<', 'd', ':', 'r', 'e', 's', 'p', 'o', 'n', 's', 'e', '>']);
    assert("</D:response>"@ =~= seq![
        '<',
        '/',
        'D',
        ':',
        'r',
        'e',
        's',
        'p',
        'o',
        'n',
        's',
        'e',
        '>',
    ]);
    assert("</d:response>"@ =~= seq![
        '<',
        '/',
        'd',
        ':',
        'r',
        'e',
        's',
        'p',
        'o',
        'n',
        's',
        'e',
        '>',
    ]);
    assert("<D:"@ =~= seq!['<', 'D', ':']);
}

/// The closing tag of a response does not stand where the opening tag and the body meet.
proof fn lemma_no_close_inside(capital: bool, body: Seq<char>)
    requires
        !text::contains_text(body, response_close(capital)),
    ensures
        !text::contains_text(response_tag(capital) + body, response_close(capital)),
{
    lemma_response_tags();
    let open = response_tag(capital);
    let close = response_close(capital);
    let s = open + body;
    assert forall|j: int| !text::occurs_at(s, close, j) by {
        if text::occurs_at(s, close, j) {
            if j >= 12 {
                assert(body.subrange(j - 12, j - 12 + 13) == s.subrange(j, j + 13));
                assert(text::occurs_at(body, close, j - 12));
            } else {
                assert(s.subrange(j, j + 13)[0] == s[j]);
                assert(s.subrange(j, j + 13)[1] == s[j + 1]);
                assert(s[j] == open[j]);
                assert(j == 0);
                assert(s[1] == open[1]);
            }
        }
    }
}

/// The response that follows in an answer, and where it ends.
proof fn lemma_next_response(
    pre: Seq<char>,
    capital: bool,
    sep: Seq<char>,
    body: Seq<char>,
    more: Seq<char>,
)
    requires
        !text::contains_text(sep, response_tag(capital)),
        !text::contains_text(body, response_close(capital)),
        !capital ==> !text::contains_text(
            sep + (response_tag(capital) + (body + (response_close(capital) + more))),
            "<D:response>"@,
        ),
    ensures
        ({
            let xml = pre + (sep + (response_tag(capital) + (body + (response_close(capital)
                + more))));
            let start = (pre.len() + sep.len()) as int;
            &&& caldav::either_index(xml, "<D:response>"@, "<d:response>"@, pre.len() as int)
                == Some(start)
            &&& caldav::response_end(xml, start) == start + body.len() + 25
        }),
{
    lemma_response_tags();
    let open = response_tag(capital);
    let close = response_close(capital);
    let xml = pre + (sep + (open + (body + (close + more))));
    let start = (pre.len() + sep.len()) as int;
    assert forall|k: int| 0 <= k < open.len() - 1 implies #[trigger] open[k] != open.last() by {}
    assert forall|k: int| 0 <= k < close.len() - 1 implies #[trigger] close[k] != close.last() by {}
    text::lemma_found_behind(pre, sep, open, body + (close + more));
    if !capital {
        lemma_not_found_behind(pre, sep + (open + (body + (close + more))), "<D:response>"@);
    }
    let head = open + body;
    lemma_no_close_inside(capital, body);
    assert(xml == (pre + sep) + (head + (close + more)));
    text::lemma_found_behind(pre + sep, head, close, more);
    let here = xml.skip(start);
    assert(here[0] == open[0] && here[1] == open[1] && here[2] == open[2]);
    if capital {
        assert(here.subrange(0, 3) == "<D:"@);
    } else if "<D:"@.is_prefix_of(here) {
        assert(here.subrange(0, 3)[1] == 'D');
    }
}

/// The responses in an answer are found, each from its opening through its closing tag, in their
/// order, and reading goes on behind them: those in capital letters first, whatever stands round
/// them, and those in small letters where no capital tag opens a response any more.
pub proof fn lemma_responses_come_first(
    pre: Seq<char>,
    capital: bool,
    items: Seq<(Seq<char>, Seq<char>)>,
    tail: Seq<char>,
)
    requires
        forall|i: int|
            0 <= i < items.len() ==> !text::contains_text(
                (#[trigger] items[i]).0,
                response_tag(capital),
            ) && !text::contains_text(items[i].1, response_close(capital)),
        !capital ==> !text::contains_text(
            answer_with_responses(capital, items, tail),
            "<D:response>"@,
        ),
    ensures
        caldav::responses_from(
            pre + answer_with_responses(capital, items, tail),
            pre.len() as int,
        ) == items.map_values(
            |item: (Seq<char>, Seq<char>)|
                response_tag(capital) + item.1 + response_close(capital),
        ) + caldav::responses_from(
            pre + answer_with_responses(capital, items, tail),
            pre.len() + answer_with_responses(capital, items, tail).len() - tail.len(),
        ),
    decreases items.len(),
{
    let blocks = items.map_values(
        |item: (Seq<char>, Seq<char>)|
            response_tag(capital) + item.1 + response_close(capital),
    );
    let answer = answer_with_responses(capital, items, tail);
    let left = caldav::responses_from(pre + answer, pre.len() + answer.len() - tail.len());
    if items.len() == 0 {
        assert(answer == tail);
        assert(blocks + left == left);
    } else {
        let (sep, body) = items[0];
        let rest = items.skip(1);
        let more = answer_with_responses(capital, rest, tail);
        let block = response_tag(capital) + body + response_close(capital);
        assert(!text::contains_text(items[0].0, response_tag(capital)));
        lemma_one_response(pre, capital, sep, body, more);
        let done = pre + sep + block;
        assert(pre + answer == done + more);
        assert forall|i: int| 0 <= i < rest.len() implies !text::contains_text(
            (#[trigger] rest[i]).0,
            response_tag(capital),
        ) && !text::contains_text(rest[i].1, response_close(capital)) by {
            assert(rest[i] == items[i + 1]);
            assert(!text::contains_text(items[i + 1].0, response_tag(capital)));
        }
        if !capital {
            assert(answer == (sep + block) + more);
            lemma_contained(sep + block, more, "<D:response>"@);
        }
        lemma_responses_come_first(done, capital, rest, tail);
        let others = rest.map_values(
            |item: (Seq<char>, Seq<char>)|
                response_tag(capital) + item.1 + response_close(capital),
        );
        assert(blocks == seq![block] + others);
        assert(blocks + left == seq![block] + (others + left));
    }
}

/// The response that follows in an answer is found, and reading goes on behind it.
proof fn lemma_one_response(
    pre: Seq<char>,
    capital: bool,
    sep: Seq<char>,
    body: Seq<char>,
    more: Seq<char>,
)
    requires
        !text::contains_text(sep, response_tag(capital)),
        !text::contains_text(body, response_close(capital)),
        !capital ==> !text::contains_text(
            sep + (response_tag(capital) + (body + (response_close(capital) + more))),
            "<D:response>"@,
        ),
    ensures
        ({
            let xml = pre + (sep + (response_tag(capital) + (body + (response_close(capital)
                + more))));
            let block = response_tag(capital) + body + response_close(capital);
            caldav::responses_from(xml, pre.len() as int) == seq![block] + caldav::responses_from(
                xml,
                (pre + sep + block).len() as int,
            )
        }),
{
    lemma_response_tags();
    let open = response_tag(capital);
    let close = response_close(capital);
    let xml = pre + (sep + (open + (body + (close + more))));
    lemma_next_response(pre, capital, sep, body, more);
    let start = (pre.len() + sep.len()) as int;
    let end = start + body.len() + 25;
    let block = open + body + close;
    assert((pre + sep + block).len() == end);
    assert(xml == pre + sep + block + more);
    assert(xml.subrange(start, end) == block);
}

/// The responses in an answer are found, each from its opening through its closing tag, in their
/// order, whatever stands round them, in capital letters or, where no capital tag opens a response,
/// in small ones.
pub proof fn lemma_responses_read_back(
    pre: Seq<char>,
    capital: bool,
    items: Seq<(Seq<char>, Seq<char>)>,
    tail: Seq<char>,
)
    requires
        forall|i: int|
            0 <= i < items.len() ==> !text::contains_text(
                (#[trigger] items[i]).0,
                response_tag(capital),
            ) && !text::contains_text(items[i].1, response_close(capital)),
        !text::contains_text(tail, "<D:response>"@),
        !text::contains_text(tail, "<d:response>"@),
        !capital ==> !text::contains_text(
            answer_with_responses(capital, items, tail),
            "<D:response>"@,
        ),
    ensures
        caldav::responses_from(
            pre + answer_with_responses(capital, items, tail),
            pre.len() as int,
        ) == items.map_values(
            |item: (Seq<char>, Seq<char>)|
                response_tag(capital) + item.1 + response_close(capital),
        ),
{
    let answer = answer_with_responses(capital, items, tail);
    let blocks = items.map_values(
        |item: (Seq<char>, Seq<char>)|
            response_tag(capital) + item.1 + response_close(capital),
    );
    lemma_responses_come_first(pre, capital, items, tail);
    lemma_tail_of_answer(capital, items, tail);
    let done = pre + answer.take(answer.len() - tail.len());
    assert(pre + answer == done + tail);
    lemma_not_found_behind(done, tail, "<D:response>"@);
    lemma_not_found_behind(done, tail, "<d:response>"@);
    assert(blocks + Seq::<Seq<char>>::empty() == blocks);
}

/// An answer ends with what stands behind its responses.
proof fn lemma_tail_of_answer(
    capital: bool,
    items: Seq<(Seq<char>, Seq<char>)>,
    tail: Seq<char>,
)
    ensures
        ({
            let answer = answer_with_responses(capital, items, tail);
            answer.len() >= tail.len() && answer.skip(answer.len() - tail.len()) == tail
        }),
    decreases items.len(),
{
    let answer = answer_with_responses(capital, items, tail);
    if items.len() == 0 {
        assert(answer.skip(0) == tail);
    } else {
        let rest = answer_with_responses(capital, items.skip(1), tail);
        lemma_tail_of_answer(capital, items.skip(1), tail);
        assert(answer.skip(answer.len() - tail.len()) == rest.skip(rest.len() - tail.len()));
    }
}

/// The last response in an answer may lack its closing tag: it reaches to the end of the answer.
pub proof fn lemma_last_response_may_lack_its_end(
    pre: Seq<char>,
    capital: bool,
    sep: Seq<char>,
    body: Seq<char>,
)
    requires
        !text::contains_text(sep, response_tag(capital)),
        !text::contains_text(body, response_close(capital)),
        !capital ==> !text::contains_text(
            sep + (response_tag(capital) + body),
            "<D:response>"@,
        ),
    ensures
        caldav::responses_from(
            pre + (sep + (response_tag(capital) + body)),
            pre.len() as int,
        ) == seq![response_tag(capital) + body],
{
    lemma_response_tags();
    let open = response_tag(capital);
    let close = response_close(capital);
    let xml = pre + (sep + (open + body));
    let start = (pre.len() + sep.len()) as int;
    assert forall|k: int| 0 <= k < open.len() - 1 implies #[trigger] open[k] != open.last() by {}
    text::lemma_found_behind(pre, sep, open, body);
    if !capital {
        lemma_not_found_behind(pre, sep + (open + body), "<D:response>"@);
    }
    lemma_no_close_inside(capital, body);
    assert(xml == (pre + sep) + (open + body));
    lemma_not_found_behind(pre + sep, open + body, close);
    let here = xml.skip(start);
    assert(here[0] == open[0] && here[1] == open[1] && here[2] == open[2]);
    if capital {
        assert(here.subrange(0, 3) == "<D:"@);
    } else if "<D:"@.is_prefix_of(here) {
        assert(here.subrange(0, 3)[1] == 'D');
    }
    let end = xml.len() as int;
    assert(caldav::response_end(xml, start) == end);
    assert(xml.subrange(start, end) == open + body);
    text::lemma_index_of(xml, "<D:response>"@, end);
    text::lemma_index_of(xml, "<d:response>"@, end);
    assert(caldav::responses_from(xml, end) == Seq::<Seq<char>>::empty());
    assert(seq![open + body] + Seq::<Seq<char>>::empty() == seq![open + body]);
}

/// What stands in a text stands in it when something is written before it.
proof fn lemma_contained(x: Seq<char>, y: Seq<char>, p: Seq<char>)
    ensures
        text::contains_text(y, p) ==> text::contains_text(x + y, p),
{
    if text::contains_text(y, p) {
        let j = choose|j: int| text::occurs_at(y, p, j);
        let n = x.len() as int;
        assert((x + y).subrange(n + j, n + j + p.len()) == y.subrange(j, j + p.len()));
        assert(text::occurs_at(x + y, p, n + j));
    }
}

/// The tag before a link, in capital or in small letters.
pub open spec fn link_tag(capital: bool) -> Seq<char> {
    if capital {
        "<D:href>"@
    } else {
        "<d:href>"@
    }
}

/// A response that holds a link: its tag, the link with white space round it, and what follows.
pub open spec fn with_link(
    before: Seq<char>,
    capital: bool,
    left: Seq<char>,
    link: Seq<char>,
    right: Seq<char>,
    behind: Seq<char>,
) -> Seq<char> {
    before + (link_tag(capital) + ((left + link + right) + behind))
}

/// Whether a link can be told from what stands round it: its tag does not stand before it, nor, where
/// it is in small letters, the one in capital letters before or behind it; it is followed by a tag,
/// it holds no `<`, and it neither begins nor ends with white space.
pub open spec fn is_link(
    before: Seq<char>,
    capital: bool,
    left: Seq<char>,
    link: Seq<char>,
    right: Seq<char>,
    behind: Seq<char>,
) -> bool {
    &&& !text::contains_text(before, link_tag(capital))
    &&& !capital ==> !text::contains_text(before, "<D:href>"@) && !text::contains_text(
        behind,
        "<D:href>"@,
    )
    &&& behind.len() > 0
    &&& behind[0] == '<'
    &&& !link.contains('<')
    &&& text::is_trim(link)
    &&& text::is_white(left)
    &&& text::is_white(right)
}

/// The characters of the tags of a link.
proof fn lemma_link_tags()
    ensures
        "<D:href>"@ == seq!['<', 'D', ':', 'h', 'r', 'e', 'f', '>'],
        "<d:href>"@ == seq!['<', 'd', ':', 'h', 'r', 'e', 'f', '>'],
{
    reveal_strlit("<D:href>");
    reveal_strlit("<d:href>");
    assert("<D:href>"@ =~= seq!['<', 'D', ':', 'h', 'r', 'e', 'f', '>']);
    assert("<d:href>"@ =~= seq!['<', 'd', ':', 'h', 'r', 'e', 'f', '>']);
}

/// The link in a response is read back, whether its tag is written in capital or in small letters.
pub proof fn lemma_link_read_back(
    before: Seq<char>,
    capital: bool,
    left: Seq<char>,
    link: Seq<char>,
    right: Seq<char>,
    behind: Seq<char>,
)
    requires
        is_link(before, capital, left, link, right, behind),
    ensures
        caldav::href_of(with_link(before, capital, left, link, right, behind)) == Some(link),
{
    lemma_link_tags();
    let none = Seq::<char>::empty();
    let tag = link_tag(capital);
    let inner = left + link + right;
    let rest = inner + behind;
    let block = with_link(before, capital, left, link, right, behind);
    let n = before.len() as int;
    assert forall|i: int| 0 <= i < inner.len() implies inner[i] != '<' by {
        if i < left.len() {
            assert(text::is_white_space(left[i]));
        } else if i < left.len() + link.len() {
            assert(inner[i] == link[i - left.len()]);
            assert(link.contains(link[i - left.len()]));
        } else {
            assert(inner[i] == right[i - left.len() - link.len()]);
            assert(text::is_white_space(right[i - left.len() - link.len()]));
        }
    }
    assert forall|k: int| 0 <= k < tag.len() - 1 implies #[trigger] tag[k] != tag.last() by {}
    text::lemma_found_behind(none, before, tag, rest);
    assert(none + (before + (tag + rest)) == block);
    if !capital {
        let p = "<D:href>"@;
        let x = tag + inner;
        assert forall|j: int| !text::occurs_at(x, p, j) by {
            if text::occurs_at(x, p, j) {
                assert(x.subrange(j, j + 8)[0] == x[j]);
                assert(x.subrange(j, j + 8)[1] == x[j + 1]);
                if j >= 8 {
                    assert(x[j] == inner[j - 8]);
                } else {
                    assert(x[j] == tag[j]);
                    assert(j == 0);
                    assert(x[1] == tag[1]);
                }
            }
        }
        text::lemma_nowhere(x, behind, p);
        assert(x + behind == tag + rest);
        text::lemma_nowhere(before, tag + rest, p);
        lemma_not_found_behind(none, block, p);
        assert(none + block == block);
    }
    assert(caldav::either_index(block, "<D:href>"@, "<d:href>"@, 0) == Some(n));
    let open = n + 7;
    assert forall|i: int| n <= i < open implies block[i] != '>' by {
        assert(block[i] == tag[i - n]);
    }
    assert(block[open] == tag[7]);
    text::lemma_char_index_at(block, '>', n, open);
    let close = open + 1 + inner.len();
    assert forall|i: int| open + 1 <= i < close implies block[i] != '<' by {
        assert(block[i] == inner[i - open - 1]);
    }
    assert(block[close] == behind[0]);
    text::lemma_char_index_at(block, '<', open + 1, close);
    assert(block.subrange(open + 1, close) == inner);
    text::lemma_trimmed(left, link, right);
}

/// What stands behind the last `c`, where there is one.
pub proof fn lemma_after_last(a: Seq<char>, b: Seq<char>, c: char)
    requires
        !b.contains(c),
    ensures
        caldav::after_last(a + (seq![c] + b), c) == b,
        caldav::after_last(b, c) == b,
    decreases b.len(),
{
    let s = a + (seq![c] + b);
    if b.len() == 0 {
        assert(s.last() == c);
        assert(caldav::after_last(s, c) == b);
    } else {
        let front = b.drop_last();
        assert(b.contains(b[b.len() - 1]));
        assert forall|i: int| 0 <= i < front.len() implies front[i] != c by {
            assert(b.contains(b[i]));
        }
        lemma_after_last(a, front, c);
        assert(s.last() == b.last());
        assert(s.drop_last() == a + (seq![c] + front));
        assert(front.push(b.last()) == b);
    }
}

/// The link in a response that speaks of a calendar is followed, unless it leads to the account itself
/// or the last part of its path is excluded. The slashes at its end do not matter for that.
pub proof fn lemma_link_is_followed(
    before: Seq<char>,
    capital: bool,
    left: Seq<char>,
    dir: Seq<char>,
    slug: Seq<char>,
    slashes: Seq<char>,
    right: Seq<char>,
    behind: Seq<char>,
    account_path: Seq<char>,
    exclude: Seq<Seq<char>>,
)
    requires
        is_link(before, capital, left, dir + (seq!['/'] + slug) + slashes, right, behind),
        slug.len() > 0,
        !slug.contains('/'),
        forall|i: int| 0 <= i < slashes.len() ==> #[trigger] slashes[i] == '/',
    ensures
        ({
            let link = dir + (seq!['/'] + slug) + slashes;
            let block = with_link(before, capital, left, link, right, behind);
            caldav::wanted_link(block, account_path, exclude) == if caldav::is_calendar(block)
                && dir + (seq!['/'] + slug) != account_path && !exclude.contains(slug) {
                Some(link)
            } else {
                None
            }
        }),
{
    let path = dir + (seq!['/'] + slug);
    let link = path + slashes;
    lemma_link_read_back(before, capital, left, link, right, behind);
    assert(slug.contains(slug[slug.len() - 1]));
    assert(path.last() == slug.last());
    text::lemma_trimmed_end_run(path, slashes, '/');
    lemma_after_last(dir, slug, '/');
}

/// The same holds of a link without a slash but at its end: it is its own last part.
pub proof fn lemma_bare_link_is_followed(
    before: Seq<char>,
    capital: bool,
    left: Seq<char>,
    slug: Seq<char>,
    slashes: Seq<char>,
    right: Seq<char>,
    behind: Seq<char>,
    account_path: Seq<char>,
    exclude: Seq<Seq<char>>,
)
    requires
        is_link(before, capital, left, slug + slashes, right, behind),
        !slug.contains('/'),
        forall|i: int| 0 <= i < slashes.len() ==> #[trigger] slashes[i] == '/',
    ensures
        ({
            let link = slug + slashes;
            let block = with_link(before, capital, left, link, right, behind);
            caldav::wanted_link(block, account_path, exclude) == if caldav::is_calendar(block)
                && slug != account_path && !exclude.contains(slug) {
                Some(link)
            } else {
                None
            }
        }),
{
    lemma_link_read_back(before, capital, left, slug + slashes, right, behind);
    if slug.len() > 0 {
        assert(slug.contains(slug[slug.len() - 1]));
    }
    text::lemma_trimmed_end_run(slug, slashes, '/');
    lemma_after_last(Seq::empty(), slug, '/');
}

/// A response speaks of a calendar where a tag of that name stands in it, in any of its three forms.
pub proof fn lemma_speaks_of_a_calendar(before: Seq<char>, behind: Seq<char>)
    ensures
        caldav::is_calendar(before + (":calendar/>"@ + behind)),
        caldav::is_calendar(before + (":calendar />"@ + behind)),
        caldav::is_calendar(before + (":calendar>"@ + behind)),
{
    lemma_stands_there(before, ":calendar/>"@, behind);
    lemma_stands_there(before, ":calendar />"@, behind);
    lemma_stands_there(before, ":calendar>"@, behind);
}

/// What is written into a text stands in it.
proof fn lemma_stands_there(before: Seq<char>, p: Seq<char>, behind: Seq<char>)
    ensures
        text::contains_text(before + (p + behind), p),
{
    let s = before + (p + behind);
    let n = before.len() as int;
    assert(s.subrange(n, n + p.len()) == p);
    assert(text::occurs_at(s, p, n));
}

/// A response in which no tag of a calendar stands is passed over.
pub proof fn lemma_other_collections_are_passed_over(
    block: Seq<char>,
    account_path: Seq<char>,
    exclude: Seq<Seq<char>>,
)
    requires
        !text::contains_text(block, ":calendar/>"@),
        !text::contains_text(block, ":calendar />"@),
        !text::contains_text(block, ":calendar>"@),
    ensures
        caldav::wanted_link(block, account_path, exclude) is None,
{
}

/// A link that no tag follows is none.
pub proof fn lemma_link_without_end(before: Seq<char>, capital: bool, behind: Seq<char>)
    requires
        !text::contains_text(before, link_tag(capital)),
        !behind.contains('<'),
        !capital ==> !text::contains_text(before, "<D:href>"@),
    ensures
        caldav::href_of(before + (link_tag(capital) + behind)) is None,
{
    lemma_link_tags();
    let none = Seq::<char>::empty();
    let tag = link_tag(capital);
    let block = before + (tag + behind);
    let n = before.len() as int;
    assert forall|k: int| 0 <= k < tag.len() - 1 implies #[trigger] tag[k] != tag.last() by {}
    text::lemma_found_behind(none, before, tag, behind);
    assert(none + block == block);
    if !capital {
        let p = "<D:href>"@;
        let x = tag + behind;
        assert forall|j: int| !text::occurs_at(x, p, j) by {
            if text::occurs_at(x, p, j) {
                assert(x.subrange(j, j + 8)[0] == x[j]);
                assert(x.subrange(j, j + 8)[1] == x[j + 1]);
                if j >= 8 {
                    assert(behind.contains(behind[j - 8]));
                } else {
                    assert(x[j] == tag[j]);
                    assert(j == 0);
                    assert(x[1] == tag[1]);
                }
            }
        }
        text::lemma_nowhere(before, x, p);
        lemma_not_found_behind(none, block, p);
    }
    let open = n + 7;
    assert forall|i: int| n <= i < open implies block[i] != '>' by {
        assert(block[i] == tag[i - n]);
    }
    assert(block[open] == tag[7]);
    text::lemma_char_index_at(block, '>', n, open);
    assert forall|i: int| open + 1 <= i < block.len() implies block[i] != '<' by {
        assert(block[i] == behind[i - open - 1]);
        assert(behind.contains(behind[i - open - 1]));
    }
    text::lemma_char_index(block, '<', open + 1);
}

/// A response without a link is passed over.
pub proof fn lemma_no_link(block: Seq<char>, account_path: Seq<char>, exclude: Seq<Seq<char>>)
    requires
        !text::contains_text(block, "<D:href>"@),
        !text::contains_text(block, "<d:href>"@),
    ensures
        caldav::wanted_link(block, account_path, exclude) is None,
{
    text::lemma_contains(block, "<D:href>"@);
    text::lemma_contains(block, "<d:href>"@);
}

/// The addresses of two lists of responses are those of the first and those of the second, in this
/// order; the first error is the error of both.
pub proof fn lemma_addresses_add_up(
    a: Seq<Seq<char>>,
    b: Seq<Seq<char>>,
    account_url: Seq<char>,
    exclude: Seq<Seq<char>>,
)
    ensures
        caldav::addresses(a + b, account_url, exclude) == match (
            caldav::addresses(a, account_url, exclude),
            caldav::addresses(b, account_url, exclude),
        ) {
            (Ok(first), Ok(second)) => Ok(first + second),
            (Err(e), _) => Err(e),
            (Ok(_), Err(e)) => Err(e),
        },
    decreases b.len(),
{
    if b.len() == 0 {
        assert(a + b == a);
        if let Ok(first) = caldav::addresses(a, account_url, exclude) {
            assert(first + Seq::<Seq<char>>::empty() == first);
        }
    } else {
        lemma_addresses_add_up(a, b.drop_last(), account_url, exclude);
        assert((a + b).drop_last() == a + b.drop_last());
        assert((a + b).last() == b.last());
        if let (Ok(first), Ok(second)) = (
            caldav::addresses(a, account_url, exclude),
            caldav::addresses(b.drop_last(), account_url, exclude),
        ) {
            if let Ok(all) = caldav::addresses(b, account_url, exclude) {
                if all.len() > second.len() {
                    assert(first + second.push(all.last()) == (first + second).push(all.last()));
                }
            }
        }
    }
}

/// A single response gives the address of its link, where the link is followed, and none where it is
/// not.
pub proof fn lemma_address_of_one(
    block: Seq<char>,
    account_url: Seq<char>,
    exclude: Seq<Seq<char>>,
)
    ensures
        caldav::addresses(seq![block], account_url, exclude) == match caldav::wanted_link(
            block,
            caldav::account_path(account_url),
            exclude,
        ) {
            None => Ok(Seq::empty()),
            Some(link) => match caldav::address(link, account_url) {
                Ok(url) => Ok(seq![url]),
                Err(e) => Err(e),
            },
        },
{
    let blocks = seq![block];
    let none = Seq::<Seq<char>>::empty();
    assert(blocks.drop_last() == none);
    assert(caldav::addresses(blocks.drop_last(), account_url, exclude) == Ok::<
        Seq<Seq<char>>,
        Seq<char>,
    >(none));
    if let Some(link) = caldav::wanted_link(block, caldav::account_path(account_url), exclude) {
        if let Ok(url) = caldav::address(link, account_url) {
            assert(none.push(url) == seq![url]);
        }
    }
}

/// A link with a scheme is an address by itself; a path is joined to the account's address, and fails
/// where that is none.
pub proof fn lemma_addresses_of_links(rest: Seq<char>, account_url: Seq<char>)
    ensures
        caldav::address("http://"@ + rest, account_url) == Ok::<Seq<char>, Seq<char>>(
            "http://"@ + rest,
        ),
        caldav::address("https://"@ + rest, account_url) == Ok::<Seq<char>, Seq<char>>(
            "https://"@ + rest,
        ),
        caldav::parsed_url(account_url) is Ok ==> caldav::address(seq!['/'] + rest, account_url)
            == caldav::joined_url(account_url, seq!['/'] + rest),
        caldav::parsed_url(account_url) matches Err(e) ==> caldav::address(
            seq!['/'] + rest,
            account_url,
        ) == Err::<Seq<char>, Seq<char>>(e),
{
    reveal_strlit("http://");
    reveal_strlit("https://");
    let a = "http://"@ + rest;
    let b = "https://"@ + rest;
    let c = seq!['/'] + rest;
    assert(a.subrange(0, 7) == "http://"@);
    assert(b.subrange(0, 8) == "https://"@);
    if "http://"@.is_prefix_of(c) {
        assert(c.subrange(0, 7)[0] == c[0]);
    }
    if "https://"@.is_prefix_of(c) {
        assert(c.subrange(0, 8)[0] == c[0]);
    }
}

/// The account is known by the path of its address; the slashes at its end do not matter.
pub proof fn lemma_account_path(account_url: Seq<char>, path: Seq<char>, slashes: Seq<char>)
    requires
        caldav::parsed_url(account_url) is Ok,
        caldav::url_path(account_url) == path + slashes,
        path.len() > 0 ==> path.last() != '/',
        forall|i: int| 0 <= i < slashes.len() ==> #[trigger] slashes[i] == '/',
    ensures
        caldav::account_path(account_url) == path,
{
    text::lemma_trimmed_end_run(path, slashes, '/');
}

/// A day and midnight in universal time, as a query writes them.
proof fn lemma_midnight(d: Date)
    ensures
        dates::date_text(d, "%Y%m%dT000000Z"@) == dates::date_text(d, "%Y%m%d"@) + "T000000Z"@,
{
    reveal_strlit("%Y%m%dT000000Z");
    reveal_strlit("%Y%m%d");
    reveal_strlit("T000000Z");
    let long = "%Y%m%dT000000Z"@;
    let short = "%Y%m%d"@;
    let end = "T000000Z"@;
    let none = Seq::<char>::empty();
    assert(long.skip(2).skip(2).skip(2) == end);
    assert(short.skip(2).skip(2).skip(2) == none);
    lemma_plain_text(d, end);
    assert(dates::date_text(d, none) == none);
    let y = dates::date_field(d, 'Y');
    let m = dates::date_field(d, 'm');
    let e = dates::date_field(d, 'd');
    assert(long[0] == '%' && long[1] == 'Y' && short[0] == '%' && short[1] == 'Y');
    assert(long.skip(2)[0] == '%' && long.skip(2)[1] == 'm');
    assert(short.skip(2)[0] == '%' && short.skip(2)[1] == 'm');
    assert(long.skip(2).skip(2)[0] == '%' && long.skip(2).skip(2)[1] == 'd');
    assert(short.skip(2).skip(2)[0] == '%' && short.skip(2).skip(2)[1] == 'd');
    assert(dates::date_text(d, short.skip(2).skip(2)) == e + none);
    assert(dates::date_text(d, long.skip(2).skip(2)) == e + end);
    assert(dates::date_text(d, short.skip(2)) == m + (e + none));
    assert(dates::date_text(d, long.skip(2)) == m + (e + end));
    assert(dates::date_text(d, short) == y + (m + (e + none)));
    assert(dates::date_text(d, long) == y + (m + (e + end)));
    assert(y + (m + (e + end)) == y + (m + (e + none)) + end);
}

/// Text without specifiers is kept.
proof fn lemma_plain_text(d: Date, s: Seq<char>)
    requires
        !s.contains('%'),
    ensures
        dates::date_text(d, s) == s,
    decreases s.len(),
{
    if s.len() > 0 {
        let rest = s.skip(1);
        assert(s.contains(s[0]));
        assert forall|i: int| 0 <= i < rest.len() implies rest[i] != '%' by {
            assert(s.contains(s[i + 1]));
        }
        lemma_plain_text(d, rest);
        assert(seq![s[0]] + rest == s);
    }
}

/// A query asks for what lies between midnight of the first day and midnight of the day behind the
/// last, in this order.
pub proof fn lemma_query_names_the_days(start: Date, end: Date)
    ensures
        text::contains_text(
            caldav::query_text(start, end),
            "start=\""@ + dates::date_text(start, "%Y%m%d"@) + "T000000Z\" end=\""@
                + dates::date_text(end, "%Y%m%d"@) + "T000000Z\"/>"@,
        ),
{
    lemma_midnight(start);
    lemma_midnight(end);
    let head =
        "<?xml version=\"1.0\" encoding=\"UTF-8\" ?>
<C:calendar-query xmlns:D=\"DAV:\" xmlns:C=\"urn:ietf:params:xml:ns:caldav\">
  <D:prop><C:calendar-data/></D:prop>
  <C:filter>
    <C:comp-filter name=\"VCALENDAR\">
      <C:comp-filter name=\"VEVENT\">
        <C:time-range start=\""@;
    let foot =
        "\"/>
      </C:comp-filter>
    </C:comp-filter>
  </C:filter>
</C:calendar-query>"@;
    reveal_strlit("<?xml version=\"1.0\" encoding=\"UTF-8\" ?>
<C:calendar-query xmlns:D=\"DAV:\" xmlns:C=\"urn:ietf:params:xml:ns:caldav\">
  <D:prop><C:calendar-data/></D:prop>
  <C:filter>
    <C:comp-filter name=\"VCALENDAR\">
      <C:comp-filter name=\"VEVENT\">
        <C:time-range start=\"");
    reveal_strlit("\"/>
      </C:comp-filter>
    </C:comp-filter>
  </C:filter>
</C:calendar-query>");
    reveal_strlit("start=\"");
    reveal_strlit("\" end=\"");
    reveal_strlit("T000000Z");
    reveal_strlit("T000000Z\" end=\"");
    reveal_strlit("T000000Z\"/>");
    let first = dates::date_text(start, "%Y%m%d"@);
    let second = dates::date_text(end, "%Y%m%d"@);
    let n = head.len() - 7;
    let before = head.take(n);
    let behind = foot.skip(3);
    assert(head.skip(n) =~= "start=\""@);
    assert(head =~= before + "start=\""@);
    assert("T000000Z"@ + "\" end=\""@ =~= "T000000Z\" end=\""@);
    assert("T000000Z"@ + foot =~= "T000000Z\"/>"@ + behind);
    let wanted = "start=\""@ + first + "T000000Z\" end=\""@ + second + "T000000Z\"/>"@;
    let whole = caldav::query_text(start, end);
    assert(whole == head + (first + "T000000Z"@) + "\" end=\""@ + (second + "T000000Z"@) + foot);
    assert(whole =~= before + "start=\""@ + first + ("T000000Z"@ + "\" end=\""@) + second + (
    "T000000Z"@ + foot));
    assert(whole =~= before + (wanted + behind));
    lemma_stands_there(before, wanted, behind);
}

/// The events of several calendars are those of each, one calendar after the other.
pub proof fn lemma_events_of_calendars_add_up(a: Seq<Seq<char>>, b: Seq<Seq<char>>, one: Seq<char>)
    ensures
        caldav::all_events(a + b) == caldav::all_events(a) + caldav::all_events(b),
        caldav::all_events(seq![one]) == ics::events_of(one),
        caldav::all_events(Seq::empty()) == Seq::<ics::EventModel>::empty(),
    decreases b.len(),
{
    let none = Seq::<ics::EventModel>::empty();
    assert(seq![one].drop_last() == Seq::<Seq<char>>::empty());
    assert(caldav::all_events(seq![one].drop_last()) == none);
    assert(none + ics::events_of(one) == ics::events_of(one));
    if b.len() == 0 {
        assert(a + b == a);
        assert(caldav::all_events(a) + none == caldav::all_events(a));
    } else {
        lemma_events_of_calendars_add_up(a, b.drop_last(), one);
        assert((a + b).drop_last() == a + b.drop_last());
        assert((a + b).last() == b.last());
        assert(caldav::all_events(a) + caldav::all_events(b.drop_last()) + ics::events_of(b.last())
            == caldav::all_events(a) + (caldav::all_events(b.drop_last()) + ics::events_of(
            b.last(),
        )));
    }
}

}

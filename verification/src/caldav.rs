//! What is asked of a CalDAV server, and what is taken from its answers.

use crate::dates;
use crate::dates::Date;
use crate::ics;
use crate::ics::IcsEvent;
use crate::text;
use vstd::prelude::*;

verus! {

/// The body of a `REPORT` that asks for the events from the beginning of the day `start` up to the
/// beginning of the day `end`.
pub open spec fn query_text(start: Date, end: Date) -> Seq<char> {
    "<?xml version=\"1.0\" encoding=\"UTF-8\" ?>
<C:calendar-query xmlns:D=\"DAV:\" xmlns:C=\"urn:ietf:params:xml:ns:caldav\">
  <D:prop><C:calendar-data/></D:prop>
  <C:filter>
    <C:comp-filter name=\"VCALENDAR\">
      <C:comp-filter name=\"VEVENT\">
        <C:time-range start=\""@
        + dates::date_text(start, "%Y%m%dT000000Z"@) + "\" end=\""@ + dates::date_text(
        end,
        "%Y%m%dT000000Z"@,
    )
        + "\"/>
      </C:comp-filter>
    </C:comp-filter>
  </C:filter>
</C:calendar-query>"@
}

/// The body of a `REPORT` that asks for the events from the beginning of the day `start` up to the
/// beginning of the day `end`.
pub fn calendar_query(start: Date, end: Date) -> (r: String)
    requires
        start.valid(),
        end.valid(),
    ensures
        r@ == query_text(start, end),
{
    proof {
        reveal_strlit("%Y%m%dT000000Z");
    }
    let mut r: String =
        "<?xml version=\"1.0\" encoding=\"UTF-8\" ?>
<C:calendar-query xmlns:D=\"DAV:\" xmlns:C=\"urn:ietf:params:xml:ns:caldav\">
  <D:prop><C:calendar-data/></D:prop>
  <C:filter>
    <C:comp-filter name=\"VCALENDAR\">
      <C:comp-filter name=\"VEVENT\">
        <C:time-range start=\"".to_owned();
    r.append(dates::format_date(start, "%Y%m%dT000000Z").as_str());
    r.append("\" end=\"");
    r.append(dates::format_date(end, "%Y%m%dT000000Z").as_str());
    r.append(
        "\"/>
      </C:comp-filter>
    </C:comp-filter>
  </C:filter>
</C:calendar-query>",
    );
    r
}

/// The body of a `PROPFIND` that asks for the kinds and the names of the collections of an account.
pub fn propfind_body() -> (r: &'static str)
    ensures
        r@
            == "<?xml version=\"1.0\" encoding=\"UTF-8\"?>
<D:propfind xmlns:D=\"DAV:\" xmlns:C=\"urn:ietf:params:xml:ns:caldav\">
  <D:prop>
    <D:resourcetype/>
    <D:displayname/>
  </D:prop>
</D:propfind>"@,
{
    "<?xml version=\"1.0\" encoding=\"UTF-8\"?>
<D:propfind xmlns:D=\"DAV:\" xmlns:C=\"urn:ietf:params:xml:ns:caldav\">
  <D:prop>
    <D:resourcetype/>
    <D:displayname/>
  </D:prop>
</D:propfind>"
}

/// The calendars in an answer, from position `pos` on: each reaches from a `BEGIN:VCALENDAR` through
/// the first `END:VCALENDAR` behind it.
pub open spec fn calendars_from(xml: Seq<char>, pos: int) -> Seq<Seq<char>>
    decreases xml.len() - pos,
{
    match text::index_of(xml, "BEGIN:VCALENDAR"@, pos) {
        None => Seq::empty(),
        Some(start) => match text::index_of(xml, "END:VCALENDAR"@, start) {
            Some(last) if pos < last + 13 <= xml.len() => seq![xml.subrange(start, last + 13)]
                + calendars_from(xml, last + 13),
            _ => Seq::empty(),
        },
    }
}

/// The calendars in the answer to a [`calendar_query`].
pub fn calendars_in(xml: &str) -> (r: Vec<String>)
    ensures
        text::texts(r@) == calendars_from(xml@, 0),
{
    let s: Vec<char> = text::chars_of(xml);
    let len: usize = s.len();
    let mut r: Vec<String> = Vec::new();
    let mut pos: usize = 0;
    assert(text::texts(r@) + calendars_from(s@, 0) == calendars_from(s@, 0));
    proof {
        reveal_strlit("BEGIN:VCALENDAR");
        reveal_strlit("END:VCALENDAR");
    }
    loop
        invariant
            s@ == xml@,
            pos <= len == s@.len(),
            "BEGIN:VCALENDAR"@.len() == 15,
            "END:VCALENDAR"@.len() == 13,
            text::texts(r@) + calendars_from(s@, pos as int) == calendars_from(s@, 0),
        decreases s@.len() - pos,
    {
        let start: usize = match text::find_text(s.as_slice(), "BEGIN:VCALENDAR", pos) {
            Some(i) => i,
            None => {
                assert(text::texts(r@) + calendars_from(s@, pos as int) == text::texts(r@));
                return r;
            },
        };
        let last: usize = match text::find_text(s.as_slice(), "END:VCALENDAR", start) {
            Some(i) => i,
            None => {
                assert(text::texts(r@) + calendars_from(s@, pos as int) == text::texts(r@));
                return r;
            },
        };
        let end: usize = last + 13;
        let block: Vec<char> = text::part(s.as_slice(), start, end);
        let ghost before = text::texts(r@);
        r.push(text::string_of(block.as_slice()));
        assert(text::texts(r@) == before.push(block@));
        assert(before.push(block@) + calendars_from(s@, end as int) == before + (seq![block@]
            + calendars_from(s@, end as int)));
        pos = end;
    }
}

/// The position of one of two texts: of the first, or, where it is not found, of the second.
pub open spec fn either_index(s: Seq<char>, p: Seq<char>, q: Seq<char>, from: int) -> Option<int> {
    match text::index_of(s, p, from) {
        Some(i) => Some(i),
        None => text::index_of(s, q, from),
    }
}

/// Where the response that begins at `start` ends: behind its closing tag, or with the answer.
pub open spec fn response_end(xml: Seq<char>, start: int) -> int {
    let close = if "<D:"@.is_prefix_of(xml.skip(start)) {
        "</D:response>"@
    } else {
        "</d:response>"@
    };
    match text::index_of(xml, close, start) {
        Some(i) => i + 13,
        None => xml.len() as int,
    }
}

/// The responses in an answer, from position `pos` on.
pub open spec fn responses_from(xml: Seq<char>, pos: int) -> Seq<Seq<char>>
    decreases xml.len() - pos,
{
    match either_index(xml, "<D:response>"@, "<d:response>"@, pos) {
        Some(start) if pos < response_end(xml, start) <= xml.len() => seq![
            xml.subrange(start, response_end(xml, start)),
        ] + responses_from(xml, response_end(xml, start)),
        _ => Seq::empty(),
    }
}

/// Whether a response speaks of a calendar.
pub open spec fn is_calendar(block: Seq<char>) -> bool {
    ||| text::contains_text(block, ":calendar/>"@)
    ||| text::contains_text(block, ":calendar />"@)
    ||| text::contains_text(block, ":calendar>"@)
}

/// The link in a response: what stands between its `href` tag and the next tag.
pub open spec fn href_of(block: Seq<char>) -> Option<Seq<char>> {
    match either_index(block, "<D:href>"@, "<d:href>"@, 0) {
        None => None,
        Some(tag) => match text::char_index(block, '>', tag) {
            None => None,
            Some(open) => match text::char_index(block, '<', open + 1) {
                None => None,
                Some(close) => Some(text::trimmed(block.subrange(open + 1, close))),
            },
        },
    }
}

/// What stands behind the last `c`.
pub open spec fn after_last(s: Seq<char>, c: char) -> Seq<char>
    decreases s.len(),
{
    if s.len() == 0 || s.last() == c {
        Seq::empty()
    } else {
        after_last(s.drop_last(), c).push(s.last())
    }
}

/// The link in a response, where it is one to a calendar other than the account itself, and the last
/// part of its path is not excluded.
pub open spec fn wanted_link(
    block: Seq<char>,
    account_path: Seq<char>,
    exclude: Seq<Seq<char>>,
) -> Option<Seq<char>> {
    if !is_calendar(block) {
        None
    } else {
        match href_of(block) {
            None => None,
            Some(href) => {
                let path = text::trimmed_end(href, '/');
                if path == account_path || exclude.contains(after_last(path, '/')) {
                    None
                } else {
                    Some(href)
                }
            },
        }
    }
}

/// The position of one of two texts: of the first, or, where it is not found, of the second.
fn find_either(s: &[char], p: &str, q: &str, from: usize) -> (r: Option<usize>)
    requires
        from <= s@.len(),
        p@.len() == q@.len(),
    ensures
        r matches Some(i) ==> either_index(s@, p@, q@, from as int) == Some(i as int) && from <= i
            && i + p@.len() <= s@.len(),
        r is None ==> either_index(s@, p@, q@, from as int) is None,
{
    match text::find_text(s, p, from) {
        Some(i) => Some(i),
        None => text::find_text(s, q, from),
    }
}

/// Whether `p` stands at position `i`.
fn begins_at(s: &[char], p: &str, i: usize) -> (r: bool)
    requires
        i <= s@.len(),
    ensures
        r == p@.is_prefix_of(s@.skip(i as int)),
{
    let p: Vec<char> = text::chars_of(p);
    assert(i + p@.len() <= s@.len() ==> s@.subrange(i as int, i + p@.len()) == s@.skip(
        i as int,
    ).subrange(0, p@.len() as int));
    text::stands_at(s, p.as_slice(), i)
}

/// The responses in the answer to a `PROPFIND`.
pub fn responses_in(xml: &str) -> (r: Vec<String>)
    ensures
        text::texts(r@) == responses_from(xml@, 0),
{
    let s: Vec<char> = text::chars_of(xml);
    let len: usize = s.len();
    let mut r: Vec<String> = Vec::new();
    let mut pos: usize = 0;
    assert(text::texts(r@) + responses_from(s@, 0) == responses_from(s@, 0));
    proof {
        reveal_strlit("<D:response>");
        reveal_strlit("<d:response>");
        reveal_strlit("</D:response>");
        reveal_strlit("</d:response>");
    }
    loop
        invariant
            s@ == xml@,
            pos <= len == s@.len(),
            "<D:response>"@.len() == 12,
            "<d:response>"@.len() == 12,
            "</D:response>"@.len() == 13,
            "</d:response>"@.len() == 13,
            text::texts(r@) + responses_from(s@, pos as int) == responses_from(s@, 0),
        decreases s@.len() - pos,
    {
        let start: usize = match find_either(s.as_slice(), "<D:response>", "<d:response>", pos) {
            Some(i) => i,
            None => {
                assert(text::texts(r@) + responses_from(s@, pos as int) == text::texts(r@));
                return r;
            },
        };
        let close: &'static str = if begins_at(s.as_slice(), "<D:", start) {
            "</D:response>"
        } else {
            "</d:response>"
        };
        let end: usize = match text::find_text(s.as_slice(), close, start) {
            Some(i) => i + 13,
            None => len,
        };
        assert(end == response_end(s@, start as int));
        let block: Vec<char> = text::part(s.as_slice(), start, end);
        let ghost before = text::texts(r@);
        r.push(text::string_of(block.as_slice()));
        assert(text::texts(r@) == before.push(block@));
        assert(before.push(block@) + responses_from(s@, end as int) == before + (seq![block@]
            + responses_from(s@, end as int)));
        pos = end;
    }
}

/// What stands behind the last `c`.
fn part_after_last(s: &[char], c: char) -> (r: Vec<char>)
    ensures
        r@ == after_last(s@, c),
{
    let mut n: usize = s.len();
    let ghost all = s@;
    assert(all.take(n as int) == all);
    assert(all.skip(n as int) == Seq::<char>::empty());
    assert(after_last(all, c) + all.skip(n as int) == after_last(all, c));
    while n > 0 && s[n - 1] != c
        invariant
            n <= s@.len(),
            all == s@,
            after_last(all.take(n as int), c) + all.skip(n as int) == after_last(all, c),
        decreases n,
    {
        assert(all.take(n as int).drop_last() == all.take(n - 1));
        assert(after_last(all.take(n - 1), c).push(all[n - 1]) + all.skip(n as int) == after_last(
            all.take(n - 1),
            c,
        ) + all.skip(n - 1));
        n -= 1;
    }
    assert(Seq::<char>::empty() + all.skip(n as int) == all.skip(n as int));
    let r: Vec<char> = text::part(s, n, s.len());
    assert(r@ == all.skip(n as int));
    r
}

/// The link in a response.
fn find_href(block: &[char]) -> (r: Option<Vec<char>>)
    ensures
        r matches Some(href) ==> href_of(block@) == Some(href@),
        r is None ==> href_of(block@) is None,
{
    proof {
        reveal_strlit("<D:href>");
        reveal_strlit("<d:href>");
    }
    let tag: usize = match find_either(block, "<D:href>", "<d:href>", 0) {
        Some(i) => i,
        None => {
            return None;
        },
    };
    let open: usize = match text::find_char(block, '>', tag) {
        Some(i) => i,
        None => {
            return None;
        },
    };
    let len: usize = block.len();
    match text::find_char(block, '<', open + 1) {
        Some(close) => {
            let inner: Vec<char> = text::part(block, open + 1, close);
            Some(text::trim(inner.as_slice()))
        },
        None => None,
    }
}

/// Whether the list holds the text.
fn is_listed(list: &Vec<String>, s: &[char]) -> (r: bool)
    ensures
        r == text::texts(list@).contains(s@),
{
    let ghost all = text::texts(list@);
    for i in 0..list.len()
        invariant
            all == text::texts(list@),
            forall|k: int| 0 <= k < i ==> #[trigger] all[k] != s@,
    {
        assert(all[i as int] == list@[i as int]@);
        if text::same_text(s, list[i].as_str()) {
            return true;
        }
    }
    false
}

/// The link in a response, where it is one to a calendar other than the account itself, and the last
/// part of its path is not excluded. `account_path` is the path of the account's address, without the
/// slashes at its end.
pub fn calendar_link(block: &str, account_path: &str, exclude: &Vec<String>) -> (r: Option<String>)
    ensures
        r matches Some(href) ==> wanted_link(block@, account_path@, text::texts(exclude@)) == Some(
            href@,
        ),
        r is None ==> wanted_link(block@, account_path@, text::texts(exclude@)) is None,
{
    let block: Vec<char> = text::chars_of(block);
    if !text::has_text(block.as_slice(), ":calendar/>") && !text::has_text(
        block.as_slice(),
        ":calendar />",
    ) && !text::has_text(block.as_slice(), ":calendar>") {
        return None;
    }
    let href: Vec<char> = match find_href(block.as_slice()) {
        Some(href) => href,
        None => {
            return None;
        },
    };
    let path: Vec<char> = text::trim_end_char(href.as_slice(), '/');
    if text::same_text(path.as_slice(), account_path) {
        return None;
    }
    let slug: Vec<char> = part_after_last(path.as_slice(), '/');
    if is_listed(exclude, slug.as_slice()) {
        return None;
    }
    Some(text::string_of(href.as_slice()))
}

/// What `reqwest::Url::parse` makes of a text: the address in its normal form, or the message of the
/// error.
pub uninterp spec fn parsed_url(s: Seq<char>) -> Result<Seq<char>, Seq<char>>;

/// What `reqwest::Url::path` gives for an address.
pub uninterp spec fn url_path(s: Seq<char>) -> Seq<char>;

/// What `reqwest::Url::join` makes of an address and a link: the address of the link in its normal
/// form, or the message of the error.
pub uninterp spec fn joined_url(base: Seq<char>, link: Seq<char>) -> Result<Seq<char>, Seq<char>>;

/// The text of a result.
pub open spec fn result_text(r: Result<String, String>) -> Result<Seq<char>, Seq<char>> {
    match r {
        Ok(s) => Ok(s@),
        Err(e) => Err(e@),
    }
}

/// Calls `reqwest::Url::parse` and writes out the address or the error. Both are functions of the
/// text.
#[verifier::external_body]
pub(crate) fn parse_url(s: &str) -> (r: Result<String, String>)
    ensures
        result_text(r) == parsed_url(s@),
{
    match reqwest::Url::parse(s) {
        Ok(url) => Ok(String::from(url)),
        Err(e) => Err(e.to_string()),
    }
}

/// Calls `reqwest::Url::path` on a text that is an address. The path is a function of the text.
#[verifier::external_body]
pub(crate) fn path_of_url(s: &str) -> (r: String)
    requires
        parsed_url(s@) is Ok,
    ensures
        r@ == url_path(s@),
{
    reqwest::Url::parse(s).unwrap().path().to_owned()
}

/// Calls `reqwest::Url::join` on a text that is an address and on a link, and writes out the address
/// of the link or the error. Both are functions of the two texts.
#[verifier::external_body]
pub(crate) fn join_url(base: &str, link: &str) -> (r: Result<String, String>)
    requires
        parsed_url(base@) is Ok,
    ensures
        result_text(r) == joined_url(base@, link@),
{
    match reqwest::Url::parse(base).unwrap().join(link) {
        Ok(url) => Ok(String::from(url)),
        Err(e) => Err(e.to_string()),
    }
}

/// Why the calendars of an account could not be found.
#[derive(Debug)]
pub enum DiscoveryError {
    /// The account's address, or a link in its answer, is no address.
    InvalidUrl(String),
}

/// The path of an account's address without the slashes at its end; the empty text where the address
/// is none.
pub open spec fn account_path(account_url: Seq<char>) -> Seq<char> {
    match parsed_url(account_url) {
        Ok(_) => text::trimmed_end(url_path(account_url), '/'),
        Err(_) => Seq::empty(),
    }
}

/// Whether a link is an address by itself.
pub open spec fn is_absolute(link: Seq<char>) -> bool {
    "http://"@.is_prefix_of(link) || "https://"@.is_prefix_of(link)
}

/// The address to which a link in an account's answer leads.
pub open spec fn address(link: Seq<char>, account_url: Seq<char>) -> Result<Seq<char>, Seq<char>> {
    if is_absolute(link) {
        Ok(link)
    } else {
        match parsed_url(account_url) {
            Err(e) => Err(e),
            Ok(_) => joined_url(account_url, link),
        }
    }
}

/// The addresses of the calendars that the responses name, in the order of the responses; the first
/// error where one of the addresses cannot be made.
pub open spec fn addresses(
    blocks: Seq<Seq<char>>,
    account_url: Seq<char>,
    exclude: Seq<Seq<char>>,
) -> Result<Seq<Seq<char>>, Seq<char>>
    decreases blocks.len(),
{
    if blocks.len() == 0 {
        Ok(Seq::empty())
    } else {
        match addresses(blocks.drop_last(), account_url, exclude) {
            Err(e) => Err(e),
            Ok(urls) => match wanted_link(blocks.last(), account_path(account_url), exclude) {
                None => Ok(urls),
                Some(link) => match address(link, account_url) {
                    Ok(url) => Ok(urls.push(url)),
                    Err(e) => Err(e),
                },
            },
        }
    }
}

/// An error in the first responses is the error of all of them.
proof fn lemma_first_error(
    blocks: Seq<Seq<char>>,
    n: int,
    account_url: Seq<char>,
    exclude: Seq<Seq<char>>,
)
    requires
        0 <= n <= blocks.len(),
        addresses(blocks.take(n), account_url, exclude) is Err,
    ensures
        addresses(blocks, account_url, exclude) == addresses(blocks.take(n), account_url, exclude),
    decreases blocks.len(),
{
    if n < blocks.len() {
        assert(blocks.drop_last().take(n) == blocks.take(n));
        lemma_first_error(blocks.drop_last(), n, account_url, exclude);
    } else {
        assert(blocks.take(n) == blocks);
    }
}

/// The address to which a link in an account's answer leads.
fn find_address(link: String, account_url: &str) -> (r: Result<String, String>)
    ensures
        result_text(r) == address(link@, account_url@),
{
    let cs: Vec<char> = text::chars_of(link.as_str());
    assert(cs@.skip(0) == cs@);
    if begins_at(cs.as_slice(), "http://", 0) || begins_at(cs.as_slice(), "https://", 0) {
        return Ok(link);
    }
    match parse_url(account_url) {
        Err(e) => Err(e),
        Ok(_) => join_url(account_url, link.as_str()),
    }
}

/// The addresses of the calendars that an account's answer to a `PROPFIND` names, without the account
/// itself and the excluded ones.
pub fn calendar_urls(xml: &str, account_url: &str, exclude: &Vec<String>) -> (r: Result<
    Vec<String>,
    DiscoveryError,
>)
    ensures
        match r {
            Ok(urls) => addresses(responses_from(xml@, 0), account_url@, text::texts(exclude@))
                == Ok::<Seq<Seq<char>>, Seq<char>>(text::texts(urls@)),
            Err(DiscoveryError::InvalidUrl(e)) => addresses(
                responses_from(xml@, 0),
                account_url@,
                text::texts(exclude@),
            ) == Err::<Seq<Seq<char>>, Seq<char>>(e@),
        },
{
    let blocks: Vec<String> = responses_in(xml);
    let path: String = match parse_url(account_url) {
        Ok(_) => {
            let path: String = path_of_url(account_url);
            let path: Vec<char> = text::chars_of(path.as_str());
            let path: Vec<char> = text::trim_end_char(path.as_slice(), '/');
            text::string_of(path.as_slice())
        },
        Err(_) => String::new(),
    };
    let ghost all = text::texts(blocks@);
    let ghost skipped = text::texts(exclude@);
    let mut urls: Vec<String> = Vec::new();
    assert(text::texts(urls@) == Seq::<Seq<char>>::empty());
    let mut i: usize = 0;
    while i < blocks.len()
        invariant
            i <= blocks@.len(),
            all == text::texts(blocks@),
            all == responses_from(xml@, 0),
            skipped == text::texts(exclude@),
            path@ == account_path(account_url@),
            addresses(all.take(i as int), account_url@, skipped) == Ok::<
                Seq<Seq<char>>,
                Seq<char>,
            >(text::texts(urls@)),
        decreases blocks@.len() - i,
    {
        assert(all.take(i + 1).drop_last() == all.take(i as int));
        assert(all.take(i + 1).last() == blocks@[i as int]@);
        if let Some(link) = calendar_link(blocks[i].as_str(), path.as_str(), exclude) {
            match find_address(link, account_url) {
                Ok(url) => {
                    let ghost before = text::texts(urls@);
                    urls.push(url);
                    assert(text::texts(urls@) == before.push(url@));
                },
                Err(e) => {
                    proof {
                        lemma_first_error(all, i + 1, account_url@, skipped);
                    }
                    return Err(DiscoveryError::InvalidUrl(e));
                },
            }
        }
        i += 1;
    }
    assert(all.take(all.len() as int) == all);
    Ok(urls)
}

/// Whether every calendar can be read.
pub open spec fn all_readable(calendars: Seq<Seq<char>>) -> bool {
    forall|i: int| 0 <= i < calendars.len() ==> ics::is_readable(#[trigger] calendars[i])
}

/// The events of the calendars, one calendar after the other.
pub open spec fn all_events(calendars: Seq<Seq<char>>) -> Seq<ics::EventModel>
    decreases calendars.len(),
{
    if calendars.len() == 0 {
        Seq::empty()
    } else {
        all_events(calendars.drop_last()) + ics::events_of(calendars.last())
    }
}

/// The events of the calendars, one calendar after the other; none where a calendar cannot be read.
pub fn parse_calendars(calendars: &[String]) -> (r: Option<Vec<IcsEvent>>)
    ensures
        r is Some <==> all_readable(text::texts(calendars@)),
        r matches Some(events) ==> ics::models(events@) == all_events(text::texts(calendars@)),
{
    let ghost all = text::texts(calendars@);
    let mut r: Vec<IcsEvent> = Vec::new();
    assert(ics::models(r@) == Seq::<ics::EventModel>::empty());
    for i in 0..calendars.len()
        invariant
            all == text::texts(calendars@),
            forall|k: int| 0 <= k < i ==> ics::is_readable(#[trigger] all[k]),
            ics::models(r@) == all_events(all.take(i as int)),
    {
        assert(all[i as int] == calendars@[i as int]@);
        assert(all.take(i + 1).drop_last() == all.take(i as int));
        assert(all.take(i + 1).last() == all[i as int]);
        match ics::parse_ics_checked(calendars[i].as_str()) {
            Some(mut events) => {
                let ghost before = ics::models(r@);
                let ghost new = ics::models(events@);
                r.append(&mut events);
                assert(ics::models(r@) == before + new);
            },
            None => {
                return None;
            },
        }
    }
    assert(all.take(all.len() as int) == all);
    Some(r)
}

}

use calendar_bot::caldav::{
    calendar_link, calendar_query, calendar_urls, calendars_in, parse_calendars, propfind_body,
    responses_in, DiscoveryError,
};
use calendar_bot::dates::Date;

fn response(tag: &str, href: &str, kind: &str) -> String {
    format!("<{tag}:response><{tag}:href>{href}</{tag}:href><{tag}:resourcetype>{kind}</{tag}:resourcetype></{tag}:response>")
}

#[test]
fn the_query_names_the_days() {
    let q = calendar_query(
        Date { year: 2024, month: 3, day: 5 },
        Date { year: 2024, month: 12, day: 31 },
    );
    let expected = [
        "<?xml version=\"1.0\" encoding=\"UTF-8\" ?>",
        "<C:calendar-query xmlns:D=\"DAV:\" xmlns:C=\"urn:ietf:params:xml:ns:caldav\">",
        "  <D:prop><C:calendar-data/></D:prop>",
        "  <C:filter>",
        "    <C:comp-filter name=\"VCALENDAR\">",
        "      <C:comp-filter name=\"VEVENT\">",
        "        <C:time-range start=\"20240305T000000Z\" end=\"20241231T000000Z\"/>",
        "      </C:comp-filter>",
        "    </C:comp-filter>",
        "  </C:filter>",
        "</C:calendar-query>",
    ];
    assert_eq!(q, expected.join("\n"));
}

#[test]
fn the_question_for_the_collections() {
    let expected = [
        "<?xml version=\"1.0\" encoding=\"UTF-8\"?>",
        "<D:propfind xmlns:D=\"DAV:\" xmlns:C=\"urn:ietf:params:xml:ns:caldav\">",
        "  <D:prop>",
        "    <D:resourcetype/>",
        "    <D:displayname/>",
        "  </D:prop>",
        "</D:propfind>",
    ];
    assert_eq!(propfind_body(), expected.join("\n"));
}

#[test]
fn calendars_are_cut_out_of_the_answer() {
    let xml = "<a>BEGIN:VCALENDAR\nx\nEND:VCALENDAR</a><b>BEGIN:VCALENDAR\ny\nEND:VCALENDAR</b>";
    assert_eq!(
        calendars_in(xml),
        vec![
            "BEGIN:VCALENDAR\nx\nEND:VCALENDAR".to_owned(),
            "BEGIN:VCALENDAR\ny\nEND:VCALENDAR".to_owned(),
        ]
    );
    assert!(calendars_in("").is_empty());
    assert!(calendars_in("END:VCALENDAR").is_empty());
    // A calendar that does not end is none.
    assert_eq!(calendars_in("BEGIN:VCALENDAR a END:VCALENDAR BEGIN:VCALENDAR b").len(), 1);
    assert_eq!(
        calendars_in("ü BEGIN:VCALENDAR ü BEGIN:VCALENDAR END:VCALENDAR"),
        vec!["BEGIN:VCALENDAR ü BEGIN:VCALENDAR END:VCALENDAR".to_owned()]
    );
}

#[test]
fn responses_are_cut_out_of_the_answer() {
    let a = response("D", "/a/", "<C:calendar/>");
    let b = response("d", "/b/", "<cal:calendar/>");
    assert_eq!(responses_in(&format!("<m>{a}..{a}</m>")), vec![a.clone(), a.clone()]);
    assert_eq!(responses_in(&b), vec![b.clone()]);
    // Capital tags are looked for first.
    assert_eq!(responses_in(&format!("{b}{a}")), vec![a.clone()]);
    // The last response may lack its end.
    assert_eq!(responses_in("x<D:response>y"), vec!["<D:response>y".to_owned()]);
    assert!(responses_in("nothing").is_empty());
}

#[test]
fn links_to_calendars() {
    let none: Vec<String> = Vec::new();
    let link = |kind: &str| calendar_link(&response("D", " /dav/work/ ", kind), "/dav", &none);
    assert_eq!(link("<C:calendar/>").as_deref(), Some("/dav/work/"));
    assert_eq!(link("<C:calendar />").as_deref(), Some("/dav/work/"));
    assert_eq!(link("<C:calendar></C:calendar>").as_deref(), Some("/dav/work/"));
    assert_eq!(link("<D:collection/>"), None);
    // The account itself.
    assert_eq!(calendar_link(&response("D", "/dav/", "<C:calendar/>"), "/dav", &none), None);
    // An excluded calendar.
    let skip = vec!["contacts".to_owned(), "work".to_owned()];
    assert_eq!(calendar_link(&response("D", "/dav/work/", "<C:calendar/>"), "/dav", &skip), None);
    assert!(calendar_link(&response("D", "/dav/works/", "<C:calendar/>"), "/dav", &skip).is_some());
    // No link.
    assert_eq!(calendar_link("<D:response><C:calendar/></D:response>", "/dav", &none), None);
    assert_eq!(calendar_link("<D:href>/x :calendar/>", "/dav", &none), None);
}

#[test]
fn addresses_of_calendars() {
    let account = "https://example.org/dav/ann/";
    let xml = format!(
        "{}{}{}{}{}",
        response("D", "/dav/ann/", "<C:calendar/>"),
        response("D", "/dav/ann/work/", "<D:collection/><C:calendar/>"),
        response("D", "home", "<C:calendar/>"),
        response("D", "/dav/ann/contacts/", "<C:calendar/>"),
        response("D", "http://other.example/cal", "<C:calendar/>"),
    );
    let urls = calendar_urls(&xml, account, &vec!["contacts".to_owned()]).unwrap();
    assert_eq!(
        urls,
        vec![
            "https://example.org/dav/ann/work/".to_owned(),
            "https://example.org/dav/ann/home".to_owned(),
            "http://other.example/cal".to_owned(),
        ]
    );
}

#[test]
fn the_account_is_known_by_its_path() {
    // The port and the query of the address do not matter.
    let xml = response("D", "/dav/ann", "<C:calendar/>");
    let urls = calendar_urls(&xml, "https://example.org:8443/dav/ann//?a=b", &Vec::new()).unwrap();
    assert!(urls.is_empty());
}

#[test]
fn an_address_that_is_none() {
    let xml = response("D", "/work/", "<C:calendar/>");
    match calendar_urls(&xml, "not an address", &Vec::new()) {
        Err(DiscoveryError::InvalidUrl(e)) => assert_eq!(e, "relative URL without a base"),
        Ok(_) => panic!("no address was expected"),
    }
    match calendar_urls(&response("D", "//[", "<C:calendar/>"), "https://example.org/", &Vec::new()) {
        Err(DiscoveryError::InvalidUrl(e)) => assert_eq!(e, "invalid IPv6 address"),
        Ok(_) => panic!("no address was expected"),
    }
    // Nobody asks where no link is followed, or where the link is an address by itself.
    assert!(calendar_urls("", "not an address", &Vec::new()).unwrap().is_empty());
    let absolute = response("D", "https://example.org/x", "<C:calendar/>");
    assert_eq!(
        calendar_urls(&absolute, "not an address", &Vec::new()).unwrap(),
        vec!["https://example.org/x".to_owned()]
    );
}

#[test]
fn the_events_of_several_calendars() {
    let event = |s: &str| format!("BEGIN:VEVENT\nSUMMARY:{s}\nDTSTART:20240101\nEND:VEVENT\n");
    let events = parse_calendars(&[event("a") + &event("b"), String::new(), event("c")]).unwrap();
    let names: Vec<&str> = events.iter().map(|e| e.summary.as_str()).collect();
    assert_eq!(names, vec!["a", "b", "c"]);
    let broken = "BEGIN:VEVENT\nEXDATE:1234567é\nEND:VEVENT\n".to_owned();
    assert!(parse_calendars(&[event("a"), broken]).is_none());
}

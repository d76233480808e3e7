use quick_xml::events::Event;
use quick_xml::ns::{NamespaceResolver, NsReader, ResolveResult};
use quick_xml::reader::Config;

fn bound(uri: &str) -> ResolveResult<'_> {
    ResolveResult::Bound(uri.as_bytes())
}

fn unknown(prefix: &str) -> ResolveResult<'static> {
    ResolveResult::Unknown(prefix.as_bytes().to_vec())
}

#[test]
fn reserved_prefixes_are_always_bound() {
    let ns = NamespaceResolver::new();
    assert_eq!(ns.resolve(b"xml:lang", false), bound("http://www.w3.org/XML/1998/namespace"));
    assert_eq!(ns.resolve(b"xml:lang", true), bound("http://www.w3.org/XML/1998/namespace"));
    assert_eq!(ns.resolve(b"xmlns:a", false), bound("http://www.w3.org/2000/xmlns/"));
    assert_eq!(ns.resolve(b"a", true), ResolveResult::Unbound);
    assert_eq!(ns.resolve(b"p:a", true), unknown("p"));
    assert_eq!(ns.level(), 0);
}

#[test]
fn reserved_prefixes_cannot_be_rebound() {
    let mut ns = NamespaceResolver::new();
    ns.push(b" xmlns:xml='other' xmlns:xmlns='other'");
    assert_eq!(ns.resolve(b"xml:lang", false), bound("http://www.w3.org/XML/1998/namespace"));
    assert_eq!(ns.resolve(b"xmlns:a", false), bound("http://www.w3.org/2000/xmlns/"));
}

#[test]
fn declarations_come_into_scope_and_go_out_of_it() {
    let mut ns = NamespaceResolver::new();
    ns.push(b" xmlns='d1' xmlns:p='u1' other='x'");
    assert_eq!(ns.level(), 1);
    assert_eq!(ns.resolve(b"a", true), bound("d1"));
    assert_eq!(ns.resolve(b"a", false), ResolveResult::Unbound);
    assert_eq!(ns.resolve(b"p:a", true), bound("u1"));
    assert_eq!(ns.resolve(b"p:a", false), bound("u1"));
    assert_eq!(ns.resolve(b"q:a", true), unknown("q"));

    ns.push(b" xmlns:p='u2' xmlns:q='u3'");
    assert_eq!(ns.level(), 2);
    assert_eq!(ns.resolve(b"a", true), bound("d1"));
    assert_eq!(ns.resolve(b"p:a", true), bound("u2"));
    assert_eq!(ns.resolve(b"q:a", true), bound("u3"));

    ns.push(b"");
    ns.push(b" xmlns='' xmlns:p=''");
    assert_eq!(ns.level(), 4);
    assert_eq!(ns.resolve(b"a", true), ResolveResult::Unbound);
    assert_eq!(ns.resolve(b"p:a", true), unknown("p"));
    assert_eq!(ns.resolve(b"q:a", true), bound("u3"));

    ns.pop();
    ns.pop();
    assert_eq!(ns.level(), 2);
    assert_eq!(ns.resolve(b"p:a", true), bound("u2"));
    ns.pop();
    assert_eq!(ns.resolve(b"p:a", true), bound("u1"));
    assert_eq!(ns.resolve(b"q:a", true), unknown("q"));
    ns.pop();
    assert_eq!(ns.level(), 0);
    assert_eq!(ns.resolve(b"a", true), ResolveResult::Unbound);
    assert_eq!(ns.resolve(b"p:a", true), unknown("p"));
    ns.pop();
    assert_eq!(ns.level(), 0);
}

#[test]
fn later_declaration_of_an_element_wins() {
    let mut ns = NamespaceResolver::new();
    ns.push(b" xmlns:p='first' xmlns:p='second'");
    assert_eq!(ns.resolve(b"p:a", true), bound("second"));
}

#[test]
fn declarations_after_a_malformed_attribute_are_not_seen() {
    let mut ns = NamespaceResolver::new();
    ns.push(b" xmlns:p='u' broken xmlns:q='v'");
    assert_eq!(ns.resolve(b"p:a", true), bound("u"));
    assert_eq!(ns.resolve(b"q:a", true), unknown("q"));
}

#[test]
fn reader_resolves_names_of_elements() {
    let doc = "<a xmlns='d' xmlns:p='u'><p:b/><c xmlns=''>t</c><q:e/></a>";
    let mut r = NsReader::new(doc.as_bytes(), Config::default());
    let mut seen = Vec::new();
    loop {
        let before = r.depth();
        let (resolved, event) = r.read_resolved_event().unwrap();
        let kind = match &event {
            Event::Start(e) => format!("<{}", std::str::from_utf8(e.name()).unwrap()),
            Event::End(e) => format!("</{}", std::str::from_utf8(e.name()).unwrap()),
            Event::Text(_) => String::from("text"),
            Event::Eof => String::from("eof"),
            other => panic!("unexpected {:?}", other),
        };
        seen.push((kind, resolved, before, r.depth()));
        if event.is_eof() {
            break;
        }
    }
    let expected = vec![
        (String::from("<a"), bound("d"), 0, 1),
        (String::from("<p:b"), bound("u"), 1, 2),
        (String::from("</p:b"), bound("u"), 2, 1),
        (String::from("<c"), ResolveResult::Unbound, 1, 2),
        (String::from("text"), ResolveResult::Unbound, 2, 2),
        (String::from("</c"), ResolveResult::Unbound, 2, 1),
        (String::from("<q:e"), unknown("q"), 1, 2),
        (String::from("</q:e"), unknown("q"), 2, 1),
        (String::from("</a"), bound("d"), 1, 0),
        (String::from("eof"), ResolveResult::Unbound, 0, 0),
    ];
    assert_eq!(seen, expected);
}

#[test]
fn reader_resolves_attributes_in_the_scope_of_their_element() {
    let mut r = NsReader::new(b"<a xmlns='d' xmlns:p='u' p:x='1' y='2'><b/></a>", Config::default());
    let (_, event) = r.read_resolved_event().unwrap();
    match event {
        Event::Start(e) => {
            let all = e.attributes(true).collect().unwrap();
            assert_eq!(r.resolve_attribute(all[2].key), bound("u"));
            assert_eq!(r.resolve_attribute(all[3].key), ResolveResult::Unbound);
            assert_eq!(r.resolve_element(b"y"), bound("d"));
        }
        other => panic!("unexpected {:?}", other),
    }
}

#[test]
fn reader_leaves_the_scope_as_it_was_on_an_error() {
    let mut r = NsReader::new(b"<a xmlns:p='u'></b>", Config::default());
    r.read_resolved_event().unwrap();
    assert!(r.read_resolved_event().is_err());
    assert_eq!(r.depth(), 1);
    assert_eq!(r.resolve_element(b"p:x"), bound("u"));
}

use quick_xml::events::{BytesCData, BytesDecl, BytesEnd, BytesStart, BytesText, Event};
use quick_xml::writer::{Indentation, Writer};

fn written(event: Event) -> String {
    let mut writer = Writer::new(Vec::new());
    assert!(writer.accepts(&event));
    writer.write_event(&event);
    String::from_utf8(writer.into_inner()).unwrap()
}

#[test]
fn xml_header() {
    assert_eq!(
        written(Event::Decl(BytesDecl::new(b"1.0", Some(b"UTF-8"), Some(b"no")))),
        r#"<?xml version="1.0" encoding="UTF-8" standalone="no"?>"#
    );
}

#[test]
fn xml_header_without_optional_parts() {
    assert_eq!(
        written(Event::Decl(BytesDecl::new(b"1.1", None, None))),
        r#"<?xml version="1.1"?>"#
    );
    assert_eq!(
        written(Event::Decl(BytesDecl::new(b"1.0", None, Some(b"yes")))),
        r#"<?xml version="1.0" standalone="yes"?>"#
    );
    assert_eq!(
        written(Event::Decl(BytesDecl::new(b"1.0", Some(b"utf-16"), None))),
        r#"<?xml version="1.0" encoding="utf-16"?>"#
    );
}

#[test]
fn empty_tag() {
    assert_eq!(written(Event::Empty(BytesStart::new(b"tag"))), r#"<tag/>"#);
}

#[test]
fn write_comment() {
    assert_eq!(
        written(Event::Comment(BytesText::new(b"this is a comment"))),
        r#"<!--this is a comment-->"#
    );
}

#[test]
fn write_cdata() {
    assert_eq!(
        written(Event::CData(BytesCData::new(b"this is a cdata"))),
        r#"<![CDATA[this is a cdata]]>"#
    );
}

#[test]
fn write_pi() {
    assert_eq!(
        written(Event::PI(BytesText::new(b"this is a processing instruction"))),
        r#"<?this is a processing instruction?>"#
    );
}

#[test]
fn write_doctype() {
    assert_eq!(
        written(Event::DocType(BytesText::new(b"this is a doctype"))),
        r#"<!DOCTYPE this is a doctype>"#
    );
}

#[test]
fn write_eof_writes_nothing() {
    assert_eq!(written(Event::Eof), "");
}

#[test]
fn write_start_with_attributes() {
    assert_eq!(
        written(Event::Start(BytesStart::from_content(b"a href=\"x\"", 1))),
        r#"<a href="x">"#
    );
    assert_eq!(written(Event::End(BytesEnd::new(b"a"))), "</a>");
}

#[test]
fn full_tag() {
    let mut writer = Writer::new(Vec::new());

    let start = Event::Start(BytesStart::new(b"tag"));
    let text = Event::Text(BytesText::new(b"inner text"));
    let end = Event::End(BytesEnd::new(b"tag"));
    for i in [start, text, end] {
        assert!(writer.accepts(&i));
        writer.write_event(&i);
    }

    assert_eq!(
        std::str::from_utf8(writer.get_ref()).unwrap(),
        r#"<tag>inner text</tag>"#
    );
}

#[test]
fn text_is_escaped_when_built_from_raw_content() {
    assert_eq!(
        written(Event::Text(BytesText::new(b"a < b && c > \"d\" 'e'"))),
        "a &lt; b &amp;&amp; c &gt; &quot;d&quot; &apos;e&apos;"
    );
    assert_eq!(written(Event::Text(BytesText::from_escaped(b"a &lt; b"))), "a &lt; b");
}

#[test]
fn writer_appends_to_what_it_was_given() {
    let mut writer = Writer::new(b"<!-- head -->".to_vec());
    writer.write_event(&Event::Empty(BytesStart::new(b"a")));
    assert_eq!(writer.into_inner(), b"<!-- head --><a/>".to_vec());
}

#[test]
fn take_output_drains_the_buffer_and_keeps_the_indentation() {
    let mut writer = Writer::new_with_indent(Vec::new(), b' ', 2);
    writer.write_event(&Event::Start(BytesStart::new(b"a")));
    assert_eq!(writer.take_output(), b"<a>".to_vec());
    assert_eq!(writer.get_ref(), b"");
    writer.write_event(&Event::Empty(BytesStart::new(b"b")));
    assert_eq!(writer.take_output(), b"\n  <b/>".to_vec());
}

#[test]
fn indentation_puts_markup_on_lines_of_its_own() {
    let mut writer = Writer::new_with_indent(Vec::new(), b' ', 4);
    let events = [
        Event::Decl(BytesDecl::new(b"1.0", None, None)),
        Event::Start(BytesStart::new(b"root")),
        Event::Start(BytesStart::new(b"a")),
        Event::Empty(BytesStart::new(b"b")),
        Event::Comment(BytesText::from_escaped(b"c")),
        Event::End(BytesEnd::new(b"a")),
        Event::End(BytesEnd::new(b"root")),
        Event::Eof,
    ];
    for e in events.iter() {
        assert!(writer.accepts(e));
        writer.write_event(e);
    }
    assert_eq!(
        std::str::from_utf8(writer.get_ref()).unwrap(),
        "<?xml version=\"1.0\"?>\n<root>\n    <a>\n        <b/>\n        <!--c-->\n    </a>\n</root>"
    );
}

#[test]
fn indentation_keeps_text_on_the_line_of_its_tags() {
    let mut writer = Writer::new_with_indent(Vec::new(), b'\t', 1);
    let events = [
        Event::Start(BytesStart::new(b"p")),
        Event::Start(BytesStart::new(b"q")),
        Event::Text(BytesText::from_escaped(b"text")),
        Event::End(BytesEnd::new(b"q")),
        Event::Start(BytesStart::new(b"r")),
        Event::CData(BytesCData::new(b"raw")),
        Event::End(BytesEnd::new(b"r")),
        Event::End(BytesEnd::new(b"p")),
    ];
    for e in events.iter() {
        writer.write_event(e);
    }
    assert_eq!(
        std::str::from_utf8(writer.get_ref()).unwrap(),
        "<p>\n\t<q>text</q>\n\t<r><![CDATA[raw]]></r>\n</p>"
    );
}

#[test]
fn indentation_state_follows_the_events() {
    let mut writer = Writer::new_with_indent(Vec::new(), b' ', 2);
    assert_eq!(
        writer.indentation(),
        Some(Indentation { should_line_break: false, indent_char: b' ', indent_size: 2, depth: 0 })
    );
    writer.write_event(&Event::Start(BytesStart::new(b"a")));
    assert_eq!(writer.indentation().unwrap().depth, 1);
    assert!(writer.indentation().unwrap().should_line_break);
    writer.write_event(&Event::Text(BytesText::from_escaped(b"t")));
    assert_eq!(writer.indentation().unwrap().depth, 1);
    assert!(!writer.indentation().unwrap().should_line_break);
    writer.write_event(&Event::End(BytesEnd::new(b"a")));
    assert_eq!(writer.indentation().unwrap().depth, 0);
    writer.write_event(&Event::End(BytesEnd::new(b"a")));
    assert_eq!(writer.indentation().unwrap().depth, 0);
    assert_eq!(Writer::new(Vec::new()).indentation(), None);
}

#[test]
fn opening_tag_is_refused_at_the_greatest_depth() {
    let mut deep = Indentation::new(b' ', 0);
    deep.depth = usize::MAX;
    let mut out = Vec::new();
    deep.write_current(&mut out);
    assert!(out.is_empty());
    deep.shrink();
    assert_eq!(deep.depth, usize::MAX - 1);
    deep.grow();
    assert_eq!(deep.depth, usize::MAX);
}

#[test]
fn write_indent_writes_a_line_feed_and_the_current_indentation() {
    let mut writer = Writer::new_with_indent(Vec::new(), b'.', 3);
    writer.write_indent();
    assert_eq!(writer.get_ref(), b"\n");
    writer.write_event(&Event::Start(BytesStart::new(b"a")));
    writer.write_event(&Event::Start(BytesStart::new(b"b")));
    writer.write_indent();
    assert_eq!(writer.get_ref(), b"\n<a>\n...<b>\n......");

    let mut plain = Writer::new(Vec::new());
    plain.write_indent();
    assert_eq!(plain.get_ref(), b"");
}

#[test]
fn write_events_writes_them_all_in_order() {
    let events = vec![
        Event::Start(BytesStart::new(b"a")),
        Event::Text(BytesText::new(b"1 < 2")),
        Event::Empty(BytesStart::new(b"b")),
        Event::End(BytesEnd::new(b"a")),
        Event::Eof,
    ];
    let mut writer = Writer::new(Vec::new());
    assert_eq!(writer.write_events(&events), 5);
    assert_eq!(writer.get_ref(), b"<a>1 &lt; 2<b/></a>");

    let mut writer = Writer::new_with_indent(Vec::new(), b' ', 1);
    assert_eq!(writer.write_events(&events), 5);
    assert_eq!(writer.get_ref(), b"<a>1 &lt; 2<b/>\n</a>");
    assert_eq!(writer.write_events(&[]), 0);
}

#[test]
fn write_events_stops_before_an_event_that_cannot_be_written() {
    let mut writer = Writer::new_with_indent(Vec::new(), b' ', 0);
    writer.write_event(&Event::Start(BytesStart::new(b"a")));
    let taken = writer.take_output();
    assert_eq!(taken, b"<a>".to_vec());
    let events = vec![Event::Empty(BytesStart::new(b"b")), Event::Start(BytesStart::new(b"c"))];
    assert_eq!(writer.write_events(&events), 2);
    assert_eq!(writer.indentation().unwrap().depth, 2);
}

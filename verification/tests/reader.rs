use quick_xml::document::read_document;
use quick_xml::errors::{Error, SyntaxKind};
use quick_xml::events::{BytesCData, BytesDecl, BytesEnd, BytesStart, BytesText, Event};
use quick_xml::reader::{Config, Reader};
use quick_xml::writer::Writer;

fn config() -> Config {
    Config::default()
}

fn events(input: &str) -> Vec<Event<'_>> {
    read_document(input.as_bytes(), config()).unwrap()
}

fn start(content: &str, name_len: usize) -> Event<'_> {
    Event::Start(BytesStart::from_content(content.as_bytes(), name_len))
}

fn empty(content: &str, name_len: usize) -> Event<'_> {
    Event::Empty(BytesStart::from_content(content.as_bytes(), name_len))
}

fn end(name: &str) -> Event<'_> {
    Event::End(BytesEnd::new(name.as_bytes()))
}

fn text(content: &str) -> Event<'_> {
    Event::Text(BytesText::from_escaped(content.as_bytes()))
}

fn syntax<T>(kind: SyntaxKind, offset: usize) -> Result<T, Error> {
    Err(Error::Syntax { kind, offset })
}

#[test]
fn default_config_checks_end_names_only() {
    let c = Config::default();
    assert!(c.check_end_names);
    assert!(!c.expand_empty_elements);
    assert!(!c.trim_text_start);
    assert!(!c.trim_text_end);
    assert!(!c.check_comments);
}

#[test]
fn empty_input_is_the_end_at_once() {
    assert_eq!(events(""), vec![Event::Eof]);
    let mut r = Reader::from_bytes(b"");
    assert!(!r.is_done());
    assert_eq!(r.read_event(), Ok(Event::Eof));
    assert!(r.is_done());
    assert_eq!(r.read_event(), Ok(Event::Eof));
    assert_eq!(r.buffer_position(), 0);
}

#[test]
fn reads_tags_and_text() {
    assert_eq!(
        events("<root><float>42</float><string>answer</string></root>"),
        vec![
            start("root", 4),
            start("float", 5),
            text("42"),
            end("float"),
            start("string", 6),
            text("answer"),
            end("string"),
            end("root"),
            Event::Eof,
        ]
    );
}

#[test]
fn reads_attributes_as_the_raw_rest_of_the_tag() {
    let all = events("<root float=\"42\" string=\"answer\"/>");
    assert_eq!(all, vec![empty("root float=\"42\" string=\"answer\"", 4), Event::Eof]);
    match &all[0] {
        Event::Empty(e) => {
            assert_eq!(e.name(), b"root");
            assert_eq!(e.attributes_raw(), b" float=\"42\" string=\"answer\"");
            assert_eq!(e.as_bytes(), b"root float=\"42\" string=\"answer\"");
        }
        other => panic!("unexpected {:?}", other),
    }
}

#[test]
fn name_ends_at_the_first_whitespace_of_any_kind() {
    for sep in ["\t", "\n", "\r", " "] {
        let doc = format!("<a{}b='1'>", sep);
        let mut r = Reader::from_bytes(doc.as_bytes());
        match r.read_event().unwrap() {
            Event::Start(e) => {
                assert_eq!(e.name(), b"a");
                assert_eq!(e.attributes_raw(), format!("{}b='1'", sep).as_bytes());
            }
            other => panic!("unexpected {:?}", other),
        }
    }
}

#[test]
fn greater_than_inside_quotes_does_not_close_a_tag() {
    assert_eq!(
        events("<a b=\"x>y\" c='>'>t</a>"),
        vec![start("a b=\"x>y\" c='>'", 1), text("t"), end("a"), Event::Eof]
    );
    assert_eq!(
        events("<a b=\"it's\" c='say \"hi\">'/>"),
        vec![empty("a b=\"it's\" c='say \"hi\">'", 1), Event::Eof]
    );
    assert_eq!(
        read_document(b"<a b=\"x>", config()),
        syntax(SyntaxKind::UnclosedTag, 0)
    );
}

#[test]
fn self_closing_is_decided_by_the_last_byte_that_is_no_whitespace() {
    assert_eq!(events("<a/>"), vec![empty("a", 1), Event::Eof]);
    assert_eq!(events("<a />"), vec![empty("a ", 1), Event::Eof]);
    assert_eq!(events("<a/ >"), vec![empty("a", 1), Event::Eof]);
    assert_eq!(events("<a b='1' / \t\n>"), vec![empty("a b='1' ", 1), Event::Eof]);
    assert_eq!(events("<a b='/'></a>"), vec![start("a b='/'", 1), end("a"), Event::Eof]);
    assert_eq!(events("<a/b></a/b>"), vec![start("a/b", 3), end("a/b"), Event::Eof]);
}

#[test]
fn empty_tag_name_is_read_as_it_stands() {
    assert_eq!(
        read_document(b"<></>", config()),
        Ok(vec![start("", 0), end(""), Event::Eof])
    );
}

#[test]
fn reads_comment_up_to_the_first_closing_sequence() {
    assert_eq!(
        events("<!--comment--><a/>"),
        vec![Event::Comment(BytesText::from_escaped(b"comment")), empty("a", 1), Event::Eof]
    );
    assert_eq!(
        events("<!-- a > b -- c --->"),
        vec![Event::Comment(BytesText::from_escaped(b" a > b -- c -")), Event::Eof]
    );
    assert_eq!(events("<!---->"), vec![Event::Comment(BytesText::from_escaped(b"")), Event::Eof]);
    assert_eq!(
        events("<!--a-->b-->"),
        vec![Event::Comment(BytesText::from_escaped(b"a")), text("b-->"), Event::Eof]
    );
}

#[test]
fn refuses_double_dash_in_comment_on_request() {
    let strict = Config { check_comments: true, ..config() };
    assert_eq!(
        read_document(b"<a/><!-- a -- b -->", strict),
        syntax(SyntaxKind::DoubleDashInComment, 11)
    );
    assert_eq!(
        read_document(b"<!--a-b-->", strict),
        Ok(vec![Event::Comment(BytesText::from_escaped(b"a-b")), Event::Eof])
    );
    assert_eq!(
        read_document(b"<!-- a -- b -->", config()),
        Ok(vec![Event::Comment(BytesText::from_escaped(b" a -- b ")), Event::Eof])
    );
}

#[test]
fn reads_cdata_up_to_the_exact_closing_sequence() {
    assert_eq!(
        events("<a><![CDATA[x > y ]] ]> & <b>]]></a>"),
        vec![
            start("a", 1),
            Event::CData(BytesCData::new(b"x > y ]] ]> & <b>")),
            end("a"),
            Event::Eof
        ]
    );
    assert_eq!(events("<![CDATA[]]>"), vec![Event::CData(BytesCData::new(b"")), Event::Eof]);
    assert_eq!(events("<![CDATA[]]]]>"), vec![Event::CData(BytesCData::new(b"]]")), Event::Eof]);
}

#[test]
fn reads_doctype_balanced_over_its_internal_subset() {
    assert_eq!(
        events("<!DOCTYPE html><a/>"),
        vec![Event::DocType(BytesText::from_escaped(b"html")), empty("a", 1), Event::Eof]
    );
    assert_eq!(
        events("<!DOCTYPE t [<!ENTITY e \"v\"> <!ELEMENT t [a>b]>]><t/>"),
        vec![
            Event::DocType(BytesText::from_escaped(
                b"t [<!ENTITY e \"v\"> <!ELEMENT t [a>b]>]"
            )),
            empty("t", 1),
            Event::Eof
        ]
    );
    assert_eq!(
        events("<!DOCTYPE t ]>"),
        vec![Event::DocType(BytesText::from_escaped(b"t ]")), Event::Eof]
    );
    assert_eq!(
        read_document(b"<!DOCTYPE t [ > ", config()),
        syntax(SyntaxKind::UnclosedDocType, 0)
    );
}

#[test]
fn reads_declaration_only_in_the_prolog() {
    let decl = "<?xml version=\"1.0\" encoding=\"UTF-8\"?>";
    let body: &[u8] = b"xml version=\"1.0\" encoding=\"UTF-8\"";
    assert_eq!(
        events("<?xml version=\"1.0\" encoding=\"UTF-8\"?><a/>"),
        vec![Event::Decl(BytesDecl::from_content(body)), empty("a", 1), Event::Eof]
    );
    assert_eq!(
        events(&format!("<!--c--><?pi?><!DOCTYPE a>{}", decl)),
        vec![
            Event::Comment(BytesText::from_escaped(b"c")),
            Event::PI(BytesText::from_escaped(b"pi")),
            Event::DocType(BytesText::from_escaped(b"a")),
            Event::Decl(BytesDecl::from_content(body)),
            Event::Eof
        ]
    );
    assert_eq!(
        events(&format!("{}{}", decl, decl)),
        vec![
            Event::Decl(BytesDecl::from_content(body)),
            Event::PI(BytesText::from_escaped(body)),
            Event::Eof
        ]
    );
    assert_eq!(
        events(&format!("<a/>{}", decl)),
        vec![empty("a", 1), Event::PI(BytesText::from_escaped(body)), Event::Eof]
    );
    assert_eq!(
        events(&format!(" {}", decl)),
        vec![text(" "), Event::PI(BytesText::from_escaped(body)), Event::Eof]
    );
    assert_eq!(
        events(&format!("<![CDATA[]]>{}", decl)),
        vec![
            Event::CData(BytesCData::new(b"")),
            Event::PI(BytesText::from_escaped(body)),
            Event::Eof
        ]
    );
}

#[test]
fn declaration_needs_the_target_xml_and_whitespace() {
    assert_eq!(events("<?xml?>"), vec![Event::PI(BytesText::from_escaped(b"xml")), Event::Eof]);
    assert_eq!(
        events("<?xml ?>"),
        vec![Event::Decl(BytesDecl::from_content(b"xml ")), Event::Eof]
    );
    assert_eq!(
        events("<?xml\tversion='1.0'?>"),
        vec![Event::Decl(BytesDecl::from_content(b"xml\tversion='1.0'")), Event::Eof]
    );
    assert_eq!(
        events("<?xmlx version='1.0'?>"),
        vec![Event::PI(BytesText::from_escaped(b"xmlx version='1.0'")), Event::Eof]
    );
    assert_eq!(
        events("<?XML version='1.0'?>"),
        vec![Event::PI(BytesText::from_escaped(b"XML version='1.0'")), Event::Eof]
    );
}

#[test]
fn reads_processing_instruction_up_to_the_first_closing_sequence() {
    assert_eq!(
        events("<?pi a > b ? c?>d"),
        vec![Event::PI(BytesText::from_escaped(b"pi a > b ? c")), text("d"), Event::Eof]
    );
    assert_eq!(events("<??>"), vec![Event::PI(BytesText::from_escaped(b"")), Event::Eof]);
    assert_eq!(read_document(b"<?>", config()), syntax(SyntaxKind::UnclosedPI, 0));
    assert_eq!(
        events("<?>?>"),
        vec![Event::PI(BytesText::from_escaped(b">")), Event::Eof]
    );
}

#[test]
fn text_is_reported_raw() {
    assert_eq!(
        events("<a> x &lt; y &unknown; > z\n</a>"),
        vec![start("a", 1), text(" x &lt; y &unknown; > z\n"), end("a"), Event::Eof]
    );
    assert_eq!(events("only text"), vec![text("only text"), Event::Eof]);
    assert_eq!(events(" \t\r\n"), vec![text(" \t\r\n"), Event::Eof]);
    assert_eq!(events(">"), vec![text(">"), Event::Eof]);
}

#[test]
fn trims_text_by_policy() {
    let doc = b" \n<a> \t x y \r\n</a>  <b/> ";
    let both = Config { trim_text_start: true, trim_text_end: true, ..config() };
    assert_eq!(
        read_document(doc, both),
        Ok(vec![start("a", 1), text("x y"), end("a"), empty("b", 1), Event::Eof])
    );
    let at_start = Config { trim_text_start: true, ..config() };
    assert_eq!(
        read_document(doc, at_start),
        Ok(vec![start("a", 1), text("x y \r\n"), end("a"), empty("b", 1), Event::Eof])
    );
    let at_end = Config { trim_text_end: true, ..config() };
    assert_eq!(
        read_document(doc, at_end),
        Ok(vec![start("a", 1), text(" \t x y"), end("a"), empty("b", 1), Event::Eof])
    );
    assert_eq!(
        read_document(doc, config()),
        Ok(vec![
            text(" \n"),
            start("a", 1),
            text(" \t x y \r\n"),
            end("a"),
            text("  "),
            empty("b", 1),
            text(" "),
            Event::Eof
        ])
    );
}

#[test]
fn trimming_leaves_no_empty_text() {
    let both = Config { trim_text_start: true, trim_text_end: true, ..config() };
    assert_eq!(read_document(b"   ", both), Ok(vec![Event::Eof]));
    let at_end = Config { trim_text_end: true, ..config() };
    assert_eq!(read_document(b"   ", at_end), Ok(vec![Event::Eof]));
    assert_eq!(read_document(b"<a/>  ", at_end), Ok(vec![empty("a", 1), Event::Eof]));
    let mut r = Reader::with_config(b"  <a/>", at_end);
    assert_eq!(r.read_event(), Ok(empty("a", 1)));
    assert_eq!(r.buffer_position(), 6);
}

#[test]
fn expands_self_closing_tags_by_policy() {
    let expand = Config { expand_empty_elements: true, ..config() };
    assert_eq!(
        read_document(b"<a><b c='d' /></a>", expand),
        Ok(vec![start("a", 1), start("b c='d' ", 1), end("b"), end("a"), Event::Eof])
    );
    let mut r = Reader::with_config(b"<b/>", expand);
    assert_eq!(r.read_event(), Ok(start("b", 1)));
    assert_eq!(r.depth(), 1);
    assert_eq!(r.buffer_position(), 4);
    assert_eq!(r.read_event(), Ok(end("b")));
    assert_eq!(r.depth(), 0);
    assert_eq!(r.read_event(), Ok(Event::Eof));
}

#[test]
fn closing_tag_may_end_in_whitespace() {
    let all = events("<a></a \n>");
    assert_eq!(all, vec![start("a", 1), end("a \n"), Event::Eof]);
    match &all[1] {
        Event::End(e) => {
            assert_eq!(e.as_bytes(), b"a \n");
            assert_eq!(e.name(), b"a");
        }
        other => panic!("unexpected {:?}", other),
    }
    assert_eq!(
        read_document(b"<a></ a>", config()),
        Err(Error::EndEventMismatch { expected: b"a".to_vec(), found: b" a".to_vec() })
    );
}

#[test]
fn mismatched_end_tag_is_an_error() {
    assert_eq!(
        read_document(b"<root></mismatched>", config()),
        Err(Error::EndEventMismatch {
            expected: b"root".to_vec(),
            found: b"mismatched".to_vec()
        })
    );
    assert_eq!(
        read_document(b"<a><b></a></b>", config()),
        Err(Error::EndEventMismatch { expected: b"b".to_vec(), found: b"a".to_vec() })
    );
    assert_eq!(
        read_document(b"</a>", config()),
        Err(Error::EndEventMismatch { expected: Vec::new(), found: b"a".to_vec() })
    );
    assert_eq!(
        read_document(b"<a/></a>", config()),
        Err(Error::EndEventMismatch { expected: Vec::new(), found: b"a".to_vec() })
    );
    assert_eq!(
        read_document(b"</>", config()),
        Err(Error::EndEventMismatch { expected: Vec::new(), found: Vec::new() })
    );
}

#[test]
fn error_leaves_the_reader_where_it_was() {
    let mut r = Reader::from_bytes(b"<root>x</mismatched><!-- open");
    assert_eq!(r.read_event(), Ok(start("root", 4)));
    assert_eq!(r.read_event(), Ok(text("x")));
    let at = r.buffer_position();
    let mismatch =
        Err(Error::EndEventMismatch { expected: b"root".to_vec(), found: b"mismatched".to_vec() });
    assert_eq!(r.read_event(), mismatch);
    assert_eq!(r.read_event(), mismatch);
    assert_eq!(r.buffer_position(), at);
    assert_eq!(r.depth(), 1);

    r.set_config(Config { check_end_names: false, ..r.get_config() });
    assert_eq!(r.read_event(), Ok(end("mismatched")));
    assert_eq!(r.depth(), 0);
    assert_eq!(r.read_event(), syntax(SyntaxKind::UnclosedComment, 20));
    assert_eq!(r.read_event(), syntax(SyntaxKind::UnclosedComment, 20));
    assert_eq!(r.buffer_position(), 20);
    assert!(!r.is_done());
}

#[test]
fn end_names_are_not_compared_when_unchecked() {
    let lax = Config { check_end_names: false, ..config() };
    assert_eq!(
        read_document(b"<a><b></a></b>", lax),
        Ok(vec![start("a", 1), start("b", 1), end("a"), end("b"), Event::Eof])
    );
    assert_eq!(read_document(b"</a></b>", lax), Ok(vec![end("a"), end("b"), Event::Eof]));
    assert_eq!(read_document(b"<a></b><c>", lax), Err(Error::UnexpectedEof));
}

#[test]
fn document_that_ends_inside_an_element_is_an_unexpected_end() {
    assert_eq!(read_document(b"<root>", config()), Err(Error::UnexpectedEof));
    assert_eq!(read_document(b"<a><b></b>text", config()), Err(Error::UnexpectedEof));
    let mut r = Reader::from_bytes(b"<a><b></b>");
    assert_eq!(r.read_to_end(), Err(Error::UnexpectedEof));
    assert_eq!(r.depth(), 1);
    assert!(r.is_done());
}

#[test]
fn depth_follows_opening_and_closing_tags() {
    let mut r = Reader::from_bytes(b"<a><b/><c>t</c><!--x--></a>");
    let mut depths = Vec::new();
    loop {
        let e = r.read_event().unwrap();
        depths.push(r.depth());
        if e.is_eof() {
            break;
        }
    }
    assert_eq!(depths, vec![1, 1, 2, 2, 1, 1, 0, 0]);
}

#[test]
fn unclosed_tokens_are_syntax_errors_at_their_start() {
    assert_eq!(read_document(b"ab<", config()), syntax(SyntaxKind::UnclosedTag, 2));
    assert_eq!(read_document(b"ab<a", config()), syntax(SyntaxKind::UnclosedTag, 2));
    assert_eq!(read_document(b"<a></a", config()), syntax(SyntaxKind::UnclosedTag, 3));
    assert_eq!(read_document(b"<a/", config()), syntax(SyntaxKind::UnclosedTag, 0));
    assert_eq!(read_document(b"x<!--c--", config()), syntax(SyntaxKind::UnclosedComment, 1));
    assert_eq!(read_document(b"<!--->", config()), syntax(SyntaxKind::UnclosedComment, 0));
    assert_eq!(read_document(b"<![CDATA[c]]", config()), syntax(SyntaxKind::UnclosedCData, 0));
    assert_eq!(read_document(b"<a/><?pi ?", config()), syntax(SyntaxKind::UnclosedPI, 4));
    assert_eq!(read_document(b"<!DOCTYPE a", config()), syntax(SyntaxKind::UnclosedDocType, 0));
}

#[test]
fn unknown_markup_after_bang_is_a_syntax_error() {
    assert_eq!(read_document(b"<!>", config()), syntax(SyntaxKind::InvalidBang, 0));
    assert_eq!(read_document(b"<!-x-->", config()), syntax(SyntaxKind::InvalidBang, 0));
    assert_eq!(read_document(b"<![cdata[x]]>", config()), syntax(SyntaxKind::InvalidBang, 0));
    assert_eq!(read_document(b"<a/><!ELEMENT a>", config()), syntax(SyntaxKind::InvalidBang, 4));
    assert_eq!(read_document(b"<!DOCTYPE>", config()), syntax(SyntaxKind::InvalidBang, 0));
    assert_eq!(read_document(b"<!doctype a>", config()), syntax(SyntaxKind::InvalidBang, 0));
    assert_eq!(read_document(b"<!DOCTYPE\ta>", config()), syntax(SyntaxKind::InvalidBang, 0));
    assert_eq!(read_document(b"<!", config()), syntax(SyntaxKind::InvalidBang, 0));
}

#[test]
fn events_borrow_from_the_input() {
    let doc = String::from("<a b='c'>t<!--c--><![CDATA[d]]></a>");
    let all = read_document(doc.as_bytes(), config()).unwrap();
    let base = doc.as_ptr() as usize;
    let inside = |s: &[u8]| {
        let at = s.as_ptr() as usize;
        base <= at && at + s.len() <= base + doc.len()
    };
    for e in all.iter() {
        match e {
            Event::Start(e) | Event::Empty(e) => assert!(inside(e.as_bytes())),
            Event::End(e) => assert!(inside(e.as_bytes())),
            Event::Text(e) | Event::Comment(e) | Event::PI(e) | Event::DocType(e) => {
                assert!(inside(e.as_bytes()))
            }
            Event::CData(e) => assert!(inside(e.as_bytes())),
            Event::Decl(e) => assert!(inside(e.as_bytes())),
            Event::Eof => {}
        }
    }
    let owned: Vec<Event<'static>> = all.into_iter().map(|e| e.into_owned()).collect();
    drop(doc);
    assert_eq!(owned[0], start("a b='c'", 1));
}

fn rewritten(input: &str) -> String {
    let mut writer = Writer::new(Vec::new());
    for e in events(input).iter() {
        assert!(writer.accepts(e));
        writer.write_event(e);
    }
    String::from_utf8(writer.into_inner()).unwrap()
}

#[test]
fn writing_what_was_read_gives_the_document_back() {
    let docs = [
        "",
        "<root><float>42</float><string>answer</string></root>",
        "<?xml version=\"1.0\" encoding=\"UTF-8\" standalone=\"no\"?>\n<!DOCTYPE r [<!ENTITY e \"v\">]>\n<r a=\"1\" b='2'>\n  <!-- c -->\n  <e/>\n  <f />\n  t &amp; u\n  <![CDATA[ <raw> ]]>\n  <?pi data?>\n</r >\n",
        "<a b=\">\"></a>",
        "<?xml version='1.0'?><?xml version='1.0'?><a/>",
        "text before<a>in</a>text after",
    ];
    for doc in docs.iter() {
        assert_eq!(rewritten(doc), *doc);
    }
}

#[test]
fn writing_what_was_read_drops_whitespace_after_the_slash_of_a_self_closing_tag() {
    assert_eq!(rewritten("<a/ >"), "<a/>");
    assert_eq!(rewritten("<a b='c' / \n><d/>"), "<a b='c' /><d/>");
}

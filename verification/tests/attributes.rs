use quick_xml::attributes::{parse_attributes, Attribute, Attributes};
use quick_xml::errors::{Error, SyntaxKind};
use quick_xml::escape::NoEntities;
use quick_xml::events::{BytesDecl, BytesEnd, BytesStart};
use quick_xml::name::{local_name, prefix};

fn attr<'a>(key: &'a str, value: &'a str) -> Attribute<'a> {
    Attribute { key: key.as_bytes(), value: value.as_bytes() }
}

fn syntax<T>(kind: SyntaxKind, offset: usize) -> Result<T, Error> {
    Err(Error::Syntax { kind, offset })
}

#[test]
fn parses_attributes_in_either_quote_style() {
    assert_eq!(
        parse_attributes(b" float=\"42\" string='answer'", true),
        Ok(vec![attr("float", "42"), attr("string", "answer")])
    );
    assert_eq!(
        parse_attributes(b"a=\"it's\" b='say \"hi\"'", true),
        Ok(vec![attr("a", "it's"), attr("b", "say \"hi\"")])
    );
    assert_eq!(parse_attributes(b"a=''b=\"\"", true), Ok(vec![attr("a", ""), attr("b", "")]));
}

#[test]
fn no_attributes() {
    assert_eq!(parse_attributes(b"", true), Ok(vec![]));
    assert_eq!(parse_attributes(b" \t\r\n", true), Ok(vec![]));
}

#[test]
fn whitespace_may_surround_names_and_values() {
    assert_eq!(
        parse_attributes(b"\n a \t=\r\n 'x' \t b='y'\n", true),
        Ok(vec![attr("a", "x"), attr("b", "y")])
    );
}

#[test]
fn values_stay_escaped() {
    let all = parse_attributes(b"a='x &amp; y' b='&#65;' c='&nbsp;'", true).unwrap();
    assert_eq!(all, vec![attr("a", "x &amp; y"), attr("b", "&#65;"), attr("c", "&nbsp;")]);
    assert_eq!(all[0].unescape_value_with(&NoEntities).unwrap().as_slice(), b"x & y");
    assert_eq!(all[1].unescape_value_with(&NoEntities).unwrap().as_slice(), b"A");
    assert_eq!(
        all[2].unescape_value_with(&NoEntities),
        Err(Error::UnknownEntity { name: b"nbsp".to_vec() })
    );
    let plain = attr("k", "v");
    assert!(plain.unescape_value_with(&NoEntities).unwrap().is_borrowed());
}

#[test]
fn name_without_equals_sign_is_an_error() {
    assert_eq!(parse_attributes(b"a", true), syntax(SyntaxKind::ExpectedEq, 1));
    assert_eq!(parse_attributes(b"a  ", true), syntax(SyntaxKind::ExpectedEq, 3));
    assert_eq!(parse_attributes(b"a b='1'", true), syntax(SyntaxKind::ExpectedEq, 2));
    assert_eq!(parse_attributes(b"a='1' b", true), syntax(SyntaxKind::ExpectedEq, 7));
    assert_eq!(parse_attributes(b"'1'", true), syntax(SyntaxKind::ExpectedEq, 3));
}

#[test]
fn equals_sign_without_value_is_an_error() {
    assert_eq!(parse_attributes(b"a=", true), syntax(SyntaxKind::ExpectedValue, 2));
    assert_eq!(parse_attributes(b"a=  \n", true), syntax(SyntaxKind::ExpectedValue, 5));
}

#[test]
fn unquoted_value_is_an_error() {
    assert_eq!(parse_attributes(b"a=1", true), syntax(SyntaxKind::UnquotedValue, 2));
    assert_eq!(parse_attributes(b"a='1' b = two", true), syntax(SyntaxKind::UnquotedValue, 10));
    assert_eq!(parse_attributes(b"a==", true), syntax(SyntaxKind::UnquotedValue, 2));
}

#[test]
fn value_without_closing_quote_is_an_error() {
    assert_eq!(parse_attributes(b"a='1", true), syntax(SyntaxKind::ExpectedQuote, 2));
    assert_eq!(parse_attributes(b"a=\"1'", true), syntax(SyntaxKind::ExpectedQuote, 2));
    assert_eq!(parse_attributes(b"a='", true), syntax(SyntaxKind::ExpectedQuote, 2));
}

#[test]
fn empty_name_is_read_as_it_stands() {
    assert_eq!(parse_attributes(b"='1'", true), Ok(vec![attr("", "1")]));
}

#[test]
fn duplicate_names_are_refused_with_checks_only() {
    assert_eq!(
        parse_attributes(b"a='1' b='2' a='3'", true),
        syntax(SyntaxKind::DuplicatedAttribute, 12)
    );
    assert_eq!(
        parse_attributes(b"a='1' b='2' a='3'", false),
        Ok(vec![attr("a", "1"), attr("b", "2"), attr("a", "3")])
    );
    assert_eq!(
        parse_attributes(b"a='1' A='2' ns:a='3'", true),
        Ok(vec![attr("a", "1"), attr("A", "2"), attr("ns:a", "3")])
    );
}

#[test]
fn cursor_gives_one_attribute_at_a_time_and_an_error_once() {
    let mut cursor = Attributes::new(b"a='1' b=2 c='3'", true);
    assert_eq!(cursor.next_attribute(), Some(Ok(attr("a", "1"))));
    assert_eq!(cursor.next_attribute(), Some(syntax(SyntaxKind::UnquotedValue, 8)));
    assert_eq!(cursor.next_attribute(), None);
    assert_eq!(cursor.next_attribute(), None);

    let mut cursor = Attributes::new(b"a='1' b='2'", true);
    assert_eq!(cursor.next_attribute(), Some(Ok(attr("a", "1"))));
    assert_eq!(cursor.collect(), Ok(vec![attr("b", "2")]));
    assert_eq!(cursor.next_attribute(), None);
}

#[test]
fn attributes_of_a_tag() {
    let tag = BytesStart::from_content(b"root float=\"42\" string=\"answer\"", 4);
    assert_eq!(
        tag.attributes(true).collect(),
        Ok(vec![attr("float", "42"), attr("string", "answer")])
    );
    assert_eq!(BytesStart::new(b"root").attributes(true).collect(), Ok(vec![]));
    // a cursor starts over whenever it is asked for
    let mut first = tag.attributes(false);
    assert_eq!(first.next_attribute(), Some(Ok(attr("float", "42"))));
    let mut second = tag.attributes(false);
    assert_eq!(second.next_attribute(), Some(Ok(attr("float", "42"))));
}

#[test]
fn qualified_names_split_at_the_first_colon() {
    assert_eq!(prefix(b"ns:local"), Some(&b"ns"[..]));
    assert_eq!(local_name(b"ns:local"), b"local");
    assert_eq!(prefix(b"local"), None);
    assert_eq!(local_name(b"local"), b"local");
    assert_eq!(prefix(b"a:b:c"), Some(&b"a"[..]));
    assert_eq!(local_name(b"a:b:c"), b"b:c");
    assert_eq!(prefix(b":x"), Some(&b""[..]));
    assert_eq!(local_name(b":x"), b"x");
    assert_eq!(prefix(b"x:"), Some(&b"x"[..]));
    assert_eq!(local_name(b"x:"), b"");
    assert_eq!(prefix(b""), None);
    assert_eq!(local_name(b""), b"");
}

#[test]
fn names_of_tags() {
    let tag = BytesStart::from_content(b"ns:a b='c'", 4);
    assert_eq!(tag.name(), b"ns:a");
    assert_eq!(tag.local_name(), b"a");
    assert_eq!(tag.prefix(), Some(&b"ns"[..]));
    assert_eq!(tag.to_end().as_bytes(), b"ns:a");
    let end = BytesEnd::new(b"ns:a  ");
    assert_eq!(end.name(), b"ns:a");
    assert_eq!(end.local_name(), b"a");
    assert_eq!(end.prefix(), Some(&b"ns"[..]));
    let plain = BytesStart::new(b"a");
    assert_eq!(plain.prefix(), None);
    assert_eq!(plain.local_name(), b"a");
    // a name that is longer than the content is the whole content
    let clipped = BytesStart::from_content(b"abc", 10);
    assert_eq!(clipped.name(), b"abc");
    assert_eq!(clipped.attributes_raw(), b"");
}

#[test]
fn pushed_attributes_are_written_escaped_and_read_back() {
    let mut tag = BytesStart::new(b"a");
    tag.push_attribute(b"href", b"x?y=1&z=\"2\"");
    tag.push_attribute(b"title", b"<'>");
    assert_eq!(tag.name(), b"a");
    assert_eq!(
        tag.as_bytes(),
        &b"a href=\"x?y=1&amp;z=&quot;2&quot;\" title=\"&lt;&apos;&gt;\""[..]
    );
    let all = tag.attributes(true).collect().unwrap();
    assert_eq!(
        all,
        vec![attr("href", "x?y=1&amp;z=&quot;2&quot;"), attr("title", "&lt;&apos;&gt;")]
    );
    assert_eq!(all[0].unescape_value_with(&NoEntities).unwrap().as_slice(), b"x?y=1&z=\"2\"");
    assert_eq!(all[1].unescape_value_with(&NoEntities).unwrap().as_slice(), b"<'>");
}

#[test]
fn pushing_an_attribute_keeps_the_name_of_a_clipped_tag() {
    let mut tag = BytesStart::from_content(b"abc", 10);
    tag.push_attribute(b"k", b"v");
    assert_eq!(tag.name(), b"abc");
    assert_eq!(tag.attributes_raw(), b" k=\"v\"");
}

#[test]
fn pseudo_attributes_of_a_declaration() {
    let decl = BytesDecl::new(b"1.0", Some(b"UTF-8"), Some(b"no"));
    assert_eq!(decl.version(), Ok(Some(&b"1.0"[..])));
    assert_eq!(decl.encoding(), Ok(Some(&b"UTF-8"[..])));
    assert_eq!(decl.standalone(), Ok(Some(&b"no"[..])));
    assert_eq!(decl.pseudo_attribute(b"other"), Ok(None));

    let decl = BytesDecl::new(b"1.1", None, None);
    assert_eq!(decl.version(), Ok(Some(&b"1.1"[..])));
    assert_eq!(decl.encoding(), Ok(None));
    assert_eq!(decl.standalone(), Ok(None));

    let decl = BytesDecl::from_content(b"xml encoding='windows-1252' version = \"1.0\" broken");
    assert_eq!(decl.encoding(), Ok(Some(&b"windows-1252"[..])));
    assert_eq!(decl.version(), Ok(Some(&b"1.0"[..])));
    assert_eq!(decl.standalone(), syntax(SyntaxKind::ExpectedEq, 47));

    assert_eq!(BytesDecl::from_content(b"xm").version(), Ok(None));
    assert_eq!(BytesDecl::from_content(b"").version(), Ok(None));
}

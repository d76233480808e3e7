use quick_xml::attributes::parse_attributes;
use quick_xml::de::from_bytes;
use quick_xml::document::read_document;
use quick_xml::errors::Error;
use quick_xml::escape::{escape, escape_attribute, unescape};
use quick_xml::events::{BytesStart, Event};
use quick_xml::ns::NsReader;
use quick_xml::reader::{Config, Reader};
use quick_xml::shape::{Field, IntKind, Shape};
use quick_xml::writer::Writer;

/// A small generator of numbers that gives the same ones on every run.
struct Numbers(u64);

impl Numbers {
    fn next(&mut self) -> u64 {
        self.0 = self.0.wrapping_mul(6364136223846793005).wrapping_add(1442695040888963407);
        self.0 >> 33
    }

    fn below(&mut self, n: usize) -> usize {
        (self.next() % n as u64) as usize
    }

    fn text(&mut self, alphabet: &[u8], max_len: usize) -> Vec<u8> {
        let len = self.below(max_len + 1);
        (0..len).map(|_| alphabet[self.below(alphabet.len())]).collect()
    }
}

const MARKUP: &[u8] = b"<<<>>>//!!??--[[]]==\"\"''&&;; \n\tabxmlCDATADOCTYPE#0";

fn configs() -> Vec<Config> {
    let mut all = Vec::new();
    for bits in 0..32u8 {
        all.push(Config {
            expand_empty_elements: bits & 1 != 0,
            trim_text_start: bits & 2 != 0,
            trim_text_end: bits & 4 != 0,
            check_end_names: bits & 8 != 0,
            check_comments: bits & 16 != 0,
        });
    }
    all
}

fn write_all(events: &[Event]) -> Vec<u8> {
    let mut writer = Writer::new(Vec::new());
    assert_eq!(writer.write_events(events), events.len());
    writer.into_inner()
}

/// Whether some self-closing tag of the document has whitespace between its
/// `/` and its `>`.
fn has_loose_empty_tag(input: &[u8], events: &[Event]) -> bool {
    let written: usize = events.iter().map(|e| write_all(std::slice::from_ref(e)).len()).sum();
    written != input.len()
}

#[test]
fn decoding_undoes_escaping_of_any_text() {
    let mut numbers = Numbers(1);
    for _ in 0..20000 {
        let raw = numbers.text(b"<>&'\";#xa1 \xc3\xa9", 24);
        for minimal in [false, true] {
            let escaped = escape(&raw, minimal);
            assert_eq!(unescape(escaped.as_slice()).unwrap().as_slice(), &raw[..]);
            assert_eq!(
                escaped.is_borrowed(),
                !raw.iter().any(|b| *b == b'<'
                    || *b == b'&'
                    || (!minimal && (*b == b'>' || *b == b'\'' || *b == b'"')))
            );
            for quote in [b'"', b'\''] {
                let escaped = escape_attribute(&raw, minimal, quote);
                assert_eq!(unescape(escaped.as_slice()).unwrap().as_slice(), &raw[..]);
            }
        }
    }
}

#[test]
fn escaping_and_decoding_leave_plain_text_alone() {
    let mut numbers = Numbers(2);
    for _ in 0..20000 {
        let plain = numbers.text(b"abc;#x1 \n=/\xc3\xa9", 24);
        assert_eq!(escape(&plain, false).as_slice(), &plain[..]);
        assert!(escape(&plain, false).is_borrowed());
        assert_eq!(unescape(&plain).unwrap().as_slice(), &plain[..]);
        assert!(unescape(&plain).unwrap().is_borrowed());
        assert_eq!(escape(unescape(&plain).unwrap().as_slice(), false).as_slice(), &plain[..]);
        assert_eq!(unescape(escape(&plain, false).as_slice()).unwrap().as_slice(), &plain[..]);
    }
}

#[test]
fn decoding_never_borrows_what_holds_a_reference() {
    let mut numbers = Numbers(3);
    for _ in 0..20000 {
        let raw = numbers.text(b"&&;;#x0123456789abcdefltgampos quot", 16);
        match unescape(&raw) {
            Ok(text) => assert_eq!(text.is_borrowed(), !raw.contains(&b'&')),
            Err(Error::Syntax { offset, .. }) => assert_eq!(raw[offset], b'&'),
            Err(Error::UnknownEntity { name }) => {
                assert!(raw.windows(name.len() + 2).any(|w| w[0] == b'&'
                    && w[w.len() - 1] == b';'
                    && w[1..w.len() - 1] == name[..]))
            }
            Err(Error::InvalidCharRef) => assert!(raw.windows(2).any(|w| w == b"&#")),
            Err(other) => panic!("unexpected {:?}", other),
        }
    }
}

#[test]
fn writing_back_what_was_read_gives_the_document() {
    let mut numbers = Numbers(4);
    let mut read = 0;
    for _ in 0..40000 {
        let input = numbers.text(MARKUP, 20);
        let config = Config { check_end_names: numbers.below(2) == 0, check_comments: numbers.below(2) == 0, ..Config::default() };
        if let Ok(events) = read_document(&input, config) {
            read += 1;
            let written = write_all(&events);
            if has_loose_empty_tag(&input, &events) {
                // the whitespace after the slash is all that is lost
                assert!(written.len() < input.len());
                assert_eq!(read_document(&written, config).as_ref(), Ok(&events));
            } else {
                assert_eq!(written, input);
            }
        }
    }
    assert!(read > 1000);
}

#[test]
fn what_was_written_reads_the_same_without_trimming() {
    let mut numbers = Numbers(5);
    let mut read = 0;
    for _ in 0..20000 {
        let input = numbers.text(MARKUP, 20);
        let config = Config { expand_empty_elements: false, ..configs()[numbers.below(32)] };
        if let Ok(events) = read_document(&input, config) {
            read += 1;
            // what the events are written to is read as the same events by a
            // reader that trims nothing
            let written = write_all(&events);
            let plain = Config { trim_text_start: false, trim_text_end: false, ..config };
            assert_eq!(read_document(&written, plain).as_ref(), Ok(&events), "{:?}", input);
        }
    }
    assert!(read > 1000);
}

#[test]
fn the_end_is_reported_once_and_last_and_the_declaration_first() {
    let mut numbers = Numbers(6);
    for _ in 0..20000 {
        let input = numbers.text(MARKUP, 24);
        let config = configs()[numbers.below(32)];
        if let Ok(events) = read_document(&input, config) {
            assert!(events.last().unwrap().is_eof());
            assert_eq!(events.iter().filter(|e| e.is_eof()).count(), 1);
            let decls: Vec<usize> = events
                .iter()
                .enumerate()
                .filter(|(_, e)| matches!(e, Event::Decl(_)))
                .map(|(i, _)| i)
                .collect();
            assert!(decls.len() <= 1);
            for i in decls {
                assert!(events[..i]
                    .iter()
                    .all(|e| matches!(e, Event::Comment(_) | Event::PI(_) | Event::DocType(_))));
            }
            let starts = events.iter().filter(|e| matches!(e, Event::Start(_))).count();
            let ends = events.iter().filter(|e| matches!(e, Event::End(_))).count();
            if config.check_end_names {
                assert_eq!(starts, ends);
            }
        }
    }
}

#[test]
fn an_error_leaves_the_reader_where_it_was() {
    let mut numbers = Numbers(7);
    for _ in 0..20000 {
        let input = numbers.text(MARKUP, 16);
        let config = configs()[numbers.below(32)];
        let mut reader = Reader::with_config(&input, config);
        for _ in 0..40 {
            let position = reader.buffer_position();
            let depth = reader.depth();
            match reader.read_event() {
                Ok(e) => {
                    assert!(reader.buffer_position() >= position);
                    if e.is_eof() {
                        assert!(reader.is_done());
                        assert_eq!(reader.buffer_position(), input.len());
                        break;
                    }
                }
                Err(e) => {
                    assert_eq!(reader.buffer_position(), position);
                    assert_eq!(reader.depth(), depth);
                    assert_eq!(reader.read_event(), Err(e));
                    break;
                }
            }
        }
    }
}

#[test]
fn the_scope_is_as_deep_as_the_open_elements() {
    let mut numbers = Numbers(8);
    for _ in 0..20000 {
        let input = numbers.text(b"<<>>//aaxmlns:p=''\"\" ", 24);
        let config = configs()[numbers.below(32)];
        let mut reader = NsReader::new(&input, config);
        let mut depth = 0usize;
        for _ in 0..60 {
            match reader.read_resolved_event() {
                Ok((_, event)) => {
                    match event {
                        Event::Start(_) => depth += 1,
                        Event::End(_) => depth = depth.saturating_sub(1),
                        Event::Empty(_) => panic!("a self-closing tag was not expanded"),
                        _ => {}
                    }
                    assert_eq!(reader.depth(), depth);
                    if event.is_eof() {
                        break;
                    }
                }
                Err(_) => {
                    assert_eq!(reader.depth(), depth);
                    break;
                }
            }
        }
    }
}

#[test]
fn attributes_that_were_pushed_are_read_back() {
    let mut numbers = Numbers(9);
    for _ in 0..5000 {
        let mut tag = BytesStart::new(b"tag");
        let mut pushed = Vec::new();
        for i in 0..numbers.below(4) {
            let mut key = numbers.text(b"abc:-_.", 6);
            key.push(b'0' + i as u8);
            let value = numbers.text(b"<>&'\";= a\n", 12);
            tag.push_attribute(&key, &value);
            pushed.push((key, value));
        }
        let read = parse_attributes(tag.attributes_raw(), true).unwrap();
        assert_eq!(read.len(), pushed.len());
        for (attribute, (key, value)) in read.iter().zip(pushed.iter()) {
            assert_eq!(attribute.key, &key[..]);
            assert_eq!(unescape(attribute.value).unwrap().as_slice(), &value[..]);
        }
    }
}

/// A document that is well formed by the way it is made, with the number of
/// attributes, child elements and pieces of text of its root.
fn document(numbers: &mut Numbers) -> (Vec<u8>, usize, usize, usize) {
    fn element(numbers: &mut Numbers, depth: usize, out: &mut Vec<u8>) {
        let name: &[u8] = [&b"a"[..], b"b", b"ns:c"][numbers.below(3)];
        out.push(b'<');
        out.extend_from_slice(name);
        if numbers.below(3) == 0 {
            out.extend_from_slice(b" k='v &amp; w'");
        }
        if depth == 0 || numbers.below(3) == 0 {
            out.extend_from_slice(b"/>");
            return;
        }
        out.push(b'>');
        for _ in 0..numbers.below(3) {
            match numbers.below(3) {
                0 => element(numbers, depth - 1, out),
                1 => out.extend_from_slice(b"t&lt;"),
                _ => out.extend_from_slice(b"<![CDATA[c]]><!--x-->"),
            }
        }
        out.extend_from_slice(b"</");
        out.extend_from_slice(name);
        out.push(b'>');
    }
    let mut out = b"<?xml version='1.0'?><root".to_vec();
    let attributes = numbers.below(3);
    for i in 0..attributes {
        out.extend_from_slice(format!(" a{}='{}'", i, i).as_bytes());
    }
    out.push(b'>');
    let mut children = 0;
    let mut pieces = 0;
    let mut last_was_text = false;
    for _ in 0..numbers.below(5) {
        if numbers.below(2) == 0 {
            element(numbers, 2, &mut out);
            children += 1;
            last_was_text = false;
        } else {
            out.extend_from_slice(b" text ");
            if !last_was_text {
                pieces += 1;
            }
            last_was_text = true;
        }
    }
    out.extend_from_slice(b"</root>");
    (out, attributes, children, pieces)
}

#[test]
fn binding_follows_the_structure_of_the_document() {
    let mut numbers = Numbers(10);
    let text = || Box::new(Shape::String);
    for _ in 0..5000 {
        let (input, attributes, children, pieces) = document(&mut numbers);
        assert_eq!(from_bytes(&input, &Shape::Unit), Ok(quick_xml::shape::Value::Unit));
        match from_bytes(&input, &Shape::Dict(text(), Box::new(Shape::Unit))) {
            Ok(quick_xml::shape::Value::Dict(entries)) => assert_eq!(
                entries.len(),
                attributes + children + if pieces > 0 { 1 } else { 0 },
                "{}",
                String::from_utf8_lossy(&input)
            ),
            other => panic!("unexpected {:?}", other),
        }
        let any_child = Shape::Struct(vec![
            Field { name: b"$value".to_vec(), shape: Shape::Optional(Box::new(Shape::Unit)) },
            Field { name: b"$text".to_vec(), shape: Shape::Optional(text()) },
            Field { name: b"$text".to_vec(), shape: Shape::Optional(Box::new(Shape::BorrowedStr)) },
            Field { name: b"@a0".to_vec(), shape: Shape::Optional(Box::new(Shape::Integer(IntKind::U8))) },
        ]);
        match from_bytes(&input, &any_child) {
            Ok(quick_xml::shape::Value::Tuple(values)) => {
                assert_eq!(values[0] != quick_xml::shape::Value::Absent, children > 0);
                assert_eq!(values[1] != quick_xml::shape::Value::Absent, pieces > 0);
                assert_eq!(
                    values[3],
                    if attributes > 0 {
                        quick_xml::shape::Value::Present(Box::new(quick_xml::shape::Value::UInt(0)))
                    } else {
                        quick_xml::shape::Value::Absent
                    }
                );
            }
            // text of more than one piece cannot be borrowed
            Err(quick_xml::shape::DeError::Custom(_)) => assert!(pieces > 1),
            other => panic!("unexpected {:?}", other),
        }
    }
}

#[test]
fn binding_takes_any_bytes() {
    let mut numbers = Numbers(11);
    let shapes = [
        Shape::Unit,
        Shape::String,
        Shape::Integer(IntKind::I8),
        Shape::List(Box::new(Shape::Bool)),
        Shape::Dict(Box::new(Shape::String), Box::new(Shape::String)),
        Shape::Tuple(vec![Shape::Unit, Shape::Unit]),
        Shape::Enum(vec![Field { name: b"a".to_vec(), shape: Shape::Unit }]),
        Shape::Tagged(b"@a".to_vec(), vec![Field { name: b"1".to_vec(), shape: Shape::Unit }]),
    ];
    let reading = Config {
        expand_empty_elements: true,
        trim_text_start: true,
        trim_text_end: true,
        ..Config::default()
    };
    for _ in 0..20000 {
        let input = numbers.text(b"<<>>//aa=''1 &;lt", 24);
        let read = read_document(&input, reading);
        for shape in shapes.iter() {
            // nothing is bound of a document that cannot be read
            if from_bytes(&input, shape).is_ok() {
                assert!(read.is_ok());
            }
        }
    }
}

use quick_xml::de::{from_bytes, Deserializer};
use quick_xml::errors::Error;
use quick_xml::escape::EntityResolver;
use quick_xml::shape::{DeError, Field, IntKind, Shape, Value};

fn from_str<'a>(xml: &'a str, shape: &Shape) -> Result<Value<'a>, DeError> {
    from_bytes(xml.as_bytes(), shape)
}

fn field(name: &str, shape: Shape) -> Field {
    Field { name: name.as_bytes().to_vec(), shape }
}

fn record(fields: Vec<Field>) -> Shape {
    Shape::Struct(fields)
}

fn option(shape: Shape) -> Shape {
    Shape::Optional(Box::new(shape))
}

fn list(shape: Shape) -> Shape {
    Shape::List(Box::new(shape))
}

fn dict(key: Shape, value: Shape) -> Shape {
    Shape::Dict(Box::new(key), Box::new(value))
}

fn string(s: &str) -> Value<'static> {
    Value::String(s.as_bytes().to_vec())
}

fn borrowed(s: &str) -> Value<'_> {
    Value::Borrowed(s.as_bytes())
}

fn float(s: &str) -> Value<'static> {
    Value::Float(s.as_bytes().to_vec())
}

fn as_f64(v: &Value) -> f64 {
    match v {
        Value::Float(text) => std::str::from_utf8(text).unwrap().parse().unwrap(),
        other => panic!("no float: {:?}", other),
    }
}

fn as_f32(v: &Value) -> f32 {
    match v {
        Value::Float(text) => std::str::from_utf8(text).unwrap().parse().unwrap(),
        other => panic!("no float: {:?}", other),
    }
}

fn items<'v, 'a>(v: &'v Value<'a>) -> &'v Vec<Value<'a>> {
    match v {
        Value::Tuple(items) | Value::List(items) => items,
        other => panic!("no items: {:?}", other),
    }
}

fn custom(message: &str) -> DeError {
    DeError::Custom(message.as_bytes().to_vec())
}

fn unsupported(message: &str) -> DeError {
    DeError::Unsupported(message.as_bytes().to_vec())
}

/// A record whose one field is the text of the element.
fn trivial(shape: Shape) -> Shape {
    record(vec![field("$text", shape)])
}

/// `{float: f64, string: String}`, both from child elements.
fn elements() -> Shape {
    record(vec![field("float", Shape::Float), field("string", Shape::String)])
}

/// `{float: f64, string: String}`, both from attributes.
fn attributes() -> Shape {
    record(vec![field("@float", Shape::Float), field("@string", Shape::String)])
}

/// `{float: f64, string: String}`, the first from an attribute.
fn mixed() -> Shape {
    record(vec![field("@float", Shape::Float), field("string", Shape::String)])
}

fn unit_map() -> Shape {
    dict(Shape::Unit, Shape::Unit)
}

fn assert_answer(v: &Value) {
    assert_eq!(*v, Value::Tuple(vec![float("42"), string("answer")]));
    assert_eq!(as_f64(&items(v)[0]), 42.0);
}

fn all_primitives() -> Vec<Shape> {
    vec![
        Shape::Integer(IntKind::I8),
        Shape::Integer(IntKind::I16),
        Shape::Integer(IntKind::I32),
        Shape::Integer(IntKind::I64),
        Shape::Integer(IntKind::I128),
        Shape::Integer(IntKind::U8),
        Shape::Integer(IntKind::U16),
        Shape::Integer(IntKind::U32),
        Shape::Integer(IntKind::U64),
        Shape::Integer(IntKind::U128),
        Shape::Float,
        Shape::Bool,
        Shape::Char,
        Shape::String,
        Shape::Unit,
    ]
}

#[test]
fn implicit() {
    let item = from_str(r#"<root>content</root>"#, &dict(Shape::String, Shape::String)).unwrap();

    assert_eq!(item, Value::Dict(vec![(string("$text"), string("content"))]));
}

#[test]
fn explicit() {
    let item = from_str(r#"<root>content</root>"#, &trivial(Shape::String)).unwrap();

    assert_eq!(item, Value::Tuple(vec![string("content")]));
}

#[test]
fn without() {
    let item = from_str(r#"<root>content</root>"#, &record(vec![])).unwrap();
    assert_eq!(item, Value::Tuple(vec![]));
    from_str(r#"<root>content</root>"#, &Shape::Unit).unwrap();
}

#[test]
fn ignored_any() {
    let err = from_str("", &Shape::Unit);
    match err {
        Err(DeError::UnexpectedEof) => {}
        other => panic!("Expected `UnexpectedEof`, found {:?}", other),
    }

    from_str(r#"<empty/>"#, &Shape::Unit).unwrap();
    from_str(r#"<with-attributes key="value"/>"#, &Shape::Unit).unwrap();
    from_str(r#"<nested>text</nested>"#, &Shape::Unit).unwrap();
    from_str(r#"<nested><![CDATA[cdata]]></nested>"#, &Shape::Unit).unwrap();
    from_str(r#"<nested><nested/></nested>"#, &Shape::Unit).unwrap();
}

#[test]
fn trivial_empty_doc() {
    for shape in all_primitives() {
        match from_str("", &shape) {
            Err(DeError::UnexpectedEof) => (),
            x => panic!("Expected `Err(DeError::UnexpectedEof)`, but got `{:?}`", x),
        }
    }
    assert_eq!(from_str("", &Shape::BorrowedStr), Err(DeError::UnexpectedEof));
    assert_eq!(from_str("", &elements()), Err(DeError::UnexpectedEof));
    assert_eq!(from_str("", &unit_map()), Err(DeError::UnexpectedEof));
    assert_eq!(from_str("", &list(Shape::Unit)), Err(DeError::UnexpectedEof));
    assert_eq!(from_str("", &Shape::Tuple(vec![Shape::Unit])), Err(DeError::UnexpectedEof));
    assert_eq!(from_str("", &Shape::Enum(vec![])), Err(DeError::UnexpectedEof));
    assert_eq!(from_str("", &Shape::Bytes), Err(DeError::UnexpectedEof));
    assert_eq!(from_str("", &option(Shape::String)), Ok(Value::Absent));
    assert_eq!(from_str("  \n", &Shape::String), Err(DeError::UnexpectedEof));
}

#[test]
fn trivial_only_comment() {
    for shape in all_primitives() {
        match from_str("<!--comment-->", &shape) {
            Err(DeError::UnexpectedEof) => (),
            x => panic!("Expected `Err(DeError::UnexpectedEof)`, but got `{:?}`", x),
        }
    }
    assert_eq!(
        from_str("<?xml version='1.0'?><!DOCTYPE a><?pi?>", &elements()),
        Err(DeError::UnexpectedEof)
    );
}

fn in_struct(shape: Shape, xml: &str, expected: Value) {
    let item = from_str(xml, &trivial(shape)).unwrap();
    assert_eq!(item, Value::Tuple(vec![expected]));
}

fn in_struct_missing(shape: Shape, xml: &str) {
    let outer = format!("<outer>{}</outer>", xml);
    match from_str(&outer, &trivial(shape)) {
        Err(DeError::Custom(reason)) => assert_eq!(reason, b"missing field `$text`"),
        x => panic!(
            r#"Expected `Err(DeError::Custom("missing field `$text`"))`, but got `{:?}`"#,
            x
        ),
    };
}

fn in_struct_cases(open: &str, close: &str) {
    let wrap = |s: &str| format!("<root>{}{}{}</root>", open, s, close);
    let cases: Vec<(Shape, &str, Value)> = vec![
        (Shape::Integer(IntKind::I8), "-42", Value::Int(-42)),
        (Shape::Integer(IntKind::I16), "-4200", Value::Int(-4200)),
        (Shape::Integer(IntKind::I32), "-42000000", Value::Int(-42000000)),
        (Shape::Integer(IntKind::I64), "-42000000000000", Value::Int(-42000000000000)),
        (Shape::Integer(IntKind::U8), "42", Value::UInt(42)),
        (Shape::Integer(IntKind::U16), "4200", Value::UInt(4200)),
        (Shape::Integer(IntKind::U32), "42000000", Value::UInt(42000000)),
        (Shape::Integer(IntKind::U64), "42000000000000", Value::UInt(42000000000000)),
        (
            Shape::Integer(IntKind::U128),
            "420000000000000000000000000000",
            Value::UInt(420000000000000000000000000000),
        ),
        (
            Shape::Integer(IntKind::I128),
            "-420000000000000000000000000000",
            Value::Int(-420000000000000000000000000000),
        ),
        (Shape::Float, "4.2", float("4.2")),
        (Shape::Bool, "false", Value::Bool(false)),
        (Shape::Bool, "true", Value::Bool(true)),
        (Shape::Char, "r", Value::Char('r')),
    ];
    for (shape, text, expected) in cases {
        let xml = wrap(text);
        let item = from_str(&xml, &trivial(clone_shape(&shape))).unwrap();
        assert_eq!(item, Value::Tuple(vec![expected]));
        in_struct_missing(shape, &xml);
    }
    let xml = wrap("4.2");
    let item = from_str(&xml, &trivial(Shape::Float)).unwrap();
    assert_eq!(as_f32(&items(&item)[0]), 4.2f32);
    assert_eq!(as_f64(&items(&item)[0]), 4.2f64);
}

fn clone_shape(shape: &Shape) -> Shape {
    match shape {
        Shape::Unit => Shape::Unit,
        Shape::Bool => Shape::Bool,
        Shape::Integer(k) => Shape::Integer(*k),
        Shape::Float => Shape::Float,
        Shape::Char => Shape::Char,
        Shape::String => Shape::String,
        Shape::BorrowedStr => Shape::BorrowedStr,
        Shape::Bytes => Shape::Bytes,
        other => panic!("not needed: {:?}", other),
    }
}

#[test]
fn in_struct_text() {
    in_struct_cases("", "");
    in_struct(Shape::String, "<root>escaped&#x20;string</root>", string("escaped string"));
    in_struct_missing(Shape::String, "<root>escaped&#x20;string</root>");
}

#[test]
fn in_struct_cdata() {
    in_struct_cases("<![CDATA[", "]]>");
    in_struct(
        Shape::String,
        "<root><![CDATA[escaped&#x20;string]]></root>",
        string("escaped&#x20;string"),
    );
}

#[test]
fn serde_de_byte_buf() {
    for xml in
        ["<root>escaped&#x20;byte_buf</root>", "<root><![CDATA[escaped&#x20;byte_buf]]></root>"]
    {
        match from_str(xml, &trivial(Shape::Bytes)) {
            Err(DeError::Unsupported(msg)) => {
                assert_eq!(msg, b"binary data content is not supported by XML format")
            }
            x => panic!(
                r#"Expected `Err(DeError::Unsupported("binary data content is not supported by XML format"))`, but got `{:?}`"#,
                x
            ),
        }
    }
}

#[test]
fn serde_de_bytes() {
    for xml in
        ["<root>escaped&#x20;byte_buf</root>", "<root><![CDATA[escaped&#x20;byte_buf]]></root>"]
    {
        match from_str(xml, &Shape::Bytes) {
            Err(DeError::Unsupported(msg)) => {
                assert_eq!(msg, b"binary data content is not supported by XML format")
            }
            x => panic!(
                r#"Expected `Err(DeError::Unsupported("binary data content is not supported by XML format"))`, but got `{:?}`"#,
                x
            ),
        }
    }
}

#[test]
fn serde_de_simple() {
    // a unit
    let data = from_str("<root/>", &Shape::Unit).unwrap();
    assert_eq!(data, Value::Unit);

    // a record of one unnamed part
    let data = from_str("<root>true</root>", &Shape::Bool).unwrap();
    assert_eq!(data, Value::Bool(true));

    // a tuple, and a record of two unnamed parts
    for _ in 0..2 {
        let data = from_str(
            "<root>42</root><root>answer</root>",
            &Shape::Tuple(vec![Shape::Float, Shape::String]),
        )
        .unwrap();
        assert_eq!(data, Value::Tuple(vec![float("42"), string("answer")]));
        assert_eq!(as_f32(&items(&data)[0]), 42.0);
    }
}

#[test]
fn serde_de_excess_attribute() {
    let data = from_str(r#"<root excess="attribute"/>"#, &Shape::Unit).unwrap();
    assert_eq!(data, Value::Unit);

    let data = from_str(r#"<root excess="attribute">true</root>"#, &Shape::Bool).unwrap();
    assert_eq!(data, Value::Bool(true));

    for _ in 0..2 {
        let data = from_str(
            r#"<root excess="attribute">42</root><root>answer</root>"#,
            &Shape::Tuple(vec![Shape::Float, Shape::String]),
        )
        .unwrap();
        assert_eq!(data, Value::Tuple(vec![float("42"), string("answer")]));
        assert_eq!(as_f32(&items(&data)[0]), 42.0);
    }
}

#[test]
fn excess_element() {
    let data = from_str(r#"<root><excess>element</excess></root>"#, &Shape::Unit).unwrap();
    assert_eq!(data, Value::Unit);
}

#[test]
fn excess_text() {
    let data = from_str(r#"<root>excess text</root>"#, &Shape::Unit).unwrap();
    assert_eq!(data, Value::Unit);
}

#[test]
fn excess_cdata() {
    let data = from_str(r#"<root><![CDATA[excess CDATA]]></root>"#, &Shape::Unit).unwrap();
    assert_eq!(data, Value::Unit);
}

#[test]
fn serde_de_elements() {
    // a map
    let data =
        from_str(r#"<root><float>42</float><string>answer</string></root>"#, &unit_map()).unwrap();
    assert_eq!(
        data,
        Value::Dict(vec![(Value::Unit, Value::Unit), (Value::Unit, Value::Unit)])
    );

    // a record
    let data =
        from_str(r#"<root><float>42</float><string>answer</string></root>"#, &elements()).unwrap();
    assert_answer(&data);

    // a record in a record
    let shape = record(vec![
        field("nested", record(vec![field("float", Shape::Float)])),
        field("string", Shape::String),
    ]);
    let data = from_str(
        r#"<root><string>answer</string><nested><float>42</float></nested></root>"#,
        &shape,
    )
    .unwrap();
    assert_eq!(
        data,
        Value::Tuple(vec![Value::Tuple(vec![float("42")]), string("answer")])
    );
    assert_eq!(as_f32(&items(&items(&data)[0])[0]), 42.0);
}

#[test]
fn excess_elements() {
    let data = from_str(
        r#"
            <root>
                <before/>
                <float>42</float>
                <in-the-middle/>
                <string>answer</string>
                <after/>
            </root>"#,
        &elements(),
    )
    .unwrap();
    assert_answer(&data);
}

#[test]
fn serde_de_attributes() {
    // a map
    let data = from_str(r#"<root float="42" string="answer"/>"#, &unit_map()).unwrap();
    assert_eq!(
        data,
        Value::Dict(vec![(Value::Unit, Value::Unit), (Value::Unit, Value::Unit)])
    );

    // a record
    let data = from_str(r#"<root float="42" string="answer"/>"#, &attributes()).unwrap();
    assert_answer(&data);

    // a record in a record
    let shape = record(vec![
        field("nested", record(vec![field("@float", Shape::Float)])),
        field("@string", Shape::String),
    ]);
    let data = from_str(r#"<root string="answer"><nested float="42"/></root>"#, &shape).unwrap();
    assert_eq!(
        data,
        Value::Tuple(vec![Value::Tuple(vec![float("42")]), string("answer")])
    );
    assert_eq!(as_f32(&items(&items(&data)[0])[0]), 42.0);

    // a record whose parts come from the element of the record around it
    let shape = record(vec![field("@float", Shape::String), field("@string", Shape::String)]);
    let data = from_str(r#"<root float="42" string="answer"/>"#, &shape).unwrap();
    assert_eq!(data, Value::Tuple(vec![string("42"), string("answer")]));
}

#[test]
fn excess_attributes() {
    let data = from_str(
        r#"<root before="1" float="42" in-the-middle="2" string="answer" after="3"/>"#,
        &attributes(),
    )
    .unwrap();
    assert_answer(&data);
}

#[test]
fn serde_de_attribute_and_element() {
    let xml = r#"
            <root float="42">
                <string>answer</string>
            </root>
            "#;
    let data = from_str(xml, &unit_map()).unwrap();
    assert_eq!(
        data,
        Value::Dict(vec![(Value::Unit, Value::Unit), (Value::Unit, Value::Unit)])
    );

    let data = from_str(xml, &mixed()).unwrap();
    assert_answer(&data);
}

#[test]
fn namespaces() {
    let data = from_str(
        r#"<root xmlns:namespace="http://name.space"><namespace:float>42</namespace:float><string>answer</string></root>"#,
        &elements(),
    )
    .unwrap();
    assert_answer(&data);
}

#[test]
fn text_spaces_only() {
    let data = from_str(
        " \t\n\r<root><float>42</float><string>answer</string></root>",
        &elements(),
    )
    .unwrap();
    assert_answer(&data);
}

#[test]
fn text_non_spaces() {
    match from_str(
        "\nexcess text\t<root><float>42</float><string>answer</string></root>",
        &elements(),
    ) {
        Err(DeError::ExpectedStart) => (),
        x => panic!("Expected Err(ExpectedStart), but got {:?}", x),
    };
}

#[test]
fn cdata() {
    match from_str(
        "<![CDATA[excess cdata]]><root><float>42</float><string>answer</string></root>",
        &elements(),
    ) {
        Err(DeError::ExpectedStart) => (),
        x => panic!("Expected Err(ExpectedStart), but got {:?}", x),
    };
}

#[test]
fn comment() {
    let data = from_str(
        "<!--comment--><root><float>42</float><string>answer</string></root>",
        &elements(),
    )
    .unwrap();
    assert_answer(&data);
}

#[test]
fn serde_de_pi() {
    let data = from_str(
        "<?pi?><root><float>42</float><string>answer</string></root>",
        &elements(),
    )
    .unwrap();
    assert_answer(&data);

    assert_eq!(
        from_str(
            r#"
        <?xml version="1.1"?>
        <?pi?>
        <?another pi?>
        <!DOCTYPE dict>
        <?pi?>
        <?another pi?>
        <doc>
        </doc>
        "#,
            &unit_map()
        )
        .unwrap(),
        Value::Dict(vec![])
    );
}

fn maplike_errors(attributes: fn() -> Shape, mixed: fn() -> Shape) {
    // an element that is not closed is reported before a field that is missing
    for (xml, shape) in [
        (r#"<root>"#, mixed()),
        (r#"<root float="42" string="answer">"#, attributes()),
        (r#"<root float="42"><string>answer</string>"#, mixed()),
        (r#"<root float="42"><string>answer"#, mixed()),
    ] {
        let data = from_str(xml, &shape);
        match data {
            Err(DeError::UnexpectedEof) => (),
            _ => panic!("Expected `UnexpectedEof`, found {:?}", data),
        }
    }
    // and so is a closing tag of another name
    for (xml, shape) in [
        (r#"<root></mismatched>"#, mixed()),
        (r#"<root float="42" string="answer"></mismatched>"#, attributes()),
        (r#"<root float="42"><string>answer</string></mismatched>"#, mixed()),
        (r#"<root float="42"><string>answer</mismatched></root>"#, mixed()),
    ] {
        let data = from_str(xml, &shape);
        match data {
            Err(DeError::InvalidXml(Error::EndEventMismatch { .. })) => (),
            _ => panic!("Expected `InvalidXml(EndEventMismatch)`, found {:?}", data),
        }
    }
}

#[test]
fn maplike_errors_of_a_map() {
    maplike_errors(unit_map, unit_map);
}

#[test]
fn maplike_errors_of_a_record() {
    maplike_errors(attributes, mixed);
}

#[test]
fn mismatched_end_names_both_names() {
    assert_eq!(
        from_str("<root></mismatched>", &elements()),
        Err(DeError::InvalidXml(Error::EndEventMismatch {
            expected: b"root".to_vec(),
            found: b"mismatched".to_vec()
        }))
    );
}

fn list_record(item: Shape) -> Shape {
    // the caller's XML decides whether the list is an attribute or the text
    record(vec![field("@list", option(list(clone_shape(&item)))), field("$text", option(list(item)))])
}

fn one_list<'v, 'a>(v: &'v Value<'a>) -> &'v Value<'a> {
    match (&items(v)[0], &items(v)[1]) {
        (Value::Present(l), Value::Absent) | (Value::Absent, Value::Present(l)) => l,
        other => panic!("not exactly one list: {:?}", other),
    }
}

#[test]
fn xs_list_in_attribute() {
    fn xml(s: &str) -> String {
        format!(r#"<root list="{}"/>"#, s)
    }
    let data = from_str(r#"<root list="1 -2  3"/>"#, &list_record(Shape::Integer(IntKind::I32)))
        .unwrap();
    assert_eq!(
        *one_list(&data),
        Value::List(vec![Value::Int(1), Value::Int(-2), Value::Int(3)])
    );
    xs_list_checks(xml, true);

    // the items are split before they are decoded
    let data = from_str(
        r#"<root list="first second  third&#x20;3"/>"#,
        &list_record(Shape::String),
    )
    .unwrap();
    assert_eq!(
        *one_list(&data),
        Value::List(vec![string("first"), string("second"), string("third 3")])
    );
}

#[test]
fn xs_list_in_text() {
    fn xml(s: &str) -> String {
        format!("<root>{}</root>", s)
    }
    xs_list_checks(xml, true);

    // entity references are expanded before the items are split
    let data =
        from_str("<root>first second  third&#x20;3</root>", &list_record(Shape::String)).unwrap();
    assert_eq!(
        *one_list(&data),
        Value::List(vec![string("first"), string("second"), string("third"), string("3")])
    );
}

#[test]
fn xs_list_in_cdata() {
    fn xml(s: &str) -> String {
        format!("<root><![CDATA[{}]]></root>", s)
    }
    xs_list_checks(xml, false);

    // nothing is decoded in CDATA
    let data = from_str(
        "<root><![CDATA[first second  third&#x20;3]]></root>",
        &list_record(Shape::String),
    )
    .unwrap();
    assert_eq!(
        *one_list(&data),
        Value::List(vec![string("first"), string("second"), string("third&#x20;3")])
    );
}

fn xs_list_checks(xml_of: fn(&str) -> String, escaped: bool) {
    let signed = [IntKind::I8, IntKind::I16, IntKind::I32, IntKind::I64, IntKind::I128];
    for kind in signed {
        let xml = xml_of("1 -2  3");
        let data = from_str(&xml, &list_record(Shape::Integer(kind))).unwrap();
        assert_eq!(
            *one_list(&data),
            Value::List(vec![Value::Int(1), Value::Int(-2), Value::Int(3)])
        );
    }
    let unsigned = [IntKind::U8, IntKind::U16, IntKind::U32, IntKind::U64, IntKind::U128];
    for kind in unsigned {
        let xml = xml_of("1 2  3");
        let data = from_str(&xml, &list_record(Shape::Integer(kind))).unwrap();
        assert_eq!(
            *one_list(&data),
            Value::List(vec![Value::UInt(1), Value::UInt(2), Value::UInt(3)])
        );
    }

    let xml = xml_of("1.23 -4.56  7.89");
    let data = from_str(&xml, &list_record(Shape::Float)).unwrap();
    let floats: Vec<f64> = items(one_list(&data)).iter().map(as_f64).collect();
    assert_eq!(floats, vec![1.23, -4.56, 7.89]);
    let floats: Vec<f32> = items(one_list(&data)).iter().map(as_f32).collect();
    assert_eq!(floats, vec![1.23, -4.56, 7.89]);

    let xml = xml_of("true false  true");
    let data = from_str(&xml, &list_record(Shape::Bool)).unwrap();
    assert_eq!(
        *one_list(&data),
        Value::List(vec![Value::Bool(true), Value::Bool(false), Value::Bool(true)])
    );

    let xml = xml_of("4 2  j");
    let data = from_str(&xml, &list_record(Shape::Char)).unwrap();
    assert_eq!(
        *one_list(&data),
        Value::List(vec![Value::Char('4'), Value::Char('2'), Value::Char('j')])
    );

    let xml = xml_of("1 second  false");
    let data = from_str(&xml, &list_record(Shape::Unit)).unwrap();
    assert_eq!(*one_list(&data), Value::List(vec![Value::Unit, Value::Unit, Value::Unit]));

    if escaped {
        let xml = xml_of("first second  third&#x20;3");
        let err = from_str(&xml, &list_record(Shape::Bytes)).unwrap_err();
        assert_eq!(err, unsupported("byte arrays are not supported as `xs:list` items"));
    }
}

#[test]
fn from_str_should_ignore_encoding() {
    let xml = r#"
        <?xml version="1.0" encoding="windows-1252" ?>
        <A a="€" />
    "#;

    let a = from_str(xml, &record(vec![field("@a", Shape::String)])).unwrap();
    assert_eq!(a, Value::Tuple(vec![string("€")]));
}

#[test]
fn serde_de_top_level() {
    let data = from_str(r#"<root>without escape sequences</root>"#, &Shape::BorrowedStr).unwrap();
    assert_eq!(data, borrowed("without escape sequences"));

    match from_str(r#"<root>with escape sequence: &lt;</root>"#, &Shape::BorrowedStr) {
        Err(DeError::Custom(reason)) => assert_eq!(
            std::str::from_utf8(&reason).unwrap(),
            "invalid type: string \"with escape sequence: <\", expected a borrowed string"
        ),
        e => panic!(
            "Expected `Err(Custom(invalid type: string \"with escape sequence: <\", expected a borrowed string))`, but found {:?}",
            e
        ),
    }
}

#[test]
fn serde_de_element() {
    let shape = record(vec![field("string", Shape::BorrowedStr)]);
    let data = from_str(
        r#"
                <root>
                    <string>without escape sequences</string>
                </root>"#,
        &shape,
    )
    .unwrap();
    assert_eq!(data, Value::Tuple(vec![borrowed("without escape sequences")]));

    match from_str(
        r#"
                <root>
                    <string>with escape sequence: &lt;</string>
                </root>"#,
        &shape,
    ) {
        Err(DeError::Custom(reason)) => assert_eq!(
            std::str::from_utf8(&reason).unwrap(),
            "invalid type: string \"with escape sequence: <\", expected a borrowed string"
        ),
        e => panic!(
            "Expected `Err(Custom(invalid type: string \"with escape sequence: <\", expected a borrowed string))`, but found {:?}",
            e
        ),
    }
}

#[test]
fn serde_de_attribute() {
    let shape = record(vec![field("@string", Shape::BorrowedStr)]);
    let data = from_str(r#"<root string="without escape sequences"/>"#, &shape).unwrap();
    assert_eq!(data, Value::Tuple(vec![borrowed("without escape sequences")]));

    match from_str(r#"<root string="with &quot;escape&quot; sequences"/>"#, &shape) {
        Err(DeError::Custom(reason)) => assert_eq!(
            std::str::from_utf8(&reason).unwrap(),
            "invalid type: string \"with \\\"escape\\\" sequences\", expected a borrowed string"
        ),
        e => panic!(
            "Expected `Err(Custom(invalid type: string \"with \"escape\" sequences\", expected a borrowed string))`, but found {:?}",
            e
        ),
    }
}

#[test]
fn borrowed_values_point_into_the_document() {
    let doc = String::from(r#"<root a="x"><b>y</b><![CDATA[z]]></root>"#);
    let shape = record(vec![
        field("@a", Shape::BorrowedStr),
        field("b", Shape::BorrowedStr),
        field("$text", Shape::BorrowedStr),
    ]);
    let data = from_bytes(doc.as_bytes(), &shape).unwrap();
    let base = doc.as_ptr() as usize;
    for v in items(&data) {
        match v {
            Value::Borrowed(s) => {
                let at = s.as_ptr() as usize;
                assert!(base <= at && at + s.len() <= base + doc.len());
            }
            other => panic!("not borrowed: {:?}", other),
        }
    }
}

#[test]
fn text_of_several_pieces_cannot_be_borrowed() {
    let shape = trivial(Shape::BorrowedStr);
    assert_eq!(
        from_str("<root>a<b/>c</root>", &shape),
        Err(custom("invalid type: string \"ac\", expected a borrowed string"))
    );
    assert_eq!(
        from_str("<root>a<![CDATA[c]]></root>", &shape),
        Err(custom("invalid type: string \"ac\", expected a borrowed string"))
    );
    assert_eq!(
        from_str("<root><![CDATA[a&amp;c]]></root>", &shape),
        Ok(Value::Tuple(vec![borrowed("a&amp;c")]))
    );
    assert_eq!(
        from_str("<root>a<b/>c</root>", &trivial(Shape::String)),
        Ok(Value::Tuple(vec![string("ac")]))
    );
}

#[test]
fn element_name() {
    let data = from_str(
        r#"
            <root>
                <element>element content</element>
                text content
            </root>"#,
        &dict(Shape::BorrowedStr, Shape::BorrowedStr),
    )
    .unwrap();
    assert_eq!(
        data,
        Value::Dict(vec![
            (borrowed("element"), borrowed("element content")),
            (borrowed("$text"), borrowed("text content")),
        ])
    );
}

struct TestEntityResolver {
    capture_called: bool,
}

impl EntityResolver for TestEntityResolver {
    fn capture(&mut self, doctype: &[u8]) {
        self.capture_called = true;

        assert_eq!(doctype, br#"dict[ <!ENTITY unc "unclassified"> ]"#);
    }

    fn resolve(&self, entity: &[u8]) -> Option<Vec<u8>> {
        assert!(
            self.capture_called,
            "`EntityResolver::capture` should be called before `EntityResolver::resolve`"
        );
        match entity {
            b"t1" => Some(b"test_one".to_vec()),
            b"t2" => Some(b"test_two".to_vec()),
            _ => None,
        }
    }
}

#[test]
fn resolve_custom_entity() {
    let resolver = TestEntityResolver { capture_called: false };
    let mut de = Deserializer::with_resolver(
        br#"
            <!DOCTYPE dict[ <!ENTITY unc "unclassified"> ]>

            <root>
                <entity_one>&t1;</entity_one>
                <entity_two>&t2;</entity_two>
                <entity_three>non-entity</entity_three>
            </root>
            "#
        .as_ref(),
        resolver,
    );

    let data = de.deserialize(&dict(Shape::String, Shape::String)).unwrap();
    assert_eq!(
        data,
        Value::Dict(vec![
            (string("entity_one"), string("test_one")),
            (string("entity_two"), string("test_two")),
            (string("entity_three"), string("non-entity")),
        ])
    );
    assert!(de.into_resolver().capture_called);
}

#[test]
fn unknown_entity_is_invalid_xml() {
    assert_eq!(
        from_str("<root>&t1;</root>", &Shape::String),
        Err(DeError::InvalidXml(Error::UnknownEntity { name: b"t1".to_vec() }))
    );
    assert_eq!(
        from_str("<root a='&#xD800;'/>", &record(vec![field("@a", Shape::String)])),
        Err(DeError::InvalidXml(Error::InvalidCharRef))
    );
}

#[test]
fn spaces() {
    assert_eq!(
        from_str(
            r#"
        <?xml version="1.1"?>

        <!DOCTYPE dict>

        <doc>
        </doc>
        "#,
            &unit_map()
        )
        .unwrap(),
        Value::Dict(vec![])
    );
}

#[test]
fn comments() {
    assert_eq!(
        from_str(
            r#"
        <?xml version="1.1"?>
        <!-- comment between xml declaration and doctype -->
        <!-- another comment -->
        <!DOCTYPE dict>
        <!-- comment between doctype and root element -->
        <!-- another comment -->
        <doc>
        </doc>
        "#,
            &unit_map()
        )
        .unwrap(),
        Value::Dict(vec![])
    );
}

#[test]
fn issue257() {
    const XML: &str = r#"
    <?xml version="1.0" encoding="utf-8"?>
    <OuterNode>
        Text content with <i>italics</i> or something.
    </OuterNode>
    "#;

    // the text of an element is made of its character data alone: the child
    // element between the two pieces adds nothing to it
    let deserialized_result = from_str(XML, &trivial(Shape::String)).unwrap();
    assert_eq!(
        deserialized_result,
        Value::Tuple(vec![string("Text content withor something.")])
    );
}

#[test]
fn options() {
    let shape = record(vec![
        field("@a", option(Shape::Integer(IntKind::U8))),
        field("b", option(Shape::String)),
        field("$text", option(Shape::String)),
        field("$value", option(Shape::Unit)),
    ]);
    assert_eq!(
        from_str("<root/>", &shape),
        Ok(Value::Tuple(vec![Value::Absent, Value::Absent, Value::Absent, Value::Absent]))
    );
    assert_eq!(
        from_str("<root a='7'>t<b>u</b></root>", &shape),
        Ok(Value::Tuple(vec![
            Value::Present(Box::new(Value::UInt(7))),
            Value::Present(Box::new(string("u"))),
            Value::Present(Box::new(string("t"))),
            Value::Present(Box::new(Value::Unit)),
        ]))
    );
    // an empty value is an absent primitive and a present, empty text
    let shape = record(vec![
        field("@a", option(Shape::Integer(IntKind::U8))),
        field("@s", option(Shape::String)),
        field("b", option(Shape::Bool)),
        field("t", option(Shape::String)),
    ]);
    assert_eq!(
        from_str("<root a='' s=''><b/><t/></root>", &shape),
        Ok(Value::Tuple(vec![
            Value::Absent,
            Value::Present(Box::new(string(""))),
            Value::Absent,
            Value::Present(Box::new(string(""))),
        ]))
    );
    assert_eq!(
        from_str("<root>7</root>", &option(Shape::Integer(IntKind::I8))),
        Ok(Value::Present(Box::new(Value::Int(7))))
    );
}

#[test]
fn missing_fields_are_named() {
    assert_eq!(from_str("<root/>", &elements()), Err(custom("missing field `float`")));
    assert_eq!(
        from_str("<root><float>1</float></root>", &elements()),
        Err(custom("missing field `string`"))
    );
    assert_eq!(from_str("<root/>", &attributes()), Err(custom("missing field `@float`")));
    assert_eq!(from_str("<root/>", &trivial(Shape::String)), Err(custom("missing field `$text`")));
    assert_eq!(
        from_str("<root>t</root>", &record(vec![field("$value", Shape::Unit)])),
        Err(custom("missing field `$value`"))
    );
    assert_eq!(
        from_str("<root/>", &record(vec![field("item", list(Shape::Unit))])),
        Err(custom("missing field `item`"))
    );
}

#[test]
fn sequences_of_child_elements() {
    let shape = record(vec![
        field("item", list(Shape::Integer(IntKind::I32))),
        field("other", Shape::String),
    ]);
    assert_eq!(
        from_str("<r><item>1</item><other>x</other><item>-2</item><item>3</item></r>", &shape),
        Ok(Value::Tuple(vec![
            Value::List(vec![Value::Int(1), Value::Int(-2), Value::Int(3)]),
            string("x")
        ]))
    );
    let pair = record(vec![field("p", Shape::Tuple(vec![Shape::Bool, Shape::Char]))]);
    assert_eq!(
        from_str("<r><p>1</p><p>c</p><p>ignored</p></r>", &pair),
        Ok(Value::Tuple(vec![Value::Tuple(vec![Value::Bool(true), Value::Char('c')])]))
    );
    assert_eq!(from_str("<r><p>1</p></r>", &pair), Err(custom("missing field `p`")));
    assert_eq!(
        from_str("<a>1</a><b>2</b><c>3</c>", &list(Shape::Integer(IntKind::U8))),
        Ok(Value::List(vec![Value::UInt(1), Value::UInt(2), Value::UInt(3)]))
    );
    assert_eq!(
        from_str("<p><x>1</x>text<y>c</y></p>", &Shape::Tuple(vec![Shape::Tuple(vec![
            Shape::Integer(IntKind::U8),
            Shape::Char
        ])])),
        Ok(Value::Tuple(vec![Value::Tuple(vec![Value::UInt(1), Value::Char('c')])]))
    );
}

#[test]
fn value_field_takes_the_first_child_element() {
    let shape = record(vec![field("$value", Shape::String)]);
    assert_eq!(
        from_str("<r>text<any>first</any><other>second</other></r>", &shape),
        Ok(Value::Tuple(vec![string("first")]))
    );
}

#[test]
fn tagged_unions() {
    let shape = Shape::Enum(vec![
        field("Unit", Shape::Unit),
        field("Number", Shape::Integer(IntKind::I64)),
        field("Point", record(vec![field("@x", Shape::Float), field("@y", Shape::Float)])),
    ]);
    assert_eq!(from_str("<Unit/>", &shape), Ok(Value::Variant(0, Box::new(Value::Unit))));
    assert_eq!(
        from_str("<ns:Unit>ignored</ns:Unit>", &shape),
        Ok(Value::Variant(0, Box::new(Value::Unit)))
    );
    assert_eq!(
        from_str("<Number>-5</Number>", &shape),
        Ok(Value::Variant(1, Box::new(Value::Int(-5))))
    );
    assert_eq!(
        from_str("<Point x='1' y='2.5'/>", &shape),
        Ok(Value::Variant(2, Box::new(Value::Tuple(vec![float("1"), float("2.5")]))))
    );
    assert_eq!(from_str("<Other/>", &shape), Err(custom("unknown variant `Other`")));

    // in text, a variant that holds nothing is chosen by its name
    let holder = record(vec![field("@kind", clone_enum(&shape)), field("$text", list(shape))]);
    assert_eq!(
        from_str("<r kind='Unit'>Unit  Unit</r>", &holder),
        Ok(Value::Tuple(vec![
            Value::Variant(0, Box::new(Value::Unit)),
            Value::List(vec![
                Value::Variant(0, Box::new(Value::Unit)),
                Value::Variant(0, Box::new(Value::Unit))
            ]),
        ]))
    );
    assert_eq!(
        from_str("<r kind='Number'>Unit</r>", &holder),
        Err(custom("unknown variant `Number`"))
    );
}

fn clone_enum(shape: &Shape) -> Shape {
    match shape {
        Shape::Enum(variants) => Shape::Enum(
            variants
                .iter()
                .map(|v| Field {
                    name: v.name.clone(),
                    shape: match &v.shape {
                        Shape::Struct(_) => Shape::Struct(vec![]),
                        other => clone_shape(other),
                    },
                })
                .collect(),
        ),
        other => panic!("no tagged union: {:?}", other),
    }
}

#[test]
fn maps_hold_attributes_then_children_then_text() {
    let data = from_str(
        "<r b='2' ns:a='1' xmlns:ns='u'>t<ns:c>3</ns:c>&amp;<d/></r>",
        &dict(Shape::String, Shape::String),
    )
    .unwrap();
    assert_eq!(
        data,
        Value::Dict(vec![
            (string("@b"), string("2")),
            (string("@ns:a"), string("1")),
            (string("@xmlns:ns"), string("u")),
            (string("c"), string("3")),
            (string("d"), string("")),
            (string("$text"), string("t&")),
        ])
    );
    // a key that is made up cannot be borrowed
    assert_eq!(
        from_str("<r a='1'/>", &dict(Shape::BorrowedStr, Shape::String)),
        Err(custom("invalid type: string \"@a\", expected a borrowed string"))
    );
}

#[test]
fn primitives_must_be_written_as_such() {
    let bad = |shape: Shape, text: &str, expected: &str| {
        let xml = format!("<r>{}</r>", text);
        assert_eq!(
            from_str(&xml, &shape),
            Err(custom(&format!("invalid type: string {:?}, expected {}", text, expected)))
        );
    };
    bad(Shape::Bool, "yes", "a boolean");
    bad(Shape::Bool, "TRUE", "a boolean");
    bad(Shape::Bool, "", "a boolean");
    bad(Shape::Integer(IntKind::I8), "128", "i8");
    bad(Shape::Integer(IntKind::I8), "-129", "i8");
    bad(Shape::Integer(IntKind::U8), "256", "u8");
    bad(Shape::Integer(IntKind::U8), "-0", "u8");
    bad(Shape::Integer(IntKind::U16), "65536", "u16");
    bad(Shape::Integer(IntKind::I16), "32768", "i16");
    bad(Shape::Integer(IntKind::I32), "2147483648", "i32");
    bad(Shape::Integer(IntKind::U32), "4294967296", "u32");
    bad(Shape::Integer(IntKind::I64), "9223372036854775808", "i64");
    bad(Shape::Integer(IntKind::U64), "18446744073709551616", "u64");
    bad(Shape::Integer(IntKind::I128), "170141183460469231731687303715884105728", "i128");
    bad(Shape::Integer(IntKind::I128), "-170141183460469231731687303715884105729", "i128");
    bad(Shape::Integer(IntKind::U128), "340282366920938463463374607431768211456", "u128");
    bad(Shape::Integer(IntKind::U128), "99999999999999999999999999999999999999999", "u128");
    bad(Shape::Integer(IntKind::I32), "", "i32");
    bad(Shape::Integer(IntKind::I32), "+", "i32");
    bad(Shape::Integer(IntKind::I32), "-", "i32");
    bad(Shape::Integer(IntKind::I32), "1 2", "i32");
    bad(Shape::Integer(IntKind::I32), "0x10", "i32");
    bad(Shape::Integer(IntKind::I32), "1.0", "i32");
    bad(Shape::Integer(IntKind::I32), "--1", "i32");
    bad(Shape::Float, "1.2.3", "a floating point number");
    bad(Shape::Float, "e5", "a floating point number");
    bad(Shape::Float, ".", "a floating point number");
    bad(Shape::Float, "1e", "a floating point number");
    bad(Shape::Float, "1e+", "a floating point number");
    bad(Shape::Float, "", "a floating point number");
    bad(Shape::Float, "in", "a floating point number");
    bad(Shape::Float, "0x1p3", "a floating point number");
    bad(Shape::Char, "ab", "a character");
    bad(Shape::Char, "", "a character");
    bad(Shape::Char, "é́", "a character");
}

#[test]
fn integers_at_the_limits_of_their_kinds() {
    let ok = |kind: IntKind, text: &str, expected: Value| {
        let xml = format!("<r>{}</r>", text);
        assert_eq!(from_str(&xml, &Shape::Integer(kind)), Ok(expected));
    };
    ok(IntKind::I8, "-128", Value::Int(-128));
    ok(IntKind::I8, "127", Value::Int(127));
    ok(IntKind::I8, "+127", Value::Int(127));
    ok(IntKind::I8, "-0", Value::Int(0));
    ok(IntKind::I8, "000000000000000000000000000000000000000000001", Value::Int(1));
    ok(IntKind::U8, "255", Value::UInt(255));
    ok(IntKind::U8, "+0", Value::UInt(0));
    ok(IntKind::I16, "-32768", Value::Int(-32768));
    ok(IntKind::U16, "65535", Value::UInt(65535));
    ok(IntKind::I32, "-2147483648", Value::Int(i32::MIN as i128));
    ok(IntKind::I32, "2147483647", Value::Int(i32::MAX as i128));
    ok(IntKind::U32, "4294967295", Value::UInt(u32::MAX as u128));
    ok(IntKind::I64, "-9223372036854775808", Value::Int(i64::MIN as i128));
    ok(IntKind::I64, "9223372036854775807", Value::Int(i64::MAX as i128));
    ok(IntKind::U64, "18446744073709551615", Value::UInt(u64::MAX as u128));
    ok(IntKind::I128, "-170141183460469231731687303715884105728", Value::Int(i128::MIN));
    ok(IntKind::I128, "170141183460469231731687303715884105727", Value::Int(i128::MAX));
    ok(IntKind::U128, "340282366920938463463374607431768211455", Value::UInt(u128::MAX));
}

#[test]
fn floats_are_what_the_standard_library_reads() {
    let accepted = [
        "0", "42", "4.2", "-4.2", "+4.2", "5.", ".5", "-.5", "1e5", "1E5", "1e+5", "1e-5",
        "1.5e10", "5.e3", ".5e3", "inf", "-inf", "+inf", "Infinity", "INFINITY", "nan", "NaN",
        "-nan", "00012.50",
    ];
    for text in accepted {
        let xml = format!("<r>{}</r>", text);
        let v = from_str(&xml, &Shape::Float).unwrap();
        assert_eq!(v, float(text));
        assert!(text.parse::<f64>().is_ok(), "{}", text);
    }
    let refused = ["", ".", "e5", "1e", "1e+", "1.2.3", "+", "-", "in", "infinit", "1f", " 1", "1 ", "0x10", "1_0", "++1"];
    for text in refused {
        let shape = record(vec![field("@a", Shape::Float)]);
        let xml = format!("<r a='{}'/>", text);
        assert!(from_str(&xml, &shape).is_err(), "{}", text);
        assert!(text.parse::<f64>().is_err(), "{}", text);
    }
}

#[test]
fn characters_of_every_width() {
    for c in ['a', 'é', '€', '😀', '\u{7f}', '\u{80}', '\u{7ff}', '\u{800}', '\u{ffff}', '\u{10000}', '\u{10ffff}'] {
        let xml = format!("<r><![CDATA[{}]]></r>", c);
        assert_eq!(from_str(&xml, &Shape::Char), Ok(Value::Char(c)));
    }
    assert_eq!(from_str("<r>&#x20AC;</r>", &Shape::Char), Ok(Value::Char('€')));
}

#[test]
fn text_that_is_no_utf8_cannot_be_decoded() {
    let doc: &[u8] = b"<r a='\xff'>\xc3\x28</r>";
    assert_eq!(from_bytes(doc, &Shape::String), Err(DeError::NonDecodable(b"\xc3\x28".to_vec())));
    assert_eq!(from_bytes(doc, &Shape::Bool), Err(DeError::NonDecodable(b"\xc3\x28".to_vec())));
    assert_eq!(
        from_bytes(doc, &record(vec![field("@a", Shape::BorrowedStr)])),
        Err(DeError::NonDecodable(b"\xff".to_vec()))
    );
    assert_eq!(from_bytes(doc, &Shape::Unit), Ok(Value::Unit));
}

#[test]
fn compound_shapes_take_no_text() {
    let shape = record(vec![field("@a", elements())]);
    assert_eq!(
        from_str("<r a='x'/>", &shape),
        Err(unsupported("compound values are not supported in text content"))
    );
    let nested = trivial(list(list(Shape::Unit)));
    assert_eq!(
        from_str("<r>x</r>", &nested),
        Err(unsupported("compound values are not supported in text content"))
    );
}

#[test]
fn attributes_of_a_record_are_checked() {
    assert_eq!(
        from_str("<r a='1' a='2'/>", &record(vec![])),
        Err(DeError::InvalidXml(Error::Syntax {
            kind: quick_xml::errors::SyntaxKind::DuplicatedAttribute,
            offset: 7
        }))
    );
    assert_eq!(
        from_str("<r a=1/>", &unit_map()),
        Err(DeError::InvalidXml(Error::Syntax {
            kind: quick_xml::errors::SyntaxKind::UnquotedValue,
            offset: 3
        }))
    );
    assert_eq!(from_str("<r a='1' a='2'/>", &Shape::Unit), Ok(Value::Unit));
}

#[test]
fn syntax_errors_come_before_everything_else() {
    assert_eq!(
        from_str("<r><float>x</float></r><!-- open", &elements()),
        Err(DeError::InvalidXml(Error::Syntax {
            kind: quick_xml::errors::SyntaxKind::UnclosedComment,
            offset: 23
        }))
    );
}

#[test]
fn tagged_unions_chosen_by_a_part_of_the_element() {
    let variants = || {
        vec![
            field("circle", record(vec![field("@r", Shape::Float)])),
            field("square", record(vec![field("side", Shape::Integer(IntKind::U32))])),
            field("none", Shape::Unit),
        ]
    };
    let by_attribute = Shape::Tagged(b"@kind".to_vec(), variants());
    assert_eq!(
        quick_xml::de::from_str("<shape kind='circle' r='1.5'/>", &by_attribute),
        Ok(Value::Variant(0, Box::new(Value::Tuple(vec![float("1.5")]))))
    );
    assert_eq!(
        from_str("<shape kind='square'><side>4</side></shape>", &by_attribute),
        Ok(Value::Variant(1, Box::new(Value::Tuple(vec![Value::UInt(4)]))))
    );
    assert_eq!(
        from_str("<shape kind='n&#111;ne'/>", &by_attribute),
        Ok(Value::Variant(2, Box::new(Value::Unit)))
    );
    assert_eq!(
        from_str("<shape kind='triangle'/>", &by_attribute),
        Err(custom("unknown variant `triangle`"))
    );
    assert_eq!(from_str("<shape r='1'/>", &by_attribute), Err(custom("missing field `@kind`")));
    assert_eq!(
        from_str("<shape kind='circle'/>", &by_attribute),
        Err(custom("missing field `@r`"))
    );

    let by_element = Shape::Tagged(b"kind".to_vec(), variants());
    assert_eq!(
        from_str("<shape><side>4</side><kind>square</kind></shape>", &by_element),
        Ok(Value::Variant(1, Box::new(Value::Tuple(vec![Value::UInt(4)]))))
    );
    assert_eq!(from_str("<shape/>", &by_element), Err(custom("missing field `kind`")));
    assert_eq!(
        from_str("<r a='circle'/>", &record(vec![field("@a", by_element)])),
        Err(unsupported("compound values are not supported in text content"))
    );
}

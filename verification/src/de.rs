//! Binding: from the elements of a document to the values that a shape
//! asks for.

use vstd::prelude::*;
use vstd::string::StringSliceAdditionalSpecFns;
use vstd::utf8::valid_utf8;
use crate::attributes::{Attribute, attributes_view, attrs_spec, AttrSpec, parse_attributes};
use crate::document::{document_spec, read_document};
use crate::errors::{Error, ErrorSpec};
use crate::escape::{EntityResolver, lemma_unescape_plain, NoEntities, unescape_spec, unescape_with};
use crate::events::{Event, events_view, EventSpec};
use crate::name::{local_name, local_name_spec, prefix, prefix_spec};
use crate::reader::{Config, initial_state, step};
use crate::shape::{
    DeError, DeErrorSpec, entries_view, Field, from_xml_error, Shape, Value, value_view,
    values_view, ValueSpec,
};
use crate::simple::{
    atom_spec, attr_value_spec, binary_unsupported, bind_atom, bind_attribute, bind_text,
    find_variant, lemma_values_push, lemma_values_step, text_spec, unknown_variant,
    unknown_variant_spec, values_then, variant_index,
};
use crate::tree::{
    document_nodes, Element, element_view, ElementSpec, Node, node_view, nodes_view, NodeSpec,
    parse_nodes,
};
use crate::utils::{AMP, CowBytes, extend, slice_eq, subslice, to_vec};

verus! {

/// The text that an element holds: the text itself, the number of pieces
/// that it was put together from, and whether it is a borrow of the
/// document.
pub struct Gathered {
    pub text: Seq<u8>,
    pub pieces: nat,
    pub borrowed: bool,
}

/// The text of the children from `i` on: the decoded character data and the
/// content of the CDATA sections, one after the other. Child elements
/// contribute nothing.
///
/// The text is a borrow of the document where it is empty, or is one piece
/// in which nothing had to be decoded. The first piece that cannot be
/// decoded decides the error.
pub open spec fn gather<R: EntityResolver>(children: Seq<NodeSpec>, i: int, resolver: R) -> Result<
    Gathered,
    ErrorSpec,
>
    decreases children.len() - i,
{
    if i < 0 || i >= children.len() {
        Ok(Gathered { text: Seq::empty(), pieces: 0, borrowed: true })
    } else {
        match children[i] {
            NodeSpec::Element(_) => gather(children, i + 1, resolver),
            NodeSpec::Text(raw) => match unescape_spec(raw, resolver) {
                Err(e) => Err(e),
                Ok(t) => match gather(children, i + 1, resolver) {
                    Err(e) => Err(e),
                    Ok(g) => Ok(
                        Gathered {
                            text: t + g.text,
                            pieces: g.pieces + 1,
                            borrowed: g.pieces == 0 && !raw.contains(AMP),
                        },
                    ),
                },
            },
            NodeSpec::CData(d) => match gather(children, i + 1, resolver) {
                Err(e) => Err(e),
                Ok(g) => Ok(
                    Gathered { text: d + g.text, pieces: g.pieces + 1, borrowed: g.pieces == 0 },
                ),
            },
        }
    }
}

/// Gathers the text of an element's children.
pub fn gather_text<'a, R: EntityResolver>(children: &Vec<Node<'a>>, resolver: &R) -> (r: Result<
    (CowBytes<'a>, usize),
    Error,
>)
    ensures
        match r {
            Ok((text, pieces)) => gather(nodes_view(children@), 0, *resolver) == Ok::<
                Gathered,
                ErrorSpec,
            >(Gathered { text: text@, pieces: pieces as nat, borrowed: text is Borrowed }),
            Err(e) => gather(nodes_view(children@), 0, *resolver) == Err::<Gathered, ErrorSpec>(
                e@,
            ),
        },
{
    let ghost nodes = nodes_view(children@);
    let n = children.len();
    let mut i: usize = n;
    let mut acc: Result<(CowBytes<'a>, usize), Error> = Ok((CowBytes::Borrowed(&[]), 0));
    assert(acc->Ok_0.0@ =~= Seq::<u8>::empty());
    while i > 0
        invariant
            i <= n == children@.len(),
            nodes == nodes_view(children@),
            match acc {
                Ok((text, pieces)) => pieces == 0 ==> text@.len() == 0,
                Err(_) => true,
            },
            match acc {
                Ok((text, pieces)) => gather(nodes, i as int, *resolver) == Ok::<
                    Gathered,
                    ErrorSpec,
                >(Gathered { text: text@, pieces: pieces as nat, borrowed: text is Borrowed })
                    && pieces <= children@.len() - i,
                Err(e) => gather(nodes, i as int, *resolver) == Err::<Gathered, ErrorSpec>(e@),
            },
        decreases i,
    {
        i -= 1;
        assert(nodes[i as int] == node_view(children@[i as int]));
        match &children[i] {
            Node::Element(_) => {},
            Node::Text(raw) => {
                match unescape_with(*raw, resolver) {
                    Err(e) => {
                        acc = Err(e);
                    },
                    Ok(t) => {
                        acc = match acc {
                            Err(e) => Err(e),
                            Ok((rest, pieces)) => {
                                if pieces == 0 {
                                    assert(t@ + rest@ =~= t@);
                                    Ok((t, 1))
                                } else {
                                    let mut joined = t.into_owned();
                                    extend(&mut joined, rest.as_slice());
                                    Ok((CowBytes::Owned(joined), pieces + 1))
                                }
                            },
                        };
                    },
                }
            },
            Node::CData(d) => {
                acc = match acc {
                    Err(e) => Err(e),
                    Ok((rest, pieces)) => {
                        if pieces == 0 {
                            assert(d@ + rest@ =~= d@);
                            Ok((CowBytes::Borrowed(*d), 1))
                        } else {
                            let mut joined = to_vec(*d);
                            extend(&mut joined, rest.as_slice());
                            Ok((CowBytes::Owned(joined), pieces + 1))
                        }
                    },
                };
            },
        }
    }
    acc
}

/// `xmlns`
pub open spec fn xmlns() -> Seq<u8> {
    "xmlns".spec_bytes()
}

/// Whether a name of the document is the name that a field asks for: the
/// local parts must agree. A name with the prefix `xmlns` has no local part
/// of its own and must agree as a whole.
pub open spec fn name_matches(key: Seq<u8>, name: Seq<u8>) -> bool {
    if prefix_spec(key) == Some(xmlns()) {
        key == name
    } else {
        local_name_spec(key) == name
    }
}

/// Tests whether a name of the document is the name that a field asks for.
pub fn matches_name(key: &[u8], name: &[u8]) -> (r: bool)
    ensures
        r == name_matches(key@, name@),
{
    let bound = match prefix(key) {
        Some(p) => slice_eq(p, "xmlns".as_bytes()),
        None => false,
    };
    if bound {
        slice_eq(key, name)
    } else {
        slice_eq(local_name(key), name)
    }
}

/// The position at or after `from` of the first attribute that bears the
/// given name, or the number of attributes where there is none.
pub open spec fn attr_index(attrs: Seq<AttrSpec>, name: Seq<u8>, from: int) -> int
    decreases attrs.len() - from,
{
    if from < 0 || from >= attrs.len() {
        attrs.len() as int
    } else if name_matches(attrs[from].key, name) {
        from
    } else {
        attr_index(attrs, name, from + 1)
    }
}

/// Finds the first attribute that bears the given name.
pub fn find_attribute(attrs: &Vec<Attribute>, name: &[u8]) -> (k: usize)
    ensures
        k == attr_index(attributes_view(attrs@), name@, 0),
        k <= attrs@.len(),
{
    let mut i: usize = 0;
    while i < attrs.len()
        invariant
            i <= attrs@.len(),
            attr_index(attributes_view(attrs@), name@, 0) == attr_index(
                attributes_view(attrs@),
                name@,
                i as int,
            ),
        decreases attrs@.len() - i,
    {
        assert(attributes_view(attrs@)[i as int] == attrs@[i as int]@);
        if matches_name(attrs[i].key, name) {
            return i;
        }
        i += 1;
    }
    i
}

/// Whether a node is an element that bears the name that a field asks for;
/// with no name asked for, whether it is an element at all.
pub open spec fn is_child(node: NodeSpec, name: Option<Seq<u8>>) -> bool {
    match node {
        NodeSpec::Element(e) => match name {
            Some(n) => name_matches(e.name, n),
            None => true,
        },
        _ => false,
    }
}

/// The position at or after `from` of the first child element that bears
/// the given name, or any name where none is given; the number of children
/// where there is none.
pub open spec fn child_index(children: Seq<NodeSpec>, name: Option<Seq<u8>>, from: int) -> int
    decreases children.len() - from,
{
    if from < 0 || from >= children.len() {
        children.len() as int
    } else if is_child(children[from], name) {
        from
    } else {
        child_index(children, name, from + 1)
    }
}

/// The first child element at or after `from` found, its position lies
/// between `from` and the number of children.
pub proof fn lemma_child_index_bounds(children: Seq<NodeSpec>, name: Option<Seq<u8>>, from: int)
    requires
        0 <= from <= children.len(),
    ensures
        from <= child_index(children, name, from) <= children.len(),
        child_index(children, name, from) < children.len() ==> is_child(
            children[child_index(children, name, from)],
            name,
        ),
    decreases children.len() - from,
{
    if from < children.len() && !is_child(children[from], name) {
        lemma_child_index_bounds(children, name, from + 1);
    }
}

/// The name that is asked for, as a mathematical value.
pub open spec fn name_view(name: Option<&[u8]>) -> Option<Seq<u8>> {
    match name {
        Some(n) => Some(n@),
        None => None,
    }
}

/// Finds the first child element at or after `from` that bears the given
/// name, or any name where none is given.
pub fn find_child<'a>(children: &Vec<Node<'a>>, name: Option<&[u8]>, from: usize) -> (k: usize)
    requires
        from <= children@.len(),
    ensures
        k == child_index(nodes_view(children@), name_view(name), from as int),
        from <= k <= children@.len(),
        k < children@.len() ==> children@[k as int] is Element,
{
    let mut i: usize = from;
    while i < children.len()
        invariant
            from <= i <= children@.len(),
            child_index(nodes_view(children@), name_view(name), from as int) == child_index(
                nodes_view(children@),
                name_view(name),
                i as int,
            ),
        decreases children@.len() - i,
    {
        assert(nodes_view(children@)[i as int] == node_view(children@[i as int]));
        match &children[i] {
            Node::Element(e) => {
                let found = match name {
                    Some(n) => matches_name(e.name, n),
                    None => true,
                };
                if found {
                    return i;
                }
            },
            _ => {},
        }
        i += 1;
    }
    i
}

/// The message for a field that the document lacks: ``missing field `N` ``.
pub open spec fn missing_field_spec(name: Seq<u8>) -> Seq<u8> {
    "missing field `".spec_bytes() + name + "`".spec_bytes()
}

/// What a field gets that the document lacks: an option is absent, and
/// everything else is an error that names the field.
pub open spec fn missing_spec(name: Seq<u8>, shape: Shape) -> Result<ValueSpec, DeErrorSpec> {
    if shape is Optional {
        Ok(ValueSpec::Absent)
    } else {
        Err(DeErrorSpec::Custom(missing_field_spec(name)))
    }
}

/// Gives a field that the document lacks what it gets.
pub fn missing<'a>(name: &[u8], shape: &Shape) -> (r: Result<Value<'a>, DeError>)
    ensures
        match r {
            Ok(v) => missing_spec(name@, *shape) == Ok::<ValueSpec, DeErrorSpec>(value_view(v)),
            Err(e) => missing_spec(name@, *shape) == Err::<ValueSpec, DeErrorSpec>(e@),
        },
{
    if shape.is_optional() {
        Ok(Value::Absent)
    } else {
        let mut m: Vec<u8> = Vec::new();
        extend(&mut m, "missing field `".as_bytes());
        extend(&mut m, name);
        extend(&mut m, "`".as_bytes());
        assert(m@ =~= missing_field_spec(name@));
        Err(DeError::Custom(m))
    }
}

/// Whether an element holds character data or a CDATA section.
pub open spec fn has_text(children: Seq<NodeSpec>) -> bool {
    exists|i: int| 0 <= i < children.len() && !(#[trigger] children[i] is Element)
}

/// Tests whether an element holds character data or a CDATA section.
pub fn holds_text<'a>(children: &Vec<Node<'a>>) -> (r: bool)
    ensures
        r == has_text(nodes_view(children@)),
{
    let mut i: usize = 0;
    while i < children.len()
        invariant
            i <= children@.len(),
            forall|j: int| 0 <= j < i ==> (#[trigger] nodes_view(children@)[j]) is Element,
        decreases children@.len() - i,
    {
        assert(nodes_view(children@)[i as int] == node_view(children@[i as int]));
        match &children[i] {
            Node::Element(_) => {},
            _ => {
                return true;
            },
        }
        i += 1;
    }
    false
}

/// Entries put before the entries that are still to come, or the error in
/// their place.
pub open spec fn entries_then(
    head: Seq<(ValueSpec, ValueSpec)>,
    rest: Result<Seq<(ValueSpec, ValueSpec)>, DeErrorSpec>,
) -> Result<Seq<(ValueSpec, ValueSpec)>, DeErrorSpec> {
    match rest {
        Ok(more) => Ok(head + more),
        Err(e) => Err(e),
    }
}

/// `@`, then the name of an attribute: the key under which a map holds the
/// attribute.
pub open spec fn attribute_key(key: Seq<u8>) -> Seq<u8> {
    seq!['@' as u8] + key
}

/// `$text`
pub open spec fn text_name() -> Seq<u8> {
    "$text".spec_bytes()
}

/// `$value`
pub open spec fn value_name() -> Seq<u8> {
    "$value".spec_bytes()
}

/// One entry of a map, from its key as text and what its value gives.
pub open spec fn entry_spec(
    key: Seq<u8>,
    key_borrowed: bool,
    key_shape: Shape,
    value: Result<ValueSpec, DeErrorSpec>,
) -> Result<(ValueSpec, ValueSpec), DeErrorSpec> {
    match atom_spec(key, key_borrowed, key_shape, false) {
        Err(e) => Err(e),
        Ok(k) => match value {
            Err(e) => Err(e),
            Ok(v) => Ok((k, v)),
        },
    }
}

/// The entries that the attributes from `i` on give to a map: for each,
/// its name behind an `@` as the key, and its value.
pub open spec fn dict_attrs_spec<R: EntityResolver>(
    attrs: Seq<AttrSpec>,
    key: Shape,
    value: Shape,
    i: int,
    resolver: R,
) -> Result<Seq<(ValueSpec, ValueSpec)>, DeErrorSpec>
    decreases attrs.len() - i,
{
    if i < 0 || i >= attrs.len() {
        Ok(Seq::empty())
    } else {
        match entry_spec(
            attribute_key(attrs[i].key),
            false,
            key,
            attr_value_spec(attrs[i].value, value, resolver),
        ) {
            Err(e) => Err(e),
            Ok(entry) => entries_then(
                seq![entry],
                dict_attrs_spec(attrs, key, value, i + 1, resolver),
            ),
        }
    }
}

/// The name of the variant that a part of an element holds: the decoded
/// value of the attribute whose name follows the `@` of the tag's name, or
/// the text of the first child element of the tag's name. An element that
/// lacks the part is an error that names it.
pub open spec fn tag_spec<R: EntityResolver>(
    e: ElementSpec,
    attrs: Seq<AttrSpec>,
    tag: Seq<u8>,
    resolver: R,
) -> Result<Seq<u8>, DeErrorSpec> {
    if tag.len() > 0 && tag[0] == '@' as u8 {
        let k = attr_index(attrs, tag.skip(1), 0);
        if 0 <= k < attrs.len() {
            match unescape_spec(attrs[k].value, resolver) {
                Ok(name) => Ok(name),
                Err(x) => Err(DeErrorSpec::InvalidXml(x)),
            }
        } else {
            Err(DeErrorSpec::Custom(missing_field_spec(tag)))
        }
    } else {
        let k = child_index(e.children, Some(tag), 0);
        if 0 <= k < e.children.len() {
            match e.children[k] {
                NodeSpec::Element(c) => match gather(c.children, 0, resolver) {
                    Ok(g) => Ok(g.text),
                    Err(x) => Err(DeErrorSpec::InvalidXml(x)),
                },
                _ => Err(DeErrorSpec::ExpectedStart),
            }
        } else {
            Err(DeErrorSpec::Custom(missing_field_spec(tag)))
        }
    }
}

/// What an element gives for a shape.
///
/// - A unit takes any element.
/// - Binary data is not supported.
/// - A record takes for each of its fields what the field's name stands
///   for; the values come in the order of the fields.
/// - A tuple takes the child elements in document order, one for each of
///   its items.
/// - A map takes an entry for each attribute, then one for each child
///   element under its local name, then one under `$text` for the text, if
///   the element holds any.
/// - A tagged union takes the variant that bears the local name of the
///   element or, where a part of the element holds the name of the variant,
///   the variant that this part names.
/// - An option is absent where it holds a primitive and the element holds
///   no text, and present otherwise.
/// - Every other shape takes the text of the element.
pub open spec fn element_spec<R: EntityResolver>(e: ElementSpec, shape: Shape, resolver: R) -> Result<
    ValueSpec,
    DeErrorSpec,
>
    decreases shape, 0nat, 0nat,
{
    match shape {
        Shape::Unit => Ok(ValueSpec::Unit),
        Shape::Bytes => Err(DeErrorSpec::Unsupported(binary_unsupported())),
        Shape::Struct(fields) => match attrs_spec(e.attrs, true) {
            Err(x) => Err(DeErrorSpec::InvalidXml(x)),
            Ok(attrs) => match fields_spec(e, attrs, fields@, 0, resolver) {
                Ok(values) => Ok(ValueSpec::Tuple(values)),
                Err(x) => Err(x),
            },
        },
        Shape::Tuple(shapes) => match tuple_spec(
            e.children,
            None,
            value_name(),
            shapes@,
            0,
            0,
            resolver,
        ) {
            Ok(values) => Ok(ValueSpec::Tuple(values)),
            Err(x) => Err(x),
        },
        Shape::Dict(key, value) => match attrs_spec(e.attrs, true) {
            Err(x) => Err(DeErrorSpec::InvalidXml(x)),
            Ok(attrs) => match dict_attrs_spec(attrs, *key, *value, 0, resolver) {
                Err(x) => Err(x),
                Ok(first) => match dict_children_spec(e.children, *key, *value, 0, resolver) {
                    Err(x) => Err(x),
                    Ok(second) => match gather(e.children, 0, resolver) {
                        Err(x) => Err(DeErrorSpec::InvalidXml(x)),
                        Ok(g) => if g.pieces == 0 {
                            Ok(ValueSpec::Dict(first + second))
                        } else {
                            match entry_spec(
                                text_name(),
                                true,
                                *key,
                                text_spec(g.text, g.borrowed, *value),
                            ) {
                                Err(x) => Err(x),
                                Ok(entry) => Ok(ValueSpec::Dict(first + second + seq![entry])),
                            }
                        },
                    },
                },
            },
        },
        Shape::Enum(variants) => {
            let k = variant_index(variants@, local_name_spec(e.name), 0);
            if 0 <= k < variants@.len() {
                match element_spec(e, variants@[k].shape, resolver) {
                    Ok(v) => Ok(ValueSpec::Variant(k, Box::new(v))),
                    Err(x) => Err(x),
                }
            } else {
                Err(DeErrorSpec::Custom(unknown_variant_spec(local_name_spec(e.name))))
            }
        },
        Shape::Tagged(tag, variants) => match attrs_spec(e.attrs, true) {
            Err(x) => Err(DeErrorSpec::InvalidXml(x)),
            Ok(attrs) => match tag_spec(e, attrs, tag@, resolver) {
                Err(x) => Err(x),
                Ok(name) => {
                    let k = variant_index(variants@, name, 0);
                    if 0 <= k < variants@.len() {
                        match element_spec(e, variants@[k].shape, resolver) {
                            Ok(v) => Ok(ValueSpec::Variant(k, Box::new(v))),
                            Err(x) => Err(x),
                        }
                    } else {
                        Err(DeErrorSpec::Custom(unknown_variant_spec(name)))
                    }
                },
            },
        },
        Shape::Optional(inner) => if inner.is_primitive() && !has_text(e.children) {
            Ok(ValueSpec::Absent)
        } else {
            match element_spec(e, *inner, resolver) {
                Ok(v) => Ok(ValueSpec::Present(Box::new(v))),
                Err(x) => Err(x),
            }
        },
        _ => match gather(e.children, 0, resolver) {
            Err(x) => Err(DeErrorSpec::InvalidXml(x)),
            Ok(g) => text_spec(g.text, g.borrowed, shape),
        },
    }
}

/// The values of the fields from `i` on, in the order of the fields. The
/// first field that cannot be bound decides the error.
pub open spec fn fields_spec<R: EntityResolver>(
    e: ElementSpec,
    attrs: Seq<AttrSpec>,
    fields: Seq<Field>,
    i: int,
    resolver: R,
) -> Result<Seq<ValueSpec>, DeErrorSpec>
    decreases fields, fields.len() - i, 0nat,
{
    if i < 0 || i >= fields.len() {
        Ok(Seq::empty())
    } else {
        match field_spec(e, attrs, fields[i].name@, fields[i].shape, resolver) {
            Err(x) => Err(x),
            Ok(v) => values_then(seq![v], fields_spec(e, attrs, fields, i + 1, resolver)),
        }
    }
}

/// What a field of a record gets from an element.
///
/// - A name that starts with `@` stands for the attribute whose name
///   follows the `@`.
/// - `$text` stands for the text of the element.
/// - `$value` stands for the child elements, whatever their names.
/// - Every other name stands for the child elements of that name.
///
/// A field that the document lacks is absent where it is an option and an
/// error otherwise.
pub open spec fn field_spec<R: EntityResolver>(
    e: ElementSpec,
    attrs: Seq<AttrSpec>,
    name: Seq<u8>,
    shape: Shape,
    resolver: R,
) -> Result<ValueSpec, DeErrorSpec>
    decreases shape, 2nat, 0nat,
{
    if name.len() > 0 && name[0] == '@' as u8 {
        let k = attr_index(attrs, name.skip(1), 0);
        if 0 <= k < attrs.len() {
            attr_value_spec(attrs[k].value, shape, resolver)
        } else {
            missing_spec(name, shape)
        }
    } else if name == text_name() {
        match gather(e.children, 0, resolver) {
            Err(x) => Err(DeErrorSpec::InvalidXml(x)),
            Ok(g) => if g.pieces == 0 {
                missing_spec(name, shape)
            } else {
                text_spec(g.text, g.borrowed, shape)
            },
        }
    } else if name == value_name() {
        named_spec(e.children, None, name, shape, resolver)
    } else {
        named_spec(e.children, Some(name), name, shape, resolver)
    }
}

/// What the child elements of a name, or of any name where none is given,
/// give for a shape. `label` is the name of the field in error messages.
///
/// - A sequence takes all of them, in document order.
/// - A tuple takes the first of them, one for each of its items.
/// - An option is absent where there is none, or where it holds a primitive
///   and the first of them holds no text; it is present otherwise.
/// - Every other shape takes the first of them.
///
/// Where there is none, anything but an option is an error.
pub open spec fn named_spec<R: EntityResolver>(
    children: Seq<NodeSpec>,
    name: Option<Seq<u8>>,
    label: Seq<u8>,
    shape: Shape,
    resolver: R,
) -> Result<ValueSpec, DeErrorSpec>
    decreases shape, 1nat, 0nat,
{
    let k = child_index(children, name, 0);
    match shape {
        Shape::List(inner) => if !(0 <= k < children.len()) {
            Err(DeErrorSpec::Custom(missing_field_spec(label)))
        } else {
            match children_spec(children, name, *inner, 0, resolver) {
                Ok(items) => Ok(ValueSpec::List(items)),
                Err(x) => Err(x),
            }
        },
        Shape::Tuple(shapes) => match tuple_spec(children, name, label, shapes@, 0, 0, resolver) {
            Ok(items) => Ok(ValueSpec::Tuple(items)),
            Err(x) => Err(x),
        },
        Shape::Optional(inner) => if !(0 <= k < children.len()) {
            Ok(ValueSpec::Absent)
        } else {
            match children[k] {
                NodeSpec::Element(c) => if inner.is_primitive() && !has_text(c.children) {
                    Ok(ValueSpec::Absent)
                } else {
                    match named_spec(children, name, label, *inner, resolver) {
                        Ok(v) => Ok(ValueSpec::Present(Box::new(v))),
                        Err(x) => Err(x),
                    }
                },
                _ => Err(DeErrorSpec::ExpectedStart),
            }
        },
        _ => if !(0 <= k < children.len()) {
            Err(DeErrorSpec::Custom(missing_field_spec(label)))
        } else {
            match children[k] {
                NodeSpec::Element(c) => element_spec(c, shape, resolver),
                _ => Err(DeErrorSpec::ExpectedStart),
            }
        },
    }
}

/// The values that the child elements of a name from `from` on give for
/// the shape of the items of a sequence.
pub open spec fn children_spec<R: EntityResolver>(
    children: Seq<NodeSpec>,
    name: Option<Seq<u8>>,
    inner: Shape,
    from: int,
    resolver: R,
) -> Result<Seq<ValueSpec>, DeErrorSpec>
    decreases inner, 1nat, children.len() - from,
{
    let k = child_index(children, name, from);
    if from < 0 || !(from <= k < children.len()) {
        Ok(Seq::empty())
    } else {
        match children[k] {
            NodeSpec::Element(c) => match element_spec(c, inner, resolver) {
                Err(x) => Err(x),
                Ok(v) => values_then(
                    seq![v],
                    children_spec(children, name, inner, k + 1, resolver),
                ),
            },
            _ => Ok(Seq::empty()),
        }
    }
}

/// The values of the items of a tuple from the `i`-th on, each from the
/// next child element of the name at or after `from`.
pub open spec fn tuple_spec<R: EntityResolver>(
    children: Seq<NodeSpec>,
    name: Option<Seq<u8>>,
    label: Seq<u8>,
    shapes: Seq<Shape>,
    i: int,
    from: int,
    resolver: R,
) -> Result<Seq<ValueSpec>, DeErrorSpec>
    decreases shapes, shapes.len() - i, 0nat,
{
    if i < 0 || i >= shapes.len() {
        Ok(Seq::empty())
    } else {
        let k = child_index(children, name, from);
        if from < 0 || !(from <= k < children.len()) {
            Err(DeErrorSpec::Custom(missing_field_spec(label)))
        } else {
            match children[k] {
                NodeSpec::Element(c) => match element_spec(c, shapes[i], resolver) {
                    Err(x) => Err(x),
                    Ok(v) => values_then(
                        seq![v],
                        tuple_spec(children, name, label, shapes, i + 1, k + 1, resolver),
                    ),
                },
                _ => Err(DeErrorSpec::ExpectedStart),
            }
        }
    }
}

/// The entries that the child elements from `from` on give to a map: for
/// each, its local name as the key, and what it gives for the shape of the
/// values.
pub open spec fn dict_children_spec<R: EntityResolver>(
    children: Seq<NodeSpec>,
    key: Shape,
    value: Shape,
    from: int,
    resolver: R,
) -> Result<Seq<(ValueSpec, ValueSpec)>, DeErrorSpec>
    decreases value, 1nat, children.len() - from,
{
    let k = child_index(children, None, from);
    if from < 0 || !(from <= k < children.len()) {
        Ok(Seq::empty())
    } else {
        match children[k] {
            NodeSpec::Element(c) => match entry_spec(
                local_name_spec(c.name),
                true,
                key,
                element_spec(c, value, resolver),
            ) {
                Err(x) => Err(x),
                Ok(entry) => entries_then(
                    seq![entry],
                    dict_children_spec(children, key, value, k + 1, resolver),
                ),
            },
            _ => Ok(Seq::empty()),
        }
    }
}

/// A list with one more entry at its end has one more entry in its view.
proof fn lemma_entries_push(entries: Seq<(Value, Value)>, k: Value, v: Value)
    ensures
        entries_view(entries.push((k, v))) == entries_view(entries).push(
            (value_view(k), value_view(v)),
        ),
{
    assert(entries_view(entries.push((k, v))) =~= entries_view(entries).push(
        (value_view(k), value_view(v)),
    ));
}

/// One more entry read: what was read before, the entry, and what is still
/// to come are the same whole.
proof fn lemma_entries_step(
    head: Seq<(ValueSpec, ValueSpec)>,
    entry: (ValueSpec, ValueSpec),
    rest: Result<Seq<(ValueSpec, ValueSpec)>, DeErrorSpec>,
)
    ensures
        entries_then(head, entries_then(seq![entry], rest)) == entries_then(
            head.push(entry),
            rest,
        ),
{
    match rest {
        Ok(more) => {
            assert(head + (seq![entry] + more) =~= head.push(entry) + more);
        },
        Err(_) => {},
    }
}

/// Binds the key of an entry and puts it with the value.
fn bind_entry<'a>(key: CowBytes<'a>, key_shape: &Shape, value: Result<Value<'a>, DeError>) -> (r:
    Result<(Value<'a>, Value<'a>), DeError>)
    ensures
        match r {
            Ok((k, v)) => value is Ok && entry_spec(
                key@,
                key is Borrowed,
                *key_shape,
                Ok(value_view(value->Ok_0)),
            ) == Ok::<(ValueSpec, ValueSpec), DeErrorSpec>((value_view(k), value_view(v))),
            Err(e) => match value {
                Ok(v) => entry_spec(key@, key is Borrowed, *key_shape, Ok(value_view(v)))
                    == Err::<(ValueSpec, ValueSpec), DeErrorSpec>(e@),
                Err(x) => entry_spec(key@, key is Borrowed, *key_shape, Err(x@)) == Err::<
                    (ValueSpec, ValueSpec),
                    DeErrorSpec,
                >(e@),
            },
        },
{
    match bind_atom(key, key_shape, false) {
        Err(e) => Err(e),
        Ok(k) => match value {
            Err(e) => Err(e),
            Ok(v) => Ok((k, v)),
        },
    }
}

/// Binds the attributes of an element to the entries of a map.
fn bind_dict_attributes<'a, R: EntityResolver>(
    attrs: &Vec<Attribute<'a>>,
    key: &Shape,
    value: &Shape,
    resolver: &R,
) -> (r: Result<Vec<(Value<'a>, Value<'a>)>, DeError>)
    ensures
        match r {
            Ok(entries) => dict_attrs_spec(attributes_view(attrs@), *key, *value, 0, *resolver)
                == Ok::<Seq<(ValueSpec, ValueSpec)>, DeErrorSpec>(entries_view(entries@)),
            Err(e) => dict_attrs_spec(attributes_view(attrs@), *key, *value, 0, *resolver)
                == Err::<Seq<(ValueSpec, ValueSpec)>, DeErrorSpec>(e@),
        },
{
    let mut entries: Vec<(Value<'a>, Value<'a>)> = Vec::new();
    let ghost all = attributes_view(attrs@);
    let ghost whole = dict_attrs_spec(all, *key, *value, 0, *resolver);
    proof {
        match whole {
            Ok(more) => {
                assert(entries_view(entries@) + more =~= more);
            },
            Err(_) => {},
        }
    }
    let mut i: usize = 0;
    while i < attrs.len()
        invariant
            i <= attrs@.len(),
            all == attributes_view(attrs@),
            whole == dict_attrs_spec(all, *key, *value, 0, *resolver),
            whole == entries_then(
                entries_view(entries@),
                dict_attrs_spec(all, *key, *value, i as int, *resolver),
            ),
        decreases attrs@.len() - i,
    {
        assert(all[i as int] == attrs@[i as int]@);
        let mut name: Vec<u8> = Vec::new();
        name.push('@' as u8);
        extend(&mut name, attrs[i].key);
        assert(name@ =~= attribute_key(attrs@[i as int]@.key));
        let bound = bind_attribute(attrs[i].value, value, resolver);
        match bind_entry(CowBytes::Owned(name), key, bound) {
            Err(e) => {
                return Err(e);
            },
            Ok((k, v)) => {
                proof {
                    lemma_entries_push(entries@, k, v);
                    lemma_entries_step(
                        entries_view(entries@),
                        (value_view(k), value_view(v)),
                        dict_attrs_spec(all, *key, *value, i + 1, *resolver),
                    );
                }
                entries.push((k, v));
            },
        }
        i += 1;
    }
    assert(entries_view(entries@) + Seq::<(ValueSpec, ValueSpec)>::empty() =~= entries_view(
        entries@,
    ));
    Ok(entries)
}

/// Reads the name of the variant that a part of an element holds.
pub fn read_tag<'a, R: EntityResolver>(
    e: &Element<'a>,
    attrs: &Vec<Attribute<'a>>,
    tag: &[u8],
    resolver: &R,
) -> (r: Result<CowBytes<'a>, DeError>)
    ensures
        match r {
            Ok(name) => tag_spec(element_view(*e), attributes_view(attrs@), tag@, *resolver)
                == Ok::<Seq<u8>, DeErrorSpec>(name@),
            Err(x) => tag_spec(element_view(*e), attributes_view(attrs@), tag@, *resolver)
                == Err::<Seq<u8>, DeErrorSpec>(x@),
        },
{
    if tag.len() > 0 && tag[0] == '@' as u8 {
        let key = subslice(tag, 1, tag.len());
        let k = find_attribute(attrs, key);
        if k < attrs.len() {
            assert(attributes_view(attrs@)[k as int] == attrs@[k as int]@);
            match unescape_with(attrs[k].value, resolver) {
                Ok(name) => Ok(name),
                Err(x) => Err(DeError::InvalidXml(x)),
            }
        } else {
            match missing(tag, &Shape::Unit) {
                Ok(_) => vstd::pervasive::unreached(),
                Err(x) => Err(x),
            }
        }
    } else {
        let k = find_child(&e.children, Some(tag), 0);
        if k < e.children.len() {
            match gather_text(&element_at(&e.children, k).children, resolver) {
                Ok((text, _)) => Ok(text),
                Err(x) => Err(DeError::InvalidXml(x)),
            }
        } else {
            match missing(tag, &Shape::Unit) {
                Ok(_) => vstd::pervasive::unreached(),
                Err(x) => Err(x),
            }
        }
    }
}

/// Binds an element to a shape.
pub fn bind_element<'a, R: EntityResolver>(e: &Element<'a>, shape: &Shape, resolver: &R) -> (r:
    Result<Value<'a>, DeError>)
    ensures
        match r {
            Ok(v) => element_spec(element_view(*e), *shape, *resolver) == Ok::<
                ValueSpec,
                DeErrorSpec,
            >(value_view(v)),
            Err(x) => element_spec(element_view(*e), *shape, *resolver) == Err::<
                ValueSpec,
                DeErrorSpec,
            >(x@),
        },
    decreases *shape, 0nat, 0nat,
{
    match shape {
        Shape::Unit => Ok(Value::Unit),
        Shape::Bytes => Err(
            DeError::Unsupported(
                to_vec("binary data content is not supported by XML format".as_bytes()),
            ),
        ),
        Shape::Struct(fields) => match parse_attributes(e.attrs, true) {
            Err(x) => Err(DeError::InvalidXml(x)),
            Ok(attrs) => match bind_fields(e, &attrs, fields, resolver) {
                Ok(values) => Ok(Value::Tuple(values)),
                Err(x) => Err(x),
            },
        },
        Shape::Tuple(shapes) => match bind_tuple(
            &e.children,
            None,
            "$value".as_bytes(),
            shapes,
            resolver,
        ) {
            Ok(values) => Ok(Value::Tuple(values)),
            Err(x) => Err(x),
        },
        Shape::Dict(key, value) => match parse_attributes(e.attrs, true) {
            Err(x) => Err(DeError::InvalidXml(x)),
            Ok(attrs) => match bind_dict_attributes(&attrs, key, value, resolver) {
                Err(x) => Err(x),
                Ok(first) => match bind_dict_children(&e.children, key, value, resolver) {
                    Err(x) => Err(x),
                    Ok(second) => match gather_text(&e.children, resolver) {
                        Err(x) => Err(DeError::InvalidXml(x)),
                        Ok((text, pieces)) => {
                            let mut entries = first;
                            let mut second = second;
                            let ghost a = entries_view(entries@);
                            let ghost b = entries_view(second@);
                            let ghost a0 = entries@;
                            let ghost b0 = second@;
                            entries.append(&mut second);
                            assert(entries_view(entries@) =~= a + b) by {
                                assert(entries@ =~= a0 + b0);
                            }
                            if pieces == 0 {
                                Ok(Value::Dict(entries))
                            } else {
                                let bound = bind_text(text, value);
                                match bind_entry(
                                    CowBytes::Borrowed("$text".as_bytes()),
                                    key,
                                    bound,
                                ) {
                                    Err(x) => Err(x),
                                    Ok((k, v)) => {
                                        proof {
                                            lemma_entries_push(entries@, k, v);
                                            assert((a + b).push((value_view(k), value_view(v)))
                                                =~= a + b + seq![(value_view(k), value_view(v))]);
                                        }
                                        entries.push((k, v));
                                        Ok(Value::Dict(entries))
                                    },
                                }
                            }
                        },
                    },
                },
            },
        },
        Shape::Enum(variants) => {
            let name = local_name(e.name);
            let k = find_variant(variants, name);
            if k < variants.len() {
                match bind_element(e, &variants[k].shape, resolver) {
                    Ok(v) => Ok(Value::Variant(k, Box::new(v))),
                    Err(x) => Err(x),
                }
            } else {
                Err(DeError::Custom(unknown_variant(name)))
            }
        },
        Shape::Tagged(tag, variants) => match parse_attributes(e.attrs, true) {
            Err(x) => Err(DeError::InvalidXml(x)),
            Ok(attrs) => match read_tag(e, &attrs, tag.as_slice(), resolver) {
                Err(x) => Err(x),
                Ok(name) => {
                    let k = find_variant(variants, name.as_slice());
                    if k < variants.len() {
                        match bind_element(e, &variants[k].shape, resolver) {
                            Ok(v) => Ok(Value::Variant(k, Box::new(v))),
                            Err(x) => Err(x),
                        }
                    } else {
                        Err(DeError::Custom(unknown_variant(name.as_slice())))
                    }
                },
            },
        },
        Shape::Optional(inner) => if inner.takes_primitive() && !holds_text(&e.children) {
            Ok(Value::Absent)
        } else {
            match bind_element(e, inner, resolver) {
                Ok(v) => Ok(Value::Present(Box::new(v))),
                Err(x) => Err(x),
            }
        },
        _ => match gather_text(&e.children, resolver) {
            Err(x) => Err(DeError::InvalidXml(x)),
            Ok((text, _)) => bind_text(text, shape),
        },
    }
}

/// Binds an element to the fields of a record.
pub fn bind_fields<'a, R: EntityResolver>(
    e: &Element<'a>,
    attrs: &Vec<Attribute<'a>>,
    fields: &Vec<Field>,
    resolver: &R,
) -> (r: Result<Vec<Value<'a>>, DeError>)
    ensures
        match r {
            Ok(values) => fields_spec(
                element_view(*e),
                attributes_view(attrs@),
                fields@,
                0,
                *resolver,
            ) == Ok::<Seq<ValueSpec>, DeErrorSpec>(values_view(values@)),
            Err(x) => fields_spec(
                element_view(*e),
                attributes_view(attrs@),
                fields@,
                0,
                *resolver,
            ) == Err::<Seq<ValueSpec>, DeErrorSpec>(x@),
        },
    decreases fields@, fields@.len(), 0nat,
{
    let mut values: Vec<Value<'a>> = Vec::new();
    let ghost whole = fields_spec(
        element_view(*e),
        attributes_view(attrs@),
        fields@,
        0,
        *resolver,
    );
    proof {
        match whole {
            Ok(more) => {
                assert(values_view(values@) + more =~= more);
            },
            Err(_) => {},
        }
    }
    let mut i: usize = 0;
    while i < fields.len()
        invariant
            i <= fields@.len(),
            whole == fields_spec(
                element_view(*e),
                attributes_view(attrs@),
                fields@,
                0,
                *resolver,
            ),
            whole == values_then(
                values_view(values@),
                fields_spec(
                    element_view(*e),
                    attributes_view(attrs@),
                    fields@,
                    i as int,
                    *resolver,
                ),
            ),
        decreases fields@.len() - i,
    {
        match bind_field(e, attrs, fields[i].name.as_slice(), &fields[i].shape, resolver) {
            Err(x) => {
                return Err(x);
            },
            Ok(v) => {
                proof {
                    lemma_values_push(values@, v);
                    lemma_values_step(
                        values_view(values@),
                        value_view(v),
                        fields_spec(
                            element_view(*e),
                            attributes_view(attrs@),
                            fields@,
                            i + 1,
                            *resolver,
                        ),
                    );
                }
                values.push(v);
            },
        }
        i += 1;
    }
    assert(values_view(values@) + Seq::<ValueSpec>::empty() =~= values_view(values@));
    Ok(values)
}

/// Binds an element to a field of a record.
pub fn bind_field<'a, R: EntityResolver>(
    e: &Element<'a>,
    attrs: &Vec<Attribute<'a>>,
    name: &[u8],
    shape: &Shape,
    resolver: &R,
) -> (r: Result<Value<'a>, DeError>)
    ensures
        match r {
            Ok(v) => field_spec(
                element_view(*e),
                attributes_view(attrs@),
                name@,
                *shape,
                *resolver,
            ) == Ok::<ValueSpec, DeErrorSpec>(value_view(v)),
            Err(x) => field_spec(
                element_view(*e),
                attributes_view(attrs@),
                name@,
                *shape,
                *resolver,
            ) == Err::<ValueSpec, DeErrorSpec>(x@),
        },
    decreases *shape, 2nat, 0nat,
{
    if name.len() > 0 && name[0] == '@' as u8 {
        let key = subslice(name, 1, name.len());
        let k = find_attribute(attrs, key);
        if k < attrs.len() {
            assert(attributes_view(attrs@)[k as int] == attrs@[k as int]@);
            bind_attribute(attrs[k].value, shape, resolver)
        } else {
            missing(name, shape)
        }
    } else if slice_eq(name, "$text".as_bytes()) {
        match gather_text(&e.children, resolver) {
            Err(x) => Err(DeError::InvalidXml(x)),
            Ok((text, pieces)) => if pieces == 0 {
                missing(name, shape)
            } else {
                bind_text(text, shape)
            },
        }
    } else if slice_eq(name, "$value".as_bytes()) {
        bind_named(&e.children, None, name, shape, resolver)
    } else {
        bind_named(&e.children, Some(name), name, shape, resolver)
    }
}

/// The element at a position at which one stands.
fn element_at<'n, 'a>(children: &'n Vec<Node<'a>>, k: usize) -> (r: &'n Element<'a>)
    requires
        k < children@.len(),
        children@[k as int] is Element,
    ensures
        nodes_view(children@)[k as int] == NodeSpec::Element(element_view(*r)),
{
    assert(nodes_view(children@)[k as int] == node_view(children@[k as int]));
    match &children[k] {
        Node::Element(c) => c,
        _ => vstd::pervasive::unreached(),
    }
}

/// Binds the child elements of a name, or of any name where none is given,
/// to a shape.
pub fn bind_named<'a, R: EntityResolver>(
    children: &Vec<Node<'a>>,
    name: Option<&[u8]>,
    label: &[u8],
    shape: &Shape,
    resolver: &R,
) -> (r: Result<Value<'a>, DeError>)
    ensures
        match r {
            Ok(v) => named_spec(
                nodes_view(children@),
                name_view(name),
                label@,
                *shape,
                *resolver,
            ) == Ok::<ValueSpec, DeErrorSpec>(value_view(v)),
            Err(x) => named_spec(
                nodes_view(children@),
                name_view(name),
                label@,
                *shape,
                *resolver,
            ) == Err::<ValueSpec, DeErrorSpec>(x@),
        },
    decreases *shape, 1nat, 0nat,
{
    let k = find_child(children, name, 0);
    match shape {
        Shape::List(inner) => if k >= children.len() {
            missing(label, shape)
        } else {
            match bind_children(children, name, inner, resolver) {
                Ok(items) => Ok(Value::List(items)),
                Err(x) => Err(x),
            }
        },
        Shape::Tuple(shapes) => match bind_tuple(children, name, label, shapes, resolver) {
            Ok(items) => Ok(Value::Tuple(items)),
            Err(x) => Err(x),
        },
        Shape::Optional(inner) => if k >= children.len() {
            Ok(Value::Absent)
        } else if inner.takes_primitive() && !holds_text(&element_at(children, k).children) {
            Ok(Value::Absent)
        } else {
            match bind_named(children, name, label, inner, resolver) {
                Ok(v) => Ok(Value::Present(Box::new(v))),
                Err(x) => Err(x),
            }
        },
        _ => if k >= children.len() {
            missing(label, shape)
        } else {
            bind_element(element_at(children, k), shape, resolver)
        },
    }
}

/// Binds all child elements of a name to the shape of the items of a
/// sequence.
pub fn bind_children<'a, R: EntityResolver>(
    children: &Vec<Node<'a>>,
    name: Option<&[u8]>,
    inner: &Shape,
    resolver: &R,
) -> (r: Result<Vec<Value<'a>>, DeError>)
    ensures
        match r {
            Ok(items) => children_spec(
                nodes_view(children@),
                name_view(name),
                *inner,
                0,
                *resolver,
            ) == Ok::<Seq<ValueSpec>, DeErrorSpec>(values_view(items@)),
            Err(x) => children_spec(
                nodes_view(children@),
                name_view(name),
                *inner,
                0,
                *resolver,
            ) == Err::<Seq<ValueSpec>, DeErrorSpec>(x@),
        },
    decreases *inner, 1nat, children@.len(),
{
    let mut items: Vec<Value<'a>> = Vec::new();
    let ghost nodes = nodes_view(children@);
    let ghost whole = children_spec(nodes, name_view(name), *inner, 0, *resolver);
    proof {
        match whole {
            Ok(more) => {
                assert(values_view(items@) + more =~= more);
            },
            Err(_) => {},
        }
    }
    let mut from: usize = 0;
    loop
        invariant
            from <= children@.len(),
            nodes == nodes_view(children@),
            whole == children_spec(nodes, name_view(name), *inner, 0, *resolver),
            whole == values_then(
                values_view(items@),
                children_spec(nodes, name_view(name), *inner, from as int, *resolver),
            ),
        decreases children@.len() - from,
    {
        let k = find_child(children, name, from);
        if k >= children.len() {
            assert(values_view(items@) + Seq::<ValueSpec>::empty() =~= values_view(items@));
            return Ok(items);
        }
        match bind_element(element_at(children, k), inner, resolver) {
            Err(x) => {
                return Err(x);
            },
            Ok(v) => {
                proof {
                    lemma_values_push(items@, v);
                    lemma_values_step(
                        values_view(items@),
                        value_view(v),
                        children_spec(nodes, name_view(name), *inner, k + 1, *resolver),
                    );
                }
                items.push(v);
                from = k + 1;
            },
        }
    }
}

/// Binds the first child elements of a name to the items of a tuple.
pub fn bind_tuple<'a, R: EntityResolver>(
    children: &Vec<Node<'a>>,
    name: Option<&[u8]>,
    label: &[u8],
    shapes: &Vec<Shape>,
    resolver: &R,
) -> (r: Result<Vec<Value<'a>>, DeError>)
    ensures
        match r {
            Ok(items) => tuple_spec(
                nodes_view(children@),
                name_view(name),
                label@,
                shapes@,
                0,
                0,
                *resolver,
            ) == Ok::<Seq<ValueSpec>, DeErrorSpec>(values_view(items@)),
            Err(x) => tuple_spec(
                nodes_view(children@),
                name_view(name),
                label@,
                shapes@,
                0,
                0,
                *resolver,
            ) == Err::<Seq<ValueSpec>, DeErrorSpec>(x@),
        },
    decreases shapes@, shapes@.len(), 0nat,
{
    let mut items: Vec<Value<'a>> = Vec::new();
    let ghost nodes = nodes_view(children@);
    let ghost whole = tuple_spec(nodes, name_view(name), label@, shapes@, 0, 0, *resolver);
    proof {
        match whole {
            Ok(more) => {
                assert(values_view(items@) + more =~= more);
            },
            Err(_) => {},
        }
    }
    let mut from: usize = 0;
    let mut i: usize = 0;
    while i < shapes.len()
        invariant
            i <= shapes@.len(),
            from <= children@.len(),
            nodes == nodes_view(children@),
            whole == tuple_spec(nodes, name_view(name), label@, shapes@, 0, 0, *resolver),
            whole == values_then(
                values_view(items@),
                tuple_spec(
                    nodes,
                    name_view(name),
                    label@,
                    shapes@,
                    i as int,
                    from as int,
                    *resolver,
                ),
            ),
        decreases shapes@.len() - i,
    {
        let k = find_child(children, name, from);
        if k >= children.len() {
            let mut m: Vec<u8> = Vec::new();
            extend(&mut m, "missing field `".as_bytes());
            extend(&mut m, label);
            extend(&mut m, "`".as_bytes());
            assert(m@ =~= missing_field_spec(label@));
            return Err(DeError::Custom(m));
        }
        match bind_element(element_at(children, k), &shapes[i], resolver) {
            Err(x) => {
                return Err(x);
            },
            Ok(v) => {
                proof {
                    lemma_values_push(items@, v);
                    lemma_values_step(
                        values_view(items@),
                        value_view(v),
                        tuple_spec(
                            nodes,
                            name_view(name),
                            label@,
                            shapes@,
                            i + 1,
                            k + 1,
                            *resolver,
                        ),
                    );
                }
                items.push(v);
                from = k + 1;
            },
        }
        i += 1;
    }
    assert(values_view(items@) + Seq::<ValueSpec>::empty() =~= values_view(items@));
    Ok(items)
}

/// Binds the child elements of an element to the entries of a map.
pub fn bind_dict_children<'a, R: EntityResolver>(
    children: &Vec<Node<'a>>,
    key: &Shape,
    value: &Shape,
    resolver: &R,
) -> (r: Result<Vec<(Value<'a>, Value<'a>)>, DeError>)
    ensures
        match r {
            Ok(entries) => dict_children_spec(nodes_view(children@), *key, *value, 0, *resolver)
                == Ok::<Seq<(ValueSpec, ValueSpec)>, DeErrorSpec>(entries_view(entries@)),
            Err(x) => dict_children_spec(nodes_view(children@), *key, *value, 0, *resolver)
                == Err::<Seq<(ValueSpec, ValueSpec)>, DeErrorSpec>(x@),
        },
    decreases *value, 1nat, children@.len(),
{
    let mut entries: Vec<(Value<'a>, Value<'a>)> = Vec::new();
    let ghost nodes = nodes_view(children@);
    let ghost whole = dict_children_spec(nodes, *key, *value, 0, *resolver);
    proof {
        match whole {
            Ok(more) => {
                assert(entries_view(entries@) + more =~= more);
            },
            Err(_) => {},
        }
    }
    let mut from: usize = 0;
    loop
        invariant
            from <= children@.len(),
            nodes == nodes_view(children@),
            whole == dict_children_spec(nodes, *key, *value, 0, *resolver),
            whole == entries_then(
                entries_view(entries@),
                dict_children_spec(nodes, *key, *value, from as int, *resolver),
            ),
        decreases children@.len() - from,
    {
        let k = find_child(children, None, from);
        if k >= children.len() {
            assert(entries_view(entries@) + Seq::<(ValueSpec, ValueSpec)>::empty()
                =~= entries_view(entries@));
            return Ok(entries);
        }
        let child = element_at(children, k);
        let bound = bind_element(child, value, resolver);
        match bind_entry(CowBytes::Borrowed(local_name(child.name)), key, bound) {
            Err(x) => {
                return Err(x);
            },
            Ok((key_value, v)) => {
                proof {
                    lemma_entries_push(entries@, key_value, v);
                    lemma_entries_step(
                        entries_view(entries@),
                        (value_view(key_value), value_view(v)),
                        dict_children_spec(nodes, *key, *value, k + 1, *resolver),
                    );
                }
                entries.push((key_value, v));
                from = k + 1;
            },
        }
    }
}

/// The policies with which a document is read for binding: self-closing
/// tags are expanded, text is trimmed at both ends, and the names of closing
/// tags are checked.
pub open spec fn de_config() -> Config {
    Config {
        expand_empty_elements: true,
        trim_text_start: true,
        trim_text_end: true,
        check_end_names: true,
        check_comments: false,
    }
}

/// What the node at a position of the top of a document gives for a shape:
/// it must be an element. Where the document has no node there, it ended too
/// early; text and CDATA stand where an element is due.
pub open spec fn root_spec<R: EntityResolver>(
    nodes: Seq<NodeSpec>,
    at: int,
    shape: Shape,
    resolver: R,
) -> Result<ValueSpec, DeErrorSpec> {
    if at < 0 || at >= nodes.len() {
        Err(DeErrorSpec::UnexpectedEof)
    } else {
        match nodes[at] {
            NodeSpec::Element(e) => element_spec(e, shape, resolver),
            _ => Err(DeErrorSpec::ExpectedStart),
        }
    }
}

/// The values of the items of a tuple from the `i`-th on, the `i`-th from
/// the `i`-th node at the top of the document.
pub open spec fn roots_tuple_spec<R: EntityResolver>(
    nodes: Seq<NodeSpec>,
    shapes: Seq<Shape>,
    i: int,
    resolver: R,
) -> Result<Seq<ValueSpec>, DeErrorSpec>
    decreases shapes.len() - i,
{
    if i < 0 || i >= shapes.len() {
        Ok(Seq::empty())
    } else {
        match root_spec(nodes, i, shapes[i], resolver) {
            Err(x) => Err(x),
            Ok(v) => values_then(seq![v], roots_tuple_spec(nodes, shapes, i + 1, resolver)),
        }
    }
}

/// The values that the nodes at the top of the document from the `i`-th on
/// give for the shape of the items of a sequence.
pub open spec fn roots_list_spec<R: EntityResolver>(
    nodes: Seq<NodeSpec>,
    inner: Shape,
    i: int,
    resolver: R,
) -> Result<Seq<ValueSpec>, DeErrorSpec>
    decreases nodes.len() - i,
{
    if i < 0 || i >= nodes.len() {
        Ok(Seq::empty())
    } else {
        match root_spec(nodes, i, inner, resolver) {
            Err(x) => Err(x),
            Ok(v) => values_then(seq![v], roots_list_spec(nodes, inner, i + 1, resolver)),
        }
    }
}

/// What the nodes at the top of a document give for a shape.
///
/// - A tuple takes the first nodes, one for each of its items; there must
///   be one node at least.
/// - A sequence takes all nodes, of which there must be one at least.
/// - An option is absent where the document holds no node, and present
///   otherwise.
/// - Every other shape takes the first node.
///
/// Each node that is taken must be an element.
pub open spec fn nodes_value_spec<R: EntityResolver>(
    nodes: Seq<NodeSpec>,
    shape: Shape,
    resolver: R,
) -> Result<ValueSpec, DeErrorSpec>
    decreases shape,
{
    match shape {
        Shape::Tuple(shapes) => if nodes.len() == 0 {
            Err(DeErrorSpec::UnexpectedEof)
        } else {
            match roots_tuple_spec(nodes, shapes@, 0, resolver) {
                Ok(items) => Ok(ValueSpec::Tuple(items)),
                Err(x) => Err(x),
            }
        },
        Shape::List(inner) => if nodes.len() == 0 {
            Err(DeErrorSpec::UnexpectedEof)
        } else {
            match roots_list_spec(nodes, *inner, 0, resolver) {
                Ok(items) => Ok(ValueSpec::List(items)),
                Err(x) => Err(x),
            }
        },
        Shape::Optional(inner) => if nodes.len() == 0 {
            Ok(ValueSpec::Absent)
        } else {
            match nodes_value_spec(nodes, *inner, resolver) {
                Ok(v) => Ok(ValueSpec::Present(Box::new(v))),
                Err(x) => Err(x),
            }
        },
        _ => root_spec(nodes, 0, shape, resolver),
    }
}

/// What a document gives for a shape: the error of reading it, or what its
/// nodes give.
pub open spec fn de_spec<R: EntityResolver>(input: Seq<u8>, shape: Shape, resolver: R) -> Result<
    ValueSpec,
    DeErrorSpec,
> {
    match document_spec(input, de_config()) {
        Err(e) => Err(from_xml_error(e)),
        Ok(events) => nodes_value_spec(document_nodes(events), shape, resolver),
    }
}

/// Binds the node at a position of the top of a document to a shape.
pub fn bind_root<'a, R: EntityResolver>(
    nodes: &Vec<Node<'a>>,
    at: usize,
    shape: &Shape,
    resolver: &R,
) -> (r: Result<Value<'a>, DeError>)
    ensures
        match r {
            Ok(v) => root_spec(nodes_view(nodes@), at as int, *shape, *resolver) == Ok::<
                ValueSpec,
                DeErrorSpec,
            >(value_view(v)),
            Err(x) => root_spec(nodes_view(nodes@), at as int, *shape, *resolver) == Err::<
                ValueSpec,
                DeErrorSpec,
            >(x@),
        },
{
    if at >= nodes.len() {
        return Err(DeError::UnexpectedEof);
    }
    assert(nodes_view(nodes@)[at as int] == node_view(nodes@[at as int]));
    match &nodes[at] {
        Node::Element(e) => bind_element(e, shape, resolver),
        _ => Err(DeError::ExpectedStart),
    }
}

/// Binds the first nodes at the top of a document to the items of a tuple.
pub fn bind_roots_tuple<'a, R: EntityResolver>(
    nodes: &Vec<Node<'a>>,
    shapes: &Vec<Shape>,
    resolver: &R,
) -> (r: Result<Vec<Value<'a>>, DeError>)
    ensures
        match r {
            Ok(items) => roots_tuple_spec(nodes_view(nodes@), shapes@, 0, *resolver) == Ok::<
                Seq<ValueSpec>,
                DeErrorSpec,
            >(values_view(items@)),
            Err(x) => roots_tuple_spec(nodes_view(nodes@), shapes@, 0, *resolver) == Err::<
                Seq<ValueSpec>,
                DeErrorSpec,
            >(x@),
        },
{
    let ghost all = nodes_view(nodes@);
    let mut items: Vec<Value<'a>> = Vec::new();
    let ghost whole = roots_tuple_spec(all, shapes@, 0, *resolver);
    proof {
        match whole {
            Ok(more) => {
                assert(values_view(items@) + more =~= more);
            },
            Err(_) => {},
        }
    }
    let mut i: usize = 0;
    while i < shapes.len()
        invariant
            i <= shapes@.len(),
            all == nodes_view(nodes@),
            whole == roots_tuple_spec(all, shapes@, 0, *resolver),
            whole == values_then(
                values_view(items@),
                roots_tuple_spec(all, shapes@, i as int, *resolver),
            ),
        decreases shapes@.len() - i,
    {
        match bind_root(nodes, i, &shapes[i], resolver) {
            Err(x) => {
                return Err(x);
            },
            Ok(v) => {
                proof {
                    lemma_values_push(items@, v);
                    lemma_values_step(
                        values_view(items@),
                        value_view(v),
                        roots_tuple_spec(all, shapes@, i + 1, *resolver),
                    );
                }
                items.push(v);
            },
        }
        i += 1;
    }
    assert(values_view(items@) + Seq::<ValueSpec>::empty() =~= values_view(items@));
    Ok(items)
}

/// Binds all nodes at the top of a document to the shape of the items of a
/// sequence.
pub fn bind_roots_list<'a, R: EntityResolver>(
    nodes: &Vec<Node<'a>>,
    inner: &Shape,
    resolver: &R,
) -> (r: Result<Vec<Value<'a>>, DeError>)
    ensures
        match r {
            Ok(items) => roots_list_spec(nodes_view(nodes@), *inner, 0, *resolver) == Ok::<
                Seq<ValueSpec>,
                DeErrorSpec,
            >(values_view(items@)),
            Err(x) => roots_list_spec(nodes_view(nodes@), *inner, 0, *resolver) == Err::<
                Seq<ValueSpec>,
                DeErrorSpec,
            >(x@),
        },
{
    let ghost all = nodes_view(nodes@);
    let mut items: Vec<Value<'a>> = Vec::new();
    let ghost whole = roots_list_spec(all, *inner, 0, *resolver);
    proof {
        match whole {
            Ok(more) => {
                assert(values_view(items@) + more =~= more);
            },
            Err(_) => {},
        }
    }
    let mut i: usize = 0;
    while i < nodes.len()
        invariant
            i <= nodes@.len(),
            all == nodes_view(nodes@),
            whole == roots_list_spec(all, *inner, 0, *resolver),
            whole == values_then(
                values_view(items@),
                roots_list_spec(all, *inner, i as int, *resolver),
            ),
        decreases nodes@.len() - i,
    {
        match bind_root(nodes, i, inner, resolver) {
            Err(x) => {
                return Err(x);
            },
            Ok(v) => {
                proof {
                    lemma_values_push(items@, v);
                    lemma_values_step(
                        values_view(items@),
                        value_view(v),
                        roots_list_spec(all, *inner, i + 1, *resolver),
                    );
                }
                items.push(v);
            },
        }
        i += 1;
    }
    assert(values_view(items@) + Seq::<ValueSpec>::empty() =~= values_view(items@));
    Ok(items)
}

/// Binds the nodes at the top of a document to a shape.
pub fn bind_nodes<'a, R: EntityResolver>(nodes: &Vec<Node<'a>>, shape: &Shape, resolver: &R) -> (r:
    Result<Value<'a>, DeError>)
    ensures
        match r {
            Ok(v) => nodes_value_spec(nodes_view(nodes@), *shape, *resolver) == Ok::<
                ValueSpec,
                DeErrorSpec,
            >(value_view(v)),
            Err(x) => nodes_value_spec(nodes_view(nodes@), *shape, *resolver) == Err::<
                ValueSpec,
                DeErrorSpec,
            >(x@),
        },
    decreases *shape,
{
    match shape {
        Shape::Tuple(shapes) => if nodes.len() == 0 {
            Err(DeError::UnexpectedEof)
        } else {
            match bind_roots_tuple(nodes, shapes, resolver) {
                Ok(items) => Ok(Value::Tuple(items)),
                Err(x) => Err(x),
            }
        },
        Shape::List(inner) => if nodes.len() == 0 {
            Err(DeError::UnexpectedEof)
        } else {
            match bind_roots_list(nodes, inner, resolver) {
                Ok(items) => Ok(Value::List(items)),
                Err(x) => Err(x),
            }
        },
        Shape::Optional(inner) => if nodes.len() == 0 {
            Ok(Value::Absent)
        } else {
            match bind_nodes(nodes, inner, resolver) {
                Ok(v) => Ok(Value::Present(Box::new(v))),
                Err(x) => Err(x),
            }
        },
        _ => bind_root(nodes, 0, shape, resolver),
    }
}

/// The resolver after it took note of the bodies of the document types
/// among the first `n` events, in their order.
pub open spec fn captured<R: EntityResolver>(resolver: R, events: Seq<EventSpec>, n: int) -> R
    decreases n,
{
    if n <= 0 || n > events.len() {
        resolver
    } else {
        let before = captured(resolver, events, n - 1);
        match events[n - 1] {
            EventSpec::DocType(body) => before.after_capture(body),
            _ => before,
        }
    }
}

/// The resolver with which a document is bound: the given one where the
/// document cannot be read, and otherwise the one that took note of the
/// bodies of all document types of the document.
pub open spec fn binding_resolver<R: EntityResolver>(input: Seq<u8>, resolver: R) -> R {
    match document_spec(input, de_config()) {
        Ok(events) => captured(resolver, events, events.len() as int),
        Err(_) => resolver,
    }
}

/// A binder of documents to shapes, with a resolver for the entities that
/// XML does not predefine.
pub struct Deserializer<'a, R> {
    input: &'a [u8],
    resolver: R,
}

impl<'a, R: EntityResolver> Deserializer<'a, R> {
    /// The document that is bound.
    pub closed spec fn input(&self) -> Seq<u8> {
        self.input@
    }

    /// The resolver as it stands.
    pub closed spec fn resolver(&self) -> R {
        self.resolver
    }

    /// A binder of the document `input` that expands entities with
    /// `resolver`.
    pub fn with_resolver(input: &'a [u8], resolver: R) -> (r: Self)
        ensures
            r.input() == input@,
            r.resolver() == resolver,
    {
        Deserializer { input, resolver }
    }

    /// Gives up the binder for its resolver.
    pub fn into_resolver(self) -> (r: R)
        ensures
            r == self.resolver(),
    {
        self.resolver
    }

    /// Binds the document to a shape.
    ///
    /// The body of each document type is handed to the resolver, in
    /// document order, before anything is bound. The result is what the
    /// document gives for the shape with the resolver as it stands after
    /// that.
    pub fn deserialize(&mut self, shape: &Shape) -> (r: Result<Value<'a>, DeError>)
        ensures
            final(self).input() == old(self).input(),
            final(self).resolver() == binding_resolver(old(self).input(), old(self).resolver()),
            match r {
                Ok(v) => de_spec(old(self).input(), *shape, final(self).resolver()) == Ok::<
                    ValueSpec,
                    DeErrorSpec,
                >(value_view(v)),
                Err(x) => de_spec(old(self).input(), *shape, final(self).resolver()) == Err::<
                    ValueSpec,
                    DeErrorSpec,
                >(x@),
            },
    {
        let config = Config {
            expand_empty_elements: true,
            trim_text_start: true,
            trim_text_end: true,
            check_end_names: true,
            check_comments: false,
        };
        let events = match read_document(self.input, config) {
            Err(e) => {
                return Err(DeError::from_xml(e));
            },
            Ok(events) => events,
        };
        let ghost all = events_view(events@);
        let mut i: usize = 0;
        while i < events.len()
            invariant
                i <= events@.len(),
                all == events_view(events@),
                self.input() == old(self).input(),
                self.resolver() == captured(old(self).resolver(), all, i as int),
            decreases events@.len() - i,
        {
            assert(all[i as int] == events@[i as int]@);
            match &events[i] {
                Event::DocType(body) => {
                    self.resolver.capture(body.as_bytes());
                },
                _ => {},
            }
            i += 1;
        }
        let (nodes, _) = parse_nodes(events.as_slice(), 0);
        bind_nodes(&nodes, shape, &self.resolver)
    }
}

/// Binds the document `input`, given as a string, to a shape, with no
/// entities but those that XML predefines.
pub fn from_str<'a>(input: &'a str, shape: &Shape) -> (r: Result<Value<'a>, DeError>)
    ensures
        match r {
            Ok(v) => de_spec(input.spec_bytes(), *shape, NoEntities) == Ok::<
                ValueSpec,
                DeErrorSpec,
            >(value_view(v)),
            Err(x) => de_spec(input.spec_bytes(), *shape, NoEntities) == Err::<
                ValueSpec,
                DeErrorSpec,
            >(x@),
        },
{
    from_bytes(input.as_bytes(), shape)
}

/// Binds the document `input` to a shape, with no entities but those that
/// XML predefines.
pub fn from_bytes<'a>(input: &'a [u8], shape: &Shape) -> (r: Result<Value<'a>, DeError>)
    ensures
        match r {
            Ok(v) => de_spec(input@, *shape, NoEntities) == Ok::<ValueSpec, DeErrorSpec>(
                value_view(v),
            ),
            Err(x) => de_spec(input@, *shape, NoEntities) == Err::<ValueSpec, DeErrorSpec>(x@),
        },
{
    let mut de = Deserializer::with_resolver(input, NoEntities);
    de.deserialize(shape)
}

/// Borrowed text from an attribute: the value of an attribute can be
/// borrowed exactly if it holds no entity reference and is valid UTF-8, and
/// what is borrowed is then the value as it stands in the document.
pub proof fn lemma_borrowed_attribute<R: EntityResolver>(raw: Seq<u8>, resolver: R)
    ensures
        attr_value_spec(raw, Shape::BorrowedStr, resolver) is Ok <==> !raw.contains(AMP)
            && valid_utf8(raw),
        attr_value_spec(raw, Shape::BorrowedStr, resolver) is Ok ==> attr_value_spec(
            raw,
            Shape::BorrowedStr,
            resolver,
        ) == Ok::<ValueSpec, DeErrorSpec>(ValueSpec::Borrowed(raw)),
{
    if !raw.contains(AMP) {
        lemma_unescape_plain(raw, resolver);
    }
}

/// Borrowed text from an element: the text of an element can be borrowed
/// exactly if it is empty or is one piece that holds no entity reference,
/// and is valid UTF-8.
pub proof fn lemma_borrowed_element<R: EntityResolver>(e: ElementSpec, resolver: R)
    ensures
        element_spec(e, Shape::BorrowedStr, resolver) is Ok <==> (match gather(
            e.children,
            0,
            resolver,
        ) {
            Ok(g) => g.borrowed && valid_utf8(g.text),
            Err(_) => false,
        }),
        match gather(e.children, 0, resolver) {
            Ok(g) => g.borrowed ==> g.pieces <= 1,
            Err(_) => true,
        },
{
    lemma_gather_borrowed(e.children, 0, resolver);
}

/// Text that is a borrow of the document is one piece at most, and that
/// piece, where it is character data, holds no `&`.
pub proof fn lemma_gather_borrowed<R: EntityResolver>(children: Seq<NodeSpec>, i: int, resolver: R)
    requires
        0 <= i,
    ensures
        match gather(children, i, resolver) {
            Ok(g) => {
                &&& g.pieces == 0 ==> g.text.len() == 0 && g.borrowed
                &&& g.borrowed ==> g.pieces <= 1
                &&& g.borrowed ==> forall|j: int|
                    i <= j < children.len() ==> match #[trigger] children[j] {
                        NodeSpec::Text(raw) => !raw.contains(AMP) && g.text == raw,
                        NodeSpec::CData(d) => g.text == d,
                        NodeSpec::Element(_) => true,
                    }
            },
            Err(_) => true,
        },
    decreases children.len() - i,
{
    if i < children.len() {
        lemma_gather_borrowed(children, i + 1, resolver);
        match gather(children, i, resolver) {
            Ok(g) => {
                match children[i] {
                    NodeSpec::Text(raw) => {
                        let rest = gather(children, i + 1, resolver)->Ok_0;
                        if g.borrowed {
                            lemma_unescape_plain(raw, resolver);
                            assert(raw + rest.text =~= raw);
                            lemma_no_piece_after(children, i + 1, resolver);
                        }
                    },
                    NodeSpec::CData(d) => {
                        let rest = gather(children, i + 1, resolver)->Ok_0;
                        if g.borrowed {
                            assert(d + rest.text =~= d);
                            lemma_no_piece_after(children, i + 1, resolver);
                        }
                    },
                    NodeSpec::Element(_) => {},
                }
            },
            Err(_) => {},
        }
    }
}

/// Where the children from `i` on give no piece of text, they are all
/// elements.
proof fn lemma_no_piece_after<R: EntityResolver>(children: Seq<NodeSpec>, i: int, resolver: R)
    requires
        0 <= i,
        gather(children, i, resolver) is Ok,
        gather(children, i, resolver)->Ok_0.pieces == 0,
    ensures
        forall|j: int| i <= j < children.len() ==> (#[trigger] children[j]) is Element,
    decreases children.len() - i,
{
    if i < children.len() {
        match children[i] {
            NodeSpec::Element(_) => {
                lemma_no_piece_after(children, i + 1, resolver);
            },
            _ => {},
        }
    }
}

/// A document without any node gives nothing: whatever the shape, unless
/// it is an option, binding it ends in an unexpected end.
pub proof fn lemma_no_node_is_unexpected_eof<R: EntityResolver>(shape: Shape, resolver: R)
    requires
        !(shape is Optional),
    ensures
        nodes_value_spec(Seq::<NodeSpec>::empty(), shape, resolver) == Err::<
            ValueSpec,
            DeErrorSpec,
        >(DeErrorSpec::UnexpectedEof),
{
}

/// The empty document gives nothing: whatever the shape, unless it is an
/// option, binding it ends in an unexpected end.
pub proof fn lemma_empty_document_is_unexpected_eof<R: EntityResolver>(shape: Shape, resolver: R)
    requires
        !(shape is Optional),
    ensures
        de_spec(Seq::<u8>::empty(), shape, resolver) == Err::<ValueSpec, DeErrorSpec>(
            DeErrorSpec::UnexpectedEof,
        ),
{
    let input = Seq::<u8>::empty();
    let first = step(input, de_config(), initial_state());
    assert(first.result == Ok::<EventSpec, ErrorSpec>(EventSpec::Eof));
    let events = seq![EventSpec::Eof];
    assert(document_spec(input, de_config()) == Ok::<Seq<EventSpec>, ErrorSpec>(events));
    assert(document_nodes(events) =~= Seq::<NodeSpec>::empty());
    lemma_no_node_is_unexpected_eof(shape, resolver);
}

} // verus!

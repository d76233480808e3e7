//! What a destination expects and what it receives: shapes, values and the
//! errors of binding.

use vstd::prelude::*;
use vstd::string::StringSliceAdditionalSpecFns;
use crate::errors::{Error, ErrorSpec};

verus! {

/// The kinds of integer that a destination may expect.
#[derive(Debug, Clone, Copy, PartialEq, Eq, Structural)]
pub enum IntKind {
    I8,
    I16,
    I32,
    I64,
    I128,
    U8,
    U16,
    U32,
    U64,
    U128,
}

impl IntKind {
    /// Whether the kind holds negative numbers.
    pub open spec fn signed(self) -> bool {
        self is I8 || self is I16 || self is I32 || self is I64 || self is I128
    }

    /// The least number of the kind.
    pub open spec fn min_spec(self) -> int {
        match self {
            IntKind::I8 => -0x80,
            IntKind::I16 => -0x8000,
            IntKind::I32 => -0x8000_0000,
            IntKind::I64 => -0x8000_0000_0000_0000,
            IntKind::I128 => -0x8000_0000_0000_0000_0000_0000_0000_0000,
            _ => 0,
        }
    }

    /// The greatest number of the kind.
    pub open spec fn max_spec(self) -> int {
        match self {
            IntKind::I8 => 0x7f,
            IntKind::I16 => 0x7fff,
            IntKind::I32 => 0x7fff_ffff,
            IntKind::I64 => 0x7fff_ffff_ffff_ffff,
            IntKind::I128 => 0x7fff_ffff_ffff_ffff_ffff_ffff_ffff_ffff,
            IntKind::U8 => 0xff,
            IntKind::U16 => 0xffff,
            IntKind::U32 => 0xffff_ffff,
            IntKind::U64 => 0xffff_ffff_ffff_ffff,
            IntKind::U128 => 0xffff_ffff_ffff_ffff_ffff_ffff_ffff_ffff,
        }
    }

    /// The name of the kind, as error messages give it.
    pub open spec fn name_spec(self) -> Seq<u8> {
        match self {
            IntKind::I8 => "i8".spec_bytes(),
            IntKind::I16 => "i16".spec_bytes(),
            IntKind::I32 => "i32".spec_bytes(),
            IntKind::I64 => "i64".spec_bytes(),
            IntKind::I128 => "i128".spec_bytes(),
            IntKind::U8 => "u8".spec_bytes(),
            IntKind::U16 => "u16".spec_bytes(),
            IntKind::U32 => "u32".spec_bytes(),
            IntKind::U64 => "u64".spec_bytes(),
            IntKind::U128 => "u128".spec_bytes(),
        }
    }

    /// Tells whether the kind holds negative numbers.
    pub fn is_signed(self) -> (r: bool)
        ensures
            r == self.signed(),
    {
        match self {
            IntKind::I8 | IntKind::I16 | IntKind::I32 | IntKind::I64 | IntKind::I128 => true,
            _ => false,
        }
    }

    /// The greatest number of the kind.
    pub fn max(self) -> (r: u128)
        ensures
            r == self.max_spec(),
    {
        match self {
            IntKind::I8 => 0x7f,
            IntKind::I16 => 0x7fff,
            IntKind::I32 => 0x7fff_ffff,
            IntKind::I64 => 0x7fff_ffff_ffff_ffff,
            IntKind::I128 => 0x7fff_ffff_ffff_ffff_ffff_ffff_ffff_ffff,
            IntKind::U8 => 0xff,
            IntKind::U16 => 0xffff,
            IntKind::U32 => 0xffff_ffff,
            IntKind::U64 => 0xffff_ffff_ffff_ffff,
            IntKind::U128 => 0xffff_ffff_ffff_ffff_ffff_ffff_ffff_ffff,
        }
    }

    /// The name of the kind, as error messages give it.
    pub fn name(self) -> (r: &'static str)
        ensures
            r.spec_bytes() == self.name_spec(),
    {
        match self {
            IntKind::I8 => "i8",
            IntKind::I16 => "i16",
            IntKind::I32 => "i32",
            IntKind::I64 => "i64",
            IntKind::I128 => "i128",
            IntKind::U8 => "u8",
            IntKind::U16 => "u16",
            IntKind::U32 => "u32",
            IntKind::U64 => "u64",
            IntKind::U128 => "u128",
        }
    }
}

/// A named part of a record or of a tagged union.
#[derive(Debug, PartialEq)]
pub struct Field {
    /// The name by which the part is found.
    ///
    /// In a record, a name that starts with `@` stands for the attribute of
    /// that name, `$text` for the text of the element, `$value` for its
    /// first child element, and every other name for the child elements of
    /// that local name. In a tagged union it is the local name of the element
    /// that selects the variant.
    pub name: Vec<u8>,
    /// What the part holds.
    pub shape: Shape,
}

/// What a destination expects.
#[derive(Debug, PartialEq)]
pub enum Shape {
    /// Nothing: any element and any text will do.
    Unit,
    /// `true`, `false`, `1` or `0`.
    Bool,
    /// A whole number of the given kind.
    Integer(IntKind),
    /// A floating-point number, which is handed over in its written form.
    Float,
    /// Exactly one Unicode scalar value.
    Char,
    /// Text, in a buffer of its own.
    String,
    /// Text that borrows from the document.
    BorrowedStr,
    /// Binary data, which XML cannot hold.
    Bytes,
    /// Something that may be absent.
    Optional(Box<Shape>),
    /// Any number of items of one shape.
    List(Box<Shape>),
    /// A fixed number of items, each of a shape of its own.
    Tuple(Vec<Shape>),
    /// A record with named fields.
    Struct(Vec<Field>),
    /// Entries with a key and a value.
    Dict(Box<Shape>, Box<Shape>),
    /// A tagged union: one of several named variants, of which the local
    /// name of the element selects one.
    Enum(Vec<Field>),
    /// A tagged union of which a part of the element selects the variant: the
    /// attribute or the child element that the first name stands for holds
    /// the name of the variant.
    Tagged(Vec<u8>, Vec<Field>),
}

impl Shape {
    /// Tells whether the shape is the unit.
    pub fn is_unit(&self) -> (r: bool)
        ensures
            r == (*self is Unit),
    {
        match self {
            Shape::Unit => true,
            _ => false,
        }
    }

    /// Whether the shape is a primitive: a truth value, a number or a
    /// character.
    pub open spec fn is_primitive(self) -> bool {
        self is Bool || self is Integer || self is Float || self is Char
    }

    /// Tells whether the shape is a primitive.
    pub fn takes_primitive(&self) -> (r: bool)
        ensures
            r == self.is_primitive(),
    {
        match self {
            Shape::Bool => true,
            Shape::Integer(_) => true,
            Shape::Float => true,
            Shape::Char => true,
            _ => false,
        }
    }

    /// Tells whether the shape is an option.
    pub fn is_optional(&self) -> (r: bool)
        ensures
            r == (*self is Optional),
    {
        match self {
            Shape::Optional(_) => true,
            _ => false,
        }
    }

    /// Whether the shape is text: text in a buffer of its own or borrowed
    /// text.
    pub open spec fn is_text(self) -> bool {
        self is String || self is BorrowedStr
    }

    /// Tells whether the shape is text.
    pub fn takes_text(&self) -> (r: bool)
        ensures
            r == self.is_text(),
    {
        match self {
            Shape::String => true,
            Shape::BorrowedStr => true,
            _ => false,
        }
    }
}

/// What a destination receives, as a mathematical value.
pub enum ValueSpec {
    Unit,
    Bool(bool),
    Int(int),
    UInt(int),
    Float(Seq<u8>),
    Char(char),
    String(Seq<u8>),
    Borrowed(Seq<u8>),
    Absent,
    Present(Box<ValueSpec>),
    List(Seq<ValueSpec>),
    Tuple(Seq<ValueSpec>),
    Dict(Seq<(ValueSpec, ValueSpec)>),
    Variant(int, Box<ValueSpec>),
}

/// What a destination receives.
#[derive(Debug, PartialEq)]
pub enum Value<'a> {
    /// Nothing.
    Unit,
    /// A truth value.
    Bool(bool),
    /// A number of a signed kind.
    Int(i128),
    /// A number of an unsigned kind.
    UInt(u128),
    /// A floating-point number in its written form.
    Float(Vec<u8>),
    /// A Unicode scalar value.
    Char(char),
    /// Text in a buffer of its own.
    String(Vec<u8>),
    /// Text that borrows from the document.
    Borrowed(&'a [u8]),
    /// The absent value of an option.
    Absent,
    /// The present value of an option.
    Present(Box<Value<'a>>),
    /// The items of a sequence.
    List(Vec<Value<'a>>),
    /// The items of a tuple, or the fields of a record in the order in which
    /// its shape names them.
    Tuple(Vec<Value<'a>>),
    /// The entries of a map in document order, attributes first.
    Dict(Vec<(Value<'a>, Value<'a>)>),
    /// A variant of a tagged union: its position among the variants of the
    /// shape, and what it holds.
    Variant(usize, Box<Value<'a>>),
}

/// The mathematical value of a value.
pub open spec fn value_view(v: Value) -> ValueSpec
    decreases v,
{
    match v {
        Value::Unit => ValueSpec::Unit,
        Value::Bool(b) => ValueSpec::Bool(b),
        Value::Int(i) => ValueSpec::Int(i as int),
        Value::UInt(u) => ValueSpec::UInt(u as int),
        Value::Float(t) => ValueSpec::Float(t@),
        Value::Char(c) => ValueSpec::Char(c),
        Value::String(t) => ValueSpec::String(t@),
        Value::Borrowed(t) => ValueSpec::Borrowed(t@),
        Value::Absent => ValueSpec::Absent,
        Value::Present(b) => ValueSpec::Present(Box::new(value_view(*b))),
        Value::List(items) => ValueSpec::List(values_view(items@)),
        Value::Tuple(items) => ValueSpec::Tuple(values_view(items@)),
        Value::Dict(entries) => ValueSpec::Dict(entries_view(entries@)),
        Value::Variant(i, b) => ValueSpec::Variant(i as int, Box::new(value_view(*b))),
    }
}

/// The mathematical values of a list of values.
pub open spec fn values_view(items: Seq<Value>) -> Seq<ValueSpec>
    decreases items,
{
    Seq::new(
        items.len(),
        |i: int|
            if 0 <= i < items.len() {
                value_view(items[i])
            } else {
                ValueSpec::Unit
            },
    )
}

/// The mathematical values of a list of entries.
pub open spec fn entries_view(entries: Seq<(Value, Value)>) -> Seq<(ValueSpec, ValueSpec)>
    decreases entries,
{
    Seq::new(
        entries.len(),
        |i: int|
            if 0 <= i < entries.len() {
                (value_view(entries[i].0), value_view(entries[i].1))
            } else {
                (ValueSpec::Unit, ValueSpec::Unit)
            },
    )
}

/// An error of binding, as a mathematical value.
pub enum DeErrorSpec {
    InvalidXml(ErrorSpec),
    UnexpectedEof,
    ExpectedStart,
    NonDecodable(Seq<u8>),
    Unsupported(Seq<u8>),
    Custom(Seq<u8>),
}

/// What can go wrong while a document is bound to a shape.
#[derive(Debug, Clone, PartialEq, Eq)]
pub enum DeError {
    /// The document could not be read, or a reference in it could not be
    /// expanded.
    InvalidXml(Error),
    /// The document ended while an element was open or a value was due.
    UnexpectedEof,
    /// Text or CDATA stands where the root element is due.
    ExpectedStart,
    /// Text that is no valid UTF-8 where text is due.
    NonDecodable(Vec<u8>),
    /// The shape asks for something that XML cannot hold; the message says
    /// what.
    Unsupported(Vec<u8>),
    /// The document does not fit the shape; the message says how.
    Custom(Vec<u8>),
}

impl View for DeError {
    type V = DeErrorSpec;

    open spec fn view(&self) -> DeErrorSpec {
        match self {
            DeError::InvalidXml(e) => DeErrorSpec::InvalidXml(e@),
            DeError::UnexpectedEof => DeErrorSpec::UnexpectedEof,
            DeError::ExpectedStart => DeErrorSpec::ExpectedStart,
            DeError::NonDecodable(b) => DeErrorSpec::NonDecodable(b@),
            DeError::Unsupported(m) => DeErrorSpec::Unsupported(m@),
            DeError::Custom(m) => DeErrorSpec::Custom(m@),
        }
    }
}

/// The reader's error as an error of binding: a document that ended too
/// early stays that, everything else is invalid XML.
pub open spec fn from_xml_error(e: ErrorSpec) -> DeErrorSpec {
    match e {
        ErrorSpec::UnexpectedEof => DeErrorSpec::UnexpectedEof,
        e => DeErrorSpec::InvalidXml(e),
    }
}

impl DeError {
    /// Turns a reader's error into an error of binding.
    pub fn from_xml(e: Error) -> (r: DeError)
        ensures
            r@ == from_xml_error(e@),
    {
        match e {
            Error::UnexpectedEof => DeError::UnexpectedEof,
            e => DeError::InvalidXml(e),
        }
    }
}

} // verus!

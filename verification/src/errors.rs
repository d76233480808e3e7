//! The errors that reading and decoding report.

use vstd::prelude::*;

verus! {

/// The way in which a token is malformed.
#[derive(Debug, Clone, Copy, PartialEq, Eq, Structural)]
pub enum SyntaxKind {
    /// An opening, closing or self-closing tag without its `>`.
    UnclosedTag,
    /// A comment without its `-->`.
    UnclosedComment,
    /// A CDATA section without its `]]>`.
    UnclosedCData,
    /// A processing instruction or XML declaration without its `?>`.
    UnclosedPI,
    /// A document type without its `>`.
    UnclosedDocType,
    /// `<!` followed by neither `--`, `[CDATA[` nor `DOCTYPE `.
    InvalidBang,
    /// A comment with `--` inside, where the reader was asked to refuse it.
    DoubleDashInComment,
    /// An `&` that no `;` closes before the next `&` or the end.
    UnterminatedEntity,
    /// An attribute name that no `=` follows.
    ExpectedEq,
    /// An `=` that no value follows.
    ExpectedValue,
    /// An attribute value that stands in no quotes.
    UnquotedValue,
    /// An attribute value whose closing quote is missing.
    ExpectedQuote,
    /// An attribute name that occurred before in the same tag.
    DuplicatedAttribute,
}

/// An error, as a mathematical value.
pub enum ErrorSpec {
    Syntax { kind: SyntaxKind, offset: int },
    EndEventMismatch { expected: Seq<u8>, found: Seq<u8> },
    UnexpectedEof,
    InvalidCharRef,
    UnknownEntity { name: Seq<u8> },
}

/// What can go wrong while reading a document or decoding its text.
#[derive(Debug, Clone, PartialEq, Eq)]
pub enum Error {
    /// A malformed token. `offset` is the position of the first byte that is
    /// at fault, counted from the start of the text that was being read:
    /// the `<` of a token that is not closed or not known, the `--` inside a
    /// comment, the `&` of a reference that is not closed, and in a tag's
    /// attributes the place where something else was due.
    Syntax { kind: SyntaxKind, offset: usize },
    /// A closing tag whose name differs from that of the element that is
    /// open; `expected` is empty where no element is open.
    EndEventMismatch { expected: Vec<u8>, found: Vec<u8> },
    /// The document ended while an element was open.
    UnexpectedEof,
    /// A numeric character reference that names no Unicode scalar value.
    InvalidCharRef,
    /// A named entity that is neither predefined nor known to the resolver.
    UnknownEntity { name: Vec<u8> },
}

impl View for Error {
    type V = ErrorSpec;

    open spec fn view(&self) -> ErrorSpec {
        match self {
            Error::Syntax { kind, offset } => ErrorSpec::Syntax {
                kind: *kind,
                offset: *offset as int,
            },
            Error::EndEventMismatch { expected, found } => ErrorSpec::EndEventMismatch {
                expected: expected@,
                found: found@,
            },
            Error::UnexpectedEof => ErrorSpec::UnexpectedEof,
            Error::InvalidCharRef => ErrorSpec::InvalidCharRef,
            Error::UnknownEntity { name } => ErrorSpec::UnknownEntity { name: name@ },
        }
    }
}

impl ErrorSpec {
    /// The same error of a text that starts `by` bytes further on: offsets
    /// move, everything else stays.
    pub open spec fn shifted(self, by: int) -> ErrorSpec {
        match self {
            ErrorSpec::Syntax { kind, offset } => ErrorSpec::Syntax { kind, offset: offset + by },
            e => e,
        }
    }
}

} // verus!

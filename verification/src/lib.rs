//! A streaming XML reader and writer with machine-checked contracts.
//!
//! The library works on bytes. Three layers build on one another:
//!
//! - the escape codec ([`escape`]) converts between raw text and the form in
//!   which it stands in a document;
//! - the reader ([`reader`], [`document`], [`ns`]) turns a document into
//!   events ([`events`], [`attributes`], [`name`]), and the writer
//!   ([`writer`]) renders events back to bytes;
//! - the binder ([`de`], [`shape`], [`simple`], [`tree`]) maps a document
//!   onto the values that a destination asks for.
//!
//! Every function states what it computes over sequences of bytes, and the
//! laws that tie the layers together are proved alongside: decoding undoes
//! escaping, writing back what was read gives the document, the reader's
//! stack is what the events say, and text is borrowed exactly where nothing
//! had to be decoded.

pub mod utils;
pub mod errors;
pub mod escape;
pub mod name;
pub mod attributes;
pub mod events;
pub mod syntax;
pub mod reader;
pub mod document;
pub mod ns;
pub mod writer;
pub mod tree;
pub mod shape;
pub mod simple;
pub mod de;

//! The events that the reader produces and the writer consumes.

use vstd::prelude::*;
use vstd::string::StringSliceAdditionalSpecFns;
use crate::attributes::{attr_at, Attributes, attrs_spec, AttrStep};
use crate::errors::{Error, ErrorSpec};
use crate::escape::{
    EntityResolver, escape, escape_attribute, escape_spec, is_plain, NoEntities, unescape_spec,
    unescape_with,
};
use crate::name::{local_name, local_name_spec, prefix, prefix_spec};
use crate::syntax::{trim_end, trimmed_len};
use crate::utils::{AMP, CowBytes, EQUALS, extend, QUOT, slice_eq, SPACE, subslice, to_vec};

verus! {

/// What a tag holds: its name and the raw region after the name, which
/// carries the attributes.
pub struct TagSpec {
    pub name: Seq<u8>,
    pub attrs: Seq<u8>,
}

impl TagSpec {
    /// The tag's content as it stands between the angle brackets.
    pub open spec fn raw(self) -> Seq<u8> {
        self.name + self.attrs
    }
}

/// The mathematical value of an [`Event`].
pub enum EventSpec {
    Start(TagSpec),
    End(Seq<u8>),
    Empty(TagSpec),
    Text(Seq<u8>),
    CData(Seq<u8>),
    Comment(Seq<u8>),
    PI(Seq<u8>),
    Decl(Seq<u8>),
    DocType(Seq<u8>),
    Eof,
}

/// An attribute as it is written into a tag: a space, the name, `=`, and
/// the value, escaped in full, between double quotes.
pub open spec fn attribute_bytes(key: Seq<u8>, value: Seq<u8>) -> Seq<u8> {
    seq![SPACE] + key + seq![EQUALS, QUOT] + escape_spec(value, false, Some(QUOT)) + seq![QUOT]
}

/// The content of an opening or self-closing tag: the element's name
/// followed by its attributes, unparsed.
#[derive(Debug, Clone, PartialEq)]
pub struct BytesStart<'a> {
    pub(crate) buf: CowBytes<'a>,
    pub(crate) name_len: usize,
}

impl<'a> View for BytesStart<'a> {
    type V = TagSpec;

    open(crate) spec fn view(&self) -> TagSpec {
        let k = if self.name_len <= self.buf@.len() {
            self.name_len as int
        } else {
            self.buf@.len() as int
        };
        TagSpec { name: self.buf@.take(k), attrs: self.buf@.skip(k) }
    }
}

impl<'a> BytesStart<'a> {
    /// Whether the content is a borrow of its source.
    pub open(crate) spec fn is_borrowed(&self) -> bool {
        self.buf is Borrowed
    }

    /// A tag with the given name and no attributes.
    pub fn new(name: &'a [u8]) -> (r: Self)
        ensures
            r@.name == name@,
            r@.attrs == Seq::<u8>::empty(),
            r.is_borrowed(),
    {
        let r = BytesStart { buf: CowBytes::Borrowed(name), name_len: name.len() };
        assert(r@.name =~= name@);
        assert(r@.attrs =~= Seq::<u8>::empty());
        r
    }

    /// A tag from its whole content, of which the first `name_len` bytes (all
    /// of it, if it is shorter) are the name.
    pub fn from_content(content: &'a [u8], name_len: usize) -> (r: Self)
        ensures
            r@.name == content@.take(
                if name_len <= content@.len() {
                    name_len as int
                } else {
                    content@.len() as int
                },
            ),
            r@.attrs == content@.skip(
                if name_len <= content@.len() {
                    name_len as int
                } else {
                    content@.len() as int
                },
            ),
            r@.raw() == content@,
            r.is_borrowed(),
    {
        let r = BytesStart { buf: CowBytes::Borrowed(content), name_len };
        assert(r@.raw() =~= content@);
        r
    }

    fn split(&self) -> (k: usize)
        ensures
            k <= self.buf@.len(),
            self@.name == self.buf@.take(k as int),
            self@.attrs == self.buf@.skip(k as int),
    {
        if self.name_len <= self.buf.len() {
            self.name_len
        } else {
            self.buf.len()
        }
    }

    /// The element's name, prefix included.
    pub fn name(&self) -> (r: &[u8])
        ensures
            r@ == self@.name,
    {
        let k = self.split();
        subslice(self.buf.as_slice(), 0, k)
    }

    /// The element's name as a borrow of the source, where the tag borrows
    /// its content; the whole content's lifetime is then the name's.
    pub(crate) fn name_borrowed(&self) -> (r: &'a [u8])
        requires
            self.is_borrowed(),
        ensures
            r@ == self@.name,
    {
        let k = self.split();
        match &self.buf {
            CowBytes::Borrowed(s) => subslice(*s, 0, k),
            CowBytes::Owned(_) => {
                proof {
                    assert(false);
                }
                &[]
            },
        }
    }

    /// The local part of the element's name.
    pub fn local_name(&self) -> (r: &[u8])
        ensures
            r@ == local_name_spec(self@.name),
    {
        local_name(self.name())
    }

    /// The prefix of the element's name, if it has one.
    pub fn prefix(&self) -> (r: Option<&[u8]>)
        ensures
            match r {
                Some(p) => prefix_spec(self@.name) == Some(p@),
                None => prefix_spec(self@.name) is None,
            },
    {
        prefix(self.name())
    }

    /// A cursor over the attributes, which are parsed as the cursor moves.
    /// With checks, a name that occurs twice is an error.
    pub fn attributes(&self, with_checks: bool) -> (r: Attributes<'_>)
        ensures
            r.wf(),
            r.raw() == self@.attrs,
            r.with_checks() == with_checks,
            r.rest() == attrs_spec(self@.attrs, with_checks),
    {
        Attributes::new(self.attributes_raw(), with_checks)
    }

    /// The raw region after the name as a borrow of the source, where the
    /// tag borrows its content.
    pub(crate) fn attributes_borrowed(&self) -> (r: &'a [u8])
        requires
            self.is_borrowed(),
        ensures
            r@ == self@.attrs,
    {
        let k = self.split();
        match &self.buf {
            CowBytes::Borrowed(s) => subslice(*s, k, s.len()),
            CowBytes::Owned(_) => {
                proof {
                    assert(false);
                }
                &[]
            },
        }
    }

    /// The raw region after the name.
    pub fn attributes_raw(&self) -> (r: &[u8])
        ensures
            r@ == self@.attrs,
    {
        let k = self.split();
        let s = self.buf.as_slice();
        subslice(s, k, s.len())
    }

    /// The whole content: name, then attributes.
    pub fn as_bytes(&self) -> (r: &[u8])
        ensures
            r@ == self@.raw(),
    {
        let r = self.buf.as_slice();
        assert(r@ =~= self@.raw());
        r
    }

    /// Adds an attribute to the tag: a space, the name, and the value,
    /// escaped in full, between double quotes. The content is then the tag's
    /// own.
    pub fn push_attribute(&mut self, key: &[u8], value: &[u8])
        ensures
            final(self)@.name == old(self)@.name,
            final(self)@.attrs == old(self)@.attrs + attribute_bytes(key@, value@),
            !final(self).is_borrowed(),
    {
        let k = self.split();
        let mut buf = to_vec(self.buf.as_slice());
        buf.push(SPACE);
        extend(&mut buf, key);
        buf.push(EQUALS);
        buf.push(QUOT);
        extend(&mut buf, escape_attribute(value, false, QUOT).as_slice());
        buf.push(QUOT);
        proof {
            let old_buf = old(self).buf@;
            assert(buf@ =~= old_buf + attribute_bytes(key@, value@));
            assert(buf@.take(k as int) =~= old_buf.take(k as int));
            assert(buf@.skip(k as int) =~= old_buf.skip(k as int) + attribute_bytes(
                key@,
                value@,
            ));
        }
        self.buf = CowBytes::Owned(buf);
        self.name_len = k;
    }

    /// The closing tag that matches this one.
    pub fn to_end(&self) -> (r: BytesEnd<'_>)
        ensures
            r@ == self@.name,
    {
        BytesEnd { name: CowBytes::Borrowed(self.name()) }
    }

    /// A copy that borrows nothing.
    pub fn into_owned(self) -> (r: BytesStart<'static>)
        ensures
            r@ == self@,
            !r.is_borrowed(),
    {
        BytesStart { buf: CowBytes::Owned(self.buf.into_owned()), name_len: self.name_len }
    }
}

/// The content of a closing tag: what stands between `</` and `>`.
#[derive(Debug, Clone, PartialEq)]
pub struct BytesEnd<'a> {
    pub(crate) name: CowBytes<'a>,
}

impl<'a> View for BytesEnd<'a> {
    type V = Seq<u8>;

    open(crate) spec fn view(&self) -> Seq<u8> {
        self.name@
    }
}

impl<'a> BytesEnd<'a> {
    /// Whether the content is a borrow of its source.
    pub open(crate) spec fn is_borrowed(&self) -> bool {
        self.name is Borrowed
    }

    /// A closing tag for the given name.
    pub fn new(name: &'a [u8]) -> (r: Self)
        ensures
            r@ == name@,
            r.is_borrowed(),
    {
        BytesEnd { name: CowBytes::Borrowed(name) }
    }

    /// The content as it stands in the tag.
    pub fn as_bytes(&self) -> (r: &[u8])
        ensures
            r@ == self@,
    {
        self.name.as_slice()
    }

    /// The element's name: the content without the whitespace at its end.
    pub fn name(&self) -> (r: &[u8])
        ensures
            r@ == self@.take(trimmed_len(self@)),
    {
        let s = self.name.as_slice();
        subslice(s, 0, trim_end(s))
    }

    /// The local part of the element's name.
    pub fn local_name(&self) -> (r: &[u8])
        ensures
            r@ == local_name_spec(self@.take(trimmed_len(self@))),
    {
        local_name(self.name())
    }

    /// The prefix of the element's name, if it has one.
    pub fn prefix(&self) -> (r: Option<&[u8]>)
        ensures
            match r {
                Some(p) => prefix_spec(self@.take(trimmed_len(self@))) == Some(p@),
                None => prefix_spec(self@.take(trimmed_len(self@))) is None,
            },
    {
        prefix(self.name())
    }

    /// A copy that borrows nothing.
    pub fn into_owned(self) -> (r: BytesEnd<'static>)
        ensures
            r@ == self@,
            !r.is_borrowed(),
    {
        BytesEnd { name: CowBytes::Owned(self.name.into_owned()) }
    }
}

/// Character data, a comment, a processing instruction or a document type:
/// content that is held in escaped form.
#[derive(Debug, Clone, PartialEq)]
pub struct BytesText<'a> {
    pub(crate) content: CowBytes<'a>,
}

impl<'a> View for BytesText<'a> {
    type V = Seq<u8>;

    open(crate) spec fn view(&self) -> Seq<u8> {
        self.content@
    }
}

impl<'a> BytesText<'a> {
    /// Whether the content is a borrow of its source.
    pub open(crate) spec fn is_borrowed(&self) -> bool {
        self.content is Borrowed
    }

    /// The content as a borrow of the source, where it is one.
    pub(crate) fn content_borrowed(&self) -> (r: &'a [u8])
        requires
            self.is_borrowed(),
        ensures
            r@ == self@,
    {
        match &self.content {
            CowBytes::Borrowed(s) => *s,
            CowBytes::Owned(_) => {
                proof {
                    assert(false);
                }
                &[]
            },
        }
    }

    /// Text from raw content, which is escaped in full: `<`, `>`, `&`, `'`
    /// and `"` are written as entities. The text borrows `content` exactly
    /// where nothing had to be escaped.
    pub fn new(content: &'a [u8]) -> (r: Self)
        ensures
            r@ == escape_spec(content@, false, None),
            r.is_borrowed() == is_plain(content@, false, None),
    {
        BytesText { content: escape(content, false) }
    }

    /// The content decoded, with only numeric references and the five
    /// predefined entities known. The result borrows exactly where the
    /// content holds no `&`.
    pub fn unescape(&self) -> (r: Result<CowBytes<'_>, Error>)
        ensures
            match r {
                Ok(v) => unescape_spec(self@, NoEntities) == Ok::<Seq<u8>, ErrorSpec>(v@) && (v
                    is Borrowed) == !self@.contains(AMP),
                Err(e) => unescape_spec(self@, NoEntities) == Err::<Seq<u8>, ErrorSpec>(e@),
            },
    {
        unescape_with(self.content.as_slice(), &NoEntities)
    }

    /// The content decoded with the help of a resolver for entities that XML
    /// does not predefine. The result borrows exactly where the content
    /// holds no `&`.
    pub fn unescape_with<R: EntityResolver>(&self, resolver: &R) -> (r: Result<
        CowBytes<'_>,
        Error,
    >)
        ensures
            match r {
                Ok(v) => unescape_spec(self@, *resolver) == Ok::<Seq<u8>, ErrorSpec>(v@) && (v
                    is Borrowed) == !self@.contains(AMP),
                Err(e) => unescape_spec(self@, *resolver) == Err::<Seq<u8>, ErrorSpec>(e@),
            },
    {
        unescape_with(self.content.as_slice(), resolver)
    }

    /// Text from content that is escaped already.
    pub fn from_escaped(content: &'a [u8]) -> (r: Self)
        ensures
            r@ == content@,
            r.is_borrowed(),
    {
        BytesText { content: CowBytes::Borrowed(content) }
    }

    /// The content as it stands in the document, still escaped.
    pub fn as_bytes(&self) -> (r: &[u8])
        ensures
            r@ == self@,
    {
        self.content.as_slice()
    }

    /// A copy that borrows nothing.
    pub fn into_owned(self) -> (r: BytesText<'static>)
        ensures
            r@ == self@,
            !r.is_borrowed(),
    {
        BytesText { content: CowBytes::Owned(self.content.into_owned()) }
    }
}

/// The content of a CDATA section, which is never escaped.
#[derive(Debug, Clone, PartialEq)]
pub struct BytesCData<'a> {
    pub(crate) content: CowBytes<'a>,
}

impl<'a> View for BytesCData<'a> {
    type V = Seq<u8>;

    open(crate) spec fn view(&self) -> Seq<u8> {
        self.content@
    }
}

impl<'a> BytesCData<'a> {
    /// Whether the content is a borrow of its source.
    pub open(crate) spec fn is_borrowed(&self) -> bool {
        self.content is Borrowed
    }

    /// The content as a borrow of the source, where it is one.
    pub(crate) fn content_borrowed(&self) -> (r: &'a [u8])
        requires
            self.is_borrowed(),
        ensures
            r@ == self@,
    {
        match &self.content {
            CowBytes::Borrowed(s) => *s,
            CowBytes::Owned(_) => {
                proof {
                    assert(false);
                }
                &[]
            },
        }
    }

    /// A CDATA section with the given content.
    pub fn new(content: &'a [u8]) -> (r: Self)
        ensures
            r@ == content@,
            r.is_borrowed(),
    {
        BytesCData { content: CowBytes::Borrowed(content) }
    }

    /// The content of the section.
    pub fn as_bytes(&self) -> (r: &[u8])
        ensures
            r@ == self@,
    {
        self.content.as_slice()
    }

    /// A copy that borrows nothing.
    pub fn into_owned(self) -> (r: BytesCData<'static>)
        ensures
            r@ == self@,
            !r.is_borrowed(),
    {
        BytesCData { content: CowBytes::Owned(self.content.into_owned()) }
    }
}

/// `xml version="`
pub open spec fn decl_version_prefix() -> Seq<u8> {
    seq![
        'x' as u8, 'm' as u8, 'l' as u8, ' ' as u8, 'v' as u8, 'e' as u8, 'r' as u8, 's' as u8,
        'i' as u8, 'o' as u8, 'n' as u8, '=' as u8, '"' as u8,
    ]
}

/// `" encoding="`
pub open spec fn decl_encoding_prefix() -> Seq<u8> {
    seq![
        '"' as u8, ' ' as u8, 'e' as u8, 'n' as u8, 'c' as u8, 'o' as u8, 'd' as u8, 'i' as u8,
        'n' as u8, 'g' as u8, '=' as u8, '"' as u8,
    ]
}

/// `" standalone="`
pub open spec fn decl_standalone_prefix() -> Seq<u8> {
    seq![
        '"' as u8, ' ' as u8, 's' as u8, 't' as u8, 'a' as u8, 'n' as u8, 'd' as u8, 'a' as u8,
        'l' as u8, 'o' as u8, 'n' as u8, 'e' as u8, '=' as u8, '"' as u8,
    ]
}

/// The content of an XML declaration with the given pseudo-attributes:
/// `xml version="V"`, then ` encoding="E"` and ` standalone="S"` for those
/// that are present.
pub open spec fn decl_content(
    version: Seq<u8>,
    encoding: Option<Seq<u8>>,
    standalone: Option<Seq<u8>>,
) -> Seq<u8> {
    decl_version_prefix() + version + (match encoding {
        Some(e) => decl_encoding_prefix() + e,
        None => Seq::<u8>::empty(),
    }) + (match standalone {
        Some(s) => decl_standalone_prefix() + s,
        None => Seq::<u8>::empty(),
    }) + seq!['"' as u8]
}

/// What follows the target in the content of a declaration: the content
/// without its first three bytes.
pub open spec fn decl_attributes(content: Seq<u8>) -> Seq<u8> {
    content.skip(if content.len() < 3 {
        content.len() as int
    } else {
        3
    })
}

/// The value of the first attribute of the given name from `pos` on. What
/// is no attribute is an error, unless the name was found before it.
pub open spec fn value_from(raw: Seq<u8>, pos: int, key: Seq<u8>) -> Result<
    Option<Seq<u8>>,
    ErrorSpec,
>
    decreases raw.len() - pos,
{
    match attr_at(raw, pos) {
        AttrStep::End => Ok(None),
        AttrStep::Fail(e) => Err(e),
        AttrStep::Attr { attr, key_at, next } => if attr.key == key {
            Ok(Some(attr.value))
        } else if !(pos < next <= raw.len()) {
            Ok(None)
        } else {
            value_from(raw, next, key)
        },
    }
}

/// The value of a pseudo-attribute of a declaration.
pub open spec fn pseudo_attribute_spec(content: Seq<u8>, key: Seq<u8>) -> Result<
    Option<Seq<u8>>,
    ErrorSpec,
> {
    value_from(decl_attributes(content), 0, key)
}

/// The content of an XML declaration: what stands between `<?` and `?>`.
#[derive(Debug, Clone, PartialEq)]
pub struct BytesDecl<'a> {
    pub(crate) content: CowBytes<'a>,
}

impl<'a> View for BytesDecl<'a> {
    type V = Seq<u8>;

    open(crate) spec fn view(&self) -> Seq<u8> {
        self.content@
    }
}

impl<'a> BytesDecl<'a> {
    /// Whether the content is a borrow of its source.
    pub open(crate) spec fn is_borrowed(&self) -> bool {
        self.content is Borrowed
    }

    /// A declaration with the given version and, where present, encoding and
    /// standalone status.
    pub fn new(version: &[u8], encoding: Option<&[u8]>, standalone: Option<&[u8]>) -> (r:
        BytesDecl<'static>)
        ensures
            r@ == decl_content(
                version@,
                match encoding {
                    Some(e) => Some(e@),
                    None => None,
                },
                match standalone {
                    Some(s) => Some(s@),
                    None => None,
                },
            ),
            !r.is_borrowed(),
    {
        let mut buf: Vec<u8> = Vec::new();
        let head: [u8; 13] = [
            'x' as u8, 'm' as u8, 'l' as u8, ' ' as u8, 'v' as u8, 'e' as u8, 'r' as u8,
            's' as u8, 'i' as u8, 'o' as u8, 'n' as u8, '=' as u8, '"' as u8,
        ];
        extend(&mut buf, head.as_slice());
        assert(buf@ =~= decl_version_prefix());
        extend(&mut buf, version);
        let ghost after_version = buf@;
        if let Some(e) = encoding {
            let mid: [u8; 12] = [
                '"' as u8, ' ' as u8, 'e' as u8, 'n' as u8, 'c' as u8, 'o' as u8, 'd' as u8,
                'i' as u8, 'n' as u8, 'g' as u8, '=' as u8, '"' as u8,
            ];
            extend(&mut buf, mid.as_slice());
            assert(mid@ =~= decl_encoding_prefix());
            extend(&mut buf, e);
        }
        let ghost after_encoding = buf@;
        assert(after_encoding =~= after_version + (match encoding {
            Some(e) => decl_encoding_prefix() + e@,
            None => Seq::<u8>::empty(),
        }));
        if let Some(s) = standalone {
            let mid: [u8; 14] = [
                '"' as u8, ' ' as u8, 's' as u8, 't' as u8, 'a' as u8, 'n' as u8, 'd' as u8,
                'a' as u8, 'l' as u8, 'o' as u8, 'n' as u8, 'e' as u8, '=' as u8, '"' as u8,
            ];
            extend(&mut buf, mid.as_slice());
            assert(mid@ =~= decl_standalone_prefix());
            extend(&mut buf, s);
        }
        assert(buf@ =~= after_encoding + (match standalone {
            Some(s) => decl_standalone_prefix() + s@,
            None => Seq::<u8>::empty(),
        }));
        buf.push('"' as u8);
        BytesDecl { content: CowBytes::Owned(buf) }
    }

    /// The value of a pseudo-attribute of the declaration, as it stands
    /// between the quotes; `None` where the declaration has none of that
    /// name. What follows the target `xml` is read as attributes are.
    pub fn pseudo_attribute(&self, key: &[u8]) -> (r: Result<Option<&[u8]>, Error>)
        ensures
            match r {
                Ok(Some(v)) => pseudo_attribute_spec(self@, key@) == Ok::<
                    Option<Seq<u8>>,
                    ErrorSpec,
                >(Some(v@)),
                Ok(None) => pseudo_attribute_spec(self@, key@) == Ok::<
                    Option<Seq<u8>>,
                    ErrorSpec,
                >(None),
                Err(e) => pseudo_attribute_spec(self@, key@) == Err::<
                    Option<Seq<u8>>,
                    ErrorSpec,
                >(e@),
            },
    {
        let content = self.content.as_slice();
        let from = if content.len() < 3 {
            content.len()
        } else {
            3
        };
        let raw = subslice(content, from, content.len());
        assert(raw@ =~= decl_attributes(self@));
        let mut cursor = Attributes::new(raw, false);
        loop
            invariant
                cursor.wf(),
                cursor.raw() == decl_attributes(self@),
                !cursor.with_checks(),
                pseudo_attribute_spec(self@, key@) == value_from(
                    cursor.raw(),
                    cursor.pos(),
                    key@,
                ),
            decreases cursor.raw().len() - cursor.pos(),
        {
            proof {
                cursor.lemma_cursor_in_range();
            }
            match cursor.next_attribute() {
                None => {
                    return Ok(None);
                },
                Some(Err(e)) => {
                    return Err(e);
                },
                Some(Ok(a)) => {
                    if slice_eq(a.key, key) {
                        return Ok(Some(a.value));
                    }
                },
            }
        }
    }

    /// The version that the declaration states.
    pub fn version(&self) -> (r: Result<Option<&[u8]>, Error>)
        ensures
            match r {
                Ok(Some(v)) => pseudo_attribute_spec(self@, "version".spec_bytes()) == Ok::<
                    Option<Seq<u8>>,
                    ErrorSpec,
                >(Some(v@)),
                Ok(None) => pseudo_attribute_spec(self@, "version".spec_bytes()) == Ok::<
                    Option<Seq<u8>>,
                    ErrorSpec,
                >(None),
                Err(e) => pseudo_attribute_spec(self@, "version".spec_bytes()) == Err::<
                    Option<Seq<u8>>,
                    ErrorSpec,
                >(e@),
            },
    {
        self.pseudo_attribute("version".as_bytes())
    }

    /// The encoding that the declaration states.
    pub fn encoding(&self) -> (r: Result<Option<&[u8]>, Error>)
        ensures
            match r {
                Ok(Some(v)) => pseudo_attribute_spec(self@, "encoding".spec_bytes()) == Ok::<
                    Option<Seq<u8>>,
                    ErrorSpec,
                >(Some(v@)),
                Ok(None) => pseudo_attribute_spec(self@, "encoding".spec_bytes()) == Ok::<
                    Option<Seq<u8>>,
                    ErrorSpec,
                >(None),
                Err(e) => pseudo_attribute_spec(self@, "encoding".spec_bytes()) == Err::<
                    Option<Seq<u8>>,
                    ErrorSpec,
                >(e@),
            },
    {
        self.pseudo_attribute("encoding".as_bytes())
    }

    /// Whether the declaration states the document to stand alone, as it
    /// is written.
    pub fn standalone(&self) -> (r: Result<Option<&[u8]>, Error>)
        ensures
            match r {
                Ok(Some(v)) => pseudo_attribute_spec(self@, "standalone".spec_bytes()) == Ok::<
                    Option<Seq<u8>>,
                    ErrorSpec,
                >(Some(v@)),
                Ok(None) => pseudo_attribute_spec(self@, "standalone".spec_bytes()) == Ok::<
                    Option<Seq<u8>>,
                    ErrorSpec,
                >(None),
                Err(e) => pseudo_attribute_spec(self@, "standalone".spec_bytes()) == Err::<
                    Option<Seq<u8>>,
                    ErrorSpec,
                >(e@),
            },
    {
        self.pseudo_attribute("standalone".as_bytes())
    }

    /// A declaration from its content as it stands in the document.
    pub fn from_content(content: &'a [u8]) -> (r: Self)
        ensures
            r@ == content@,
            r.is_borrowed(),
    {
        BytesDecl { content: CowBytes::Borrowed(content) }
    }

    /// The content as it stands in the document.
    pub fn as_bytes(&self) -> (r: &[u8])
        ensures
            r@ == self@,
    {
        self.content.as_slice()
    }

    /// A copy that borrows nothing.
    pub fn into_owned(self) -> (r: BytesDecl<'static>)
        ensures
            r@ == self@,
            !r.is_borrowed(),
    {
        BytesDecl { content: CowBytes::Owned(self.content.into_owned()) }
    }
}

/// One unit of a document, as the reader reports it and the writer takes it.
#[derive(Debug, Clone, PartialEq)]
pub enum Event<'a> {
    /// An opening tag, `<name attrs>`.
    Start(BytesStart<'a>),
    /// A closing tag, `</name>`.
    End(BytesEnd<'a>),
    /// A self-closing tag, `<name attrs/>`.
    Empty(BytesStart<'a>),
    /// Character data between tags, still escaped.
    Text(BytesText<'a>),
    /// The content of `<![CDATA[...]]>`.
    CData(BytesCData<'a>),
    /// The content of `<!--...-->`.
    Comment(BytesText<'a>),
    /// The content of `<?...?>` that is no XML declaration.
    PI(BytesText<'a>),
    /// The XML declaration, `<?xml ...?>`.
    Decl(BytesDecl<'a>),
    /// The content of `<!DOCTYPE ...>`.
    DocType(BytesText<'a>),
    /// The end of the document.
    Eof,
}

impl<'a> View for Event<'a> {
    type V = EventSpec;

    open spec fn view(&self) -> EventSpec {
        match self {
            Event::Start(e) => EventSpec::Start(e@),
            Event::End(e) => EventSpec::End(e@),
            Event::Empty(e) => EventSpec::Empty(e@),
            Event::Text(e) => EventSpec::Text(e@),
            Event::CData(e) => EventSpec::CData(e@),
            Event::Comment(e) => EventSpec::Comment(e@),
            Event::PI(e) => EventSpec::PI(e@),
            Event::Decl(e) => EventSpec::Decl(e@),
            Event::DocType(e) => EventSpec::DocType(e@),
            Event::Eof => EventSpec::Eof,
        }
    }
}

impl<'a> AsRef<Event<'a>> for Event<'a> {
    fn as_ref(&self) -> (r: &Event<'a>)
        ensures
            *r == *self,
    {
        self
    }
}

impl<'a> Event<'a> {
    /// Whether the event's content is a borrow of its source. `Eof` has no
    /// content and counts as borrowed.
    pub open spec fn is_borrowed(&self) -> bool {
        match self {
            Event::Start(e) => e.is_borrowed(),
            Event::End(e) => e.is_borrowed(),
            Event::Empty(e) => e.is_borrowed(),
            Event::Text(e) => e.is_borrowed(),
            Event::CData(e) => e.is_borrowed(),
            Event::Comment(e) => e.is_borrowed(),
            Event::PI(e) => e.is_borrowed(),
            Event::Decl(e) => e.is_borrowed(),
            Event::DocType(e) => e.is_borrowed(),
            Event::Eof => true,
        }
    }

    /// Whether the event is the end of the document.
    pub fn is_eof(&self) -> (r: bool)
        ensures
            r == (self@ is Eof),
    {
        match self {
            Event::Eof => true,
            _ => false,
        }
    }

    /// The same event with content of its own, valid beyond the source's
    /// lifetime.
    pub fn into_owned(self) -> (r: Event<'static>)
        ensures
            r@ == self@,
    {
        match self {
            Event::Start(e) => Event::Start(e.into_owned()),
            Event::End(e) => Event::End(e.into_owned()),
            Event::Empty(e) => Event::Empty(e.into_owned()),
            Event::Text(e) => Event::Text(e.into_owned()),
            Event::CData(e) => Event::CData(e.into_owned()),
            Event::Comment(e) => Event::Comment(e.into_owned()),
            Event::PI(e) => Event::PI(e.into_owned()),
            Event::Decl(e) => Event::Decl(e.into_owned()),
            Event::DocType(e) => Event::DocType(e.into_owned()),
            Event::Eof => Event::Eof,
        }
    }
}

/// Whether every event of a list borrows its content from the source.
pub open spec fn all_borrowed(events: Seq<Event>) -> bool {
    forall|i: int| 0 <= i < events.len() ==> (#[trigger] events[i]).is_borrowed()
}

/// The values of a list of events.
pub open spec fn events_view(events: Seq<Event>) -> Seq<EventSpec> {
    Seq::new(events.len(), |i: int| events[i]@)
}

} // verus!

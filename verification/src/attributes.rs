//! The attributes of a tag, parsed on demand from the raw region after the
//! tag's name.

use vstd::prelude::*;
use crate::errors::{Error, ErrorSpec, SyntaxKind};
use crate::escape::{
    EntityResolver, escape_byte, escape_spec, lemma_unescape_escape, unescape_spec, unescape_with,
};
use crate::syntax::{
    find_byte, lemma_find_byte_bounds, lemma_skip_spaces_bounds, scan_byte, scan_spaces,
    skip_spaces,
};
use crate::utils::{
    AMP, APOS, CowBytes, EQUALS, is_space, is_space_spec, QUOT, slice_eq, SPACE, subslice,
};

verus! {

/// An attribute, as a mathematical value: its name and its value as it
/// stands between the quotes, still escaped.
pub struct AttrSpec {
    pub key: Seq<u8>,
    pub value: Seq<u8>,
}

/// What stands at a position of the raw region.
pub enum AttrStep {
    /// Nothing but whitespace: the attributes are at their end.
    End,
    /// An attribute whose name starts at `key_at`; the next one is looked
    /// for from `next`.
    Attr { attr: AttrSpec, key_at: int, next: int },
    /// Something that is no attribute.
    Fail(ErrorSpec),
}

/// The first position at or after `from` that holds whitespace or `=`, or
/// the length of the text where there is none.
pub open spec fn key_end(raw: Seq<u8>, from: int) -> int
    decreases raw.len() - from,
{
    if from >= raw.len() {
        raw.len() as int
    } else if is_space_spec(raw[from]) || raw[from] == EQUALS {
        from
    } else {
        key_end(raw, from + 1)
    }
}

/// The attribute that starts at or after `pos`.
///
/// Whitespace may stand before the name, around the `=` and after the
/// value. The name ends at the first whitespace or `=`; an `=` must follow
/// it, and a value in single or in double quotes must follow the `=`. The
/// value ends at the next quote of the kind that opened it.
pub open spec fn attr_at(raw: Seq<u8>, pos: int) -> AttrStep {
    let p = skip_spaces(raw, pos);
    if p >= raw.len() {
        AttrStep::End
    } else {
        let ke = key_end(raw, p);
        let q = skip_spaces(raw, ke);
        if q >= raw.len() || raw[q] != EQUALS {
            AttrStep::Fail(ErrorSpec::Syntax { kind: SyntaxKind::ExpectedEq, offset: q })
        } else {
            let v = skip_spaces(raw, q + 1);
            if v >= raw.len() {
                AttrStep::Fail(ErrorSpec::Syntax { kind: SyntaxKind::ExpectedValue, offset: v })
            } else if raw[v] == QUOT || raw[v] == APOS {
                let c = find_byte(raw, v + 1, raw[v]);
                if c >= raw.len() {
                    AttrStep::Fail(
                        ErrorSpec::Syntax { kind: SyntaxKind::ExpectedQuote, offset: v },
                    )
                } else {
                    AttrStep::Attr {
                        attr: AttrSpec { key: raw.subrange(p, ke), value: raw.subrange(v + 1, c) },
                        key_at: p,
                        next: c + 1,
                    }
                }
            } else {
                AttrStep::Fail(ErrorSpec::Syntax { kind: SyntaxKind::UnquotedValue, offset: v })
            }
        }
    }
}

/// The attributes from `pos` on, or the first error.
///
/// With checks, an attribute whose name is among `seen`, the names that
/// came before, is an error at the position of its name.
pub open spec fn attrs_from(raw: Seq<u8>, pos: int, with_checks: bool, seen: Seq<Seq<u8>>) -> Result<
    Seq<AttrSpec>,
    ErrorSpec,
>
    decreases raw.len() - pos,
{
    match attr_at(raw, pos) {
        AttrStep::End => Ok(Seq::empty()),
        AttrStep::Fail(e) => Err(e),
        AttrStep::Attr { attr, key_at, next } => if with_checks && seen.contains(attr.key) {
            Err(ErrorSpec::Syntax { kind: SyntaxKind::DuplicatedAttribute, offset: key_at })
        } else if !(pos < next <= raw.len()) {
            Ok(seq![attr])
        } else {
            match attrs_from(raw, next, with_checks, seen.push(attr.key)) {
                Ok(rest) => Ok(seq![attr] + rest),
                Err(e) => Err(e),
            }
        },
    }
}

/// All attributes of a raw region, or the first error.
pub open spec fn attrs_spec(raw: Seq<u8>, with_checks: bool) -> Result<Seq<AttrSpec>, ErrorSpec> {
    attrs_from(raw, 0, with_checks, Seq::empty())
}

/// The end of a name lies between its start and the end of the text.
pub proof fn lemma_key_end_bounds(raw: Seq<u8>, from: int)
    requires
        0 <= from <= raw.len(),
    ensures
        from <= key_end(raw, from) <= raw.len(),
        forall|j: int|
            from <= j < key_end(raw, from) ==> !is_space_spec(raw[j]) && raw[j] != EQUALS,
    decreases raw.len() - from,
{
    if from < raw.len() && !(is_space_spec(raw[from]) || raw[from] == EQUALS) {
        lemma_key_end_bounds(raw, from + 1);
    }
}

/// An attribute lies behind the position from which it was looked for, and
/// the search for the next one starts behind it.
pub proof fn lemma_attr_at_bounds(raw: Seq<u8>, pos: int)
    requires
        0 <= pos <= raw.len(),
    ensures
        match attr_at(raw, pos) {
            AttrStep::Attr { attr, key_at, next } => pos <= key_at < next <= raw.len(),
            AttrStep::Fail(ErrorSpec::Syntax { kind, offset }) => pos <= offset <= raw.len(),
            _ => true,
        },
{
    lemma_skip_spaces_bounds(raw, pos);
    let p = skip_spaces(raw, pos);
    if p < raw.len() {
        lemma_key_end_bounds(raw, p);
        let ke = key_end(raw, p);
        lemma_skip_spaces_bounds(raw, ke);
        let q = skip_spaces(raw, ke);
        if q < raw.len() {
            lemma_skip_spaces_bounds(raw, q + 1);
            let v = skip_spaces(raw, q + 1);
            if v < raw.len() {
                lemma_find_byte_bounds(raw, v + 1, raw[v]);
            }
        }
    }
}

/// An attribute of a tag.
#[derive(Debug, Clone, Copy, PartialEq, Eq)]
pub struct Attribute<'a> {
    /// The name, prefix included.
    pub key: &'a [u8],
    /// The value as it stands between the quotes, still escaped.
    pub value: &'a [u8],
}

impl<'a> View for Attribute<'a> {
    type V = AttrSpec;

    open spec fn view(&self) -> AttrSpec {
        AttrSpec { key: self.key@, value: self.value@ }
    }
}

impl<'a> Attribute<'a> {
    /// The value decoded with the help of a resolver. The result borrows
    /// exactly where the value holds no `&`.
    pub fn unescape_value_with<R: EntityResolver>(&self, resolver: &R) -> (r: Result<
        CowBytes<'_>,
        Error,
    >)
        ensures
            match r {
                Ok(v) => unescape_spec(self@.value, *resolver) == Ok::<Seq<u8>, ErrorSpec>(v@)
                    && (v is Borrowed) == !self@.value.contains(AMP),
                Err(e) => unescape_spec(self@.value, *resolver) == Err::<Seq<u8>, ErrorSpec>(e@),
            },
    {
        unescape_with(self.value, resolver)
    }
}

/// The names that a list of borrowed names holds.
pub open spec fn keys_view(keys: Seq<&[u8]>) -> Seq<Seq<u8>> {
    Seq::new(keys.len(), |i: int| keys[i]@)
}

/// A cursor over the attributes of a tag.
#[derive(Debug, Clone)]
pub struct Attributes<'a> {
    raw: &'a [u8],
    pos: usize,
    with_checks: bool,
    seen: Vec<&'a [u8]>,
}

impl<'a> Attributes<'a> {
    /// The cursor is well formed: it stands within the raw region.
    pub closed spec fn wf(&self) -> bool {
        self.pos <= self.raw@.len()
    }

    /// The raw region that is parsed.
    pub closed spec fn raw(&self) -> Seq<u8> {
        self.raw@
    }

    /// The position from which the next attribute is looked for.
    pub closed spec fn pos(&self) -> int {
        self.pos as int
    }

    /// Whether duplicate names are refused.
    pub closed spec fn with_checks(&self) -> bool {
        self.with_checks
    }

    /// The names that came so far; they are kept only with checks.
    pub closed spec fn seen(&self) -> Seq<Seq<u8>> {
        keys_view(self.seen@)
    }

    /// What is left: the attributes from the cursor on, or the first error.
    pub open spec fn rest(&self) -> Result<Seq<AttrSpec>, ErrorSpec> {
        attrs_from(self.raw(), self.pos(), self.with_checks(), self.seen())
    }

    /// A cursor at the start of a raw region.
    pub fn new(raw: &'a [u8], with_checks: bool) -> (r: Attributes<'a>)
        ensures
            r.wf(),
            r.raw() == raw@,
            r.pos() == 0,
            r.with_checks() == with_checks,
            r.seen() == Seq::<Seq<u8>>::empty(),
            r.rest() == attrs_spec(raw@, with_checks),
    {
        let r = Attributes { raw, pos: 0, with_checks, seen: Vec::new() };
        assert(keys_view(r.seen@) =~= Seq::<Seq<u8>>::empty());
        r
    }

    fn find_key_end(raw: &[u8], from: usize) -> (k: usize)
        requires
            from <= raw@.len(),
        ensures
            k == key_end(raw@, from as int),
            from <= k <= raw@.len(),
    {
        let mut i: usize = from;
        while i < raw.len()
            invariant
                from <= i <= raw@.len(),
                key_end(raw@, from as int) == key_end(raw@, i as int),
            decreases raw@.len() - i,
        {
            if is_space(raw[i]) || raw[i] == EQUALS {
                return i;
            }
            i += 1;
        }
        i
    }

    fn was_seen(&self, key: &[u8]) -> (r: bool)
        ensures
            r == self.seen().contains(key@),
    {
        let mut i: usize = 0;
        while i < self.seen.len()
            invariant
                i <= self.seen@.len(),
                forall|j: int| 0 <= j < i ==> keys_view(self.seen@)[j] != key@,
            decreases self.seen@.len() - i,
        {
            if slice_eq(self.seen[i], key) {
                assert(keys_view(self.seen@)[i as int] == key@);
                return true;
            }
            i += 1;
        }
        false
    }

    /// A well-formed cursor stands within its raw region.
    pub proof fn lemma_cursor_in_range(&self)
        requires
            self.wf(),
        ensures
            0 <= self.pos() <= self.raw().len(),
    {
    }

    /// Parses the next attribute.
    ///
    /// `None` at the end of the attributes. After an error the cursor
    /// stands at the end, so that the error is reported once.
    pub fn next_attribute(&mut self) -> (r: Option<Result<Attribute<'a>, Error>>)
        requires
            old(self).wf(),
        ensures
            final(self).wf(),
            final(self).raw() == old(self).raw(),
            final(self).with_checks() == old(self).with_checks(),
            match r {
                None => old(self).rest() == Ok::<Seq<AttrSpec>, ErrorSpec>(Seq::empty())
                    && attr_at(old(self).raw(), old(self).pos()) is End,
                Some(Err(e)) => old(self).rest() == Err::<Seq<AttrSpec>, ErrorSpec>(e@)
                    && final(self).pos() == final(self).raw().len() && (old(self).with_checks()
                    || attr_at(old(self).raw(), old(self).pos()) is Fail),
                Some(Ok(a)) => {
                    &&& old(self).pos() < final(self).pos()
                    &&& attr_at(old(self).raw(), old(self).pos()) matches AttrStep::Attr {
                        attr,
                        key_at,
                        next,
                    } && attr == a@ && next == final(self).pos()
                    &&& match final(self).rest() {
                        Ok(more) => old(self).rest() == Ok::<Seq<AttrSpec>, ErrorSpec>(
                            seq![a@] + more,
                        ),
                        Err(e) => old(self).rest() == Err::<Seq<AttrSpec>, ErrorSpec>(e),
                    }
                },
            },
    {
        let raw = self.raw;
        let n = raw.len();
        proof {
            lemma_attr_at_bounds(raw@, self.pos as int);
        }
        let p = scan_spaces(raw, self.pos);
        if p >= n {
            return None;
        }
        let ke = Self::find_key_end(raw, p);
        let q = scan_spaces(raw, ke);
        if q >= n || raw[q] != EQUALS {
            self.pos = n;
            return Some(Err(Error::Syntax { kind: SyntaxKind::ExpectedEq, offset: q }));
        }
        let v = scan_spaces(raw, q + 1);
        if v >= n {
            self.pos = n;
            return Some(Err(Error::Syntax { kind: SyntaxKind::ExpectedValue, offset: v }));
        }
        let quote = raw[v];
        if quote != QUOT && quote != APOS {
            self.pos = n;
            return Some(Err(Error::Syntax { kind: SyntaxKind::UnquotedValue, offset: v }));
        }
        let c = scan_byte(raw, v + 1, quote);
        if c >= n {
            self.pos = n;
            return Some(Err(Error::Syntax { kind: SyntaxKind::ExpectedQuote, offset: v }));
        }
        let key = subslice(raw, p, ke);
        if self.with_checks {
            if self.was_seen(key) {
                self.pos = n;
                return Some(
                    Err(Error::Syntax { kind: SyntaxKind::DuplicatedAttribute, offset: p }),
                );
            }
            self.seen.push(key);
            assert(keys_view(self.seen@) =~= keys_view(old(self).seen@).push(key@));
        } else {
            proof {
                lemma_seen_is_ignored(raw@, c + 1, self.seen(), self.seen().push(key@));
            }
        }
        self.pos = c + 1;
        Some(Ok(Attribute { key, value: subslice(raw, v + 1, c) }))
    }

    /// Parses all attributes that are left.
    pub fn collect(&mut self) -> (r: Result<Vec<Attribute<'a>>, Error>)
        requires
            old(self).wf(),
        ensures
            final(self).wf(),
            final(self).raw() == old(self).raw(),
            final(self).with_checks() == old(self).with_checks(),
            match r {
                Ok(attrs) => old(self).rest() == Ok::<Seq<AttrSpec>, ErrorSpec>(
                    attributes_view(attrs@),
                ),
                Err(e) => old(self).rest() == Err::<Seq<AttrSpec>, ErrorSpec>(e@),
            },
    {
        let mut attrs: Vec<Attribute<'a>> = Vec::new();
        proof {
            match self.rest() {
                Ok(more) => {
                    assert(attributes_view(attrs@) + more =~= more);
                },
                Err(_) => {},
            }
        }
        loop
            invariant
                self.wf(),
                self.raw() == old(self).raw(),
                self.with_checks() == old(self).with_checks(),
                match self.rest() {
                    Ok(more) => old(self).rest() == Ok::<Seq<AttrSpec>, ErrorSpec>(
                        attributes_view(attrs@) + more,
                    ),
                    Err(e) => old(self).rest() == Err::<Seq<AttrSpec>, ErrorSpec>(e),
                },
            decreases self.raw().len() - self.pos(),
        {
            let ghost done = attributes_view(attrs@);
            match self.next_attribute() {
                None => {
                    assert(done + Seq::<AttrSpec>::empty() =~= done);
                    return Ok(attrs);
                },
                Some(Err(e)) => {
                    return Err(e);
                },
                Some(Ok(a)) => {
                    attrs.push(a);
                    proof {
                        assert(attributes_view(attrs@) =~= done.push(a@));
                        match self.rest() {
                            Ok(more) => {
                                assert(done + (seq![a@] + more) =~= done.push(a@) + more);
                            },
                            Err(_) => {},
                        }
                    }
                },
            }
        }
    }
}

/// The values of a list of attributes.
pub open spec fn attributes_view(attrs: Seq<Attribute>) -> Seq<AttrSpec> {
    Seq::new(attrs.len(), |i: int| attrs[i]@)
}

/// Without checks the names that came before play no part.
pub proof fn lemma_seen_is_ignored(raw: Seq<u8>, pos: int, a: Seq<Seq<u8>>, b: Seq<Seq<u8>>)
    requires
        0 <= pos <= raw.len(),
    ensures
        attrs_from(raw, pos, false, a) == attrs_from(raw, pos, false, b),
    decreases raw.len() - pos,
{
    lemma_attr_at_bounds(raw, pos);
    match attr_at(raw, pos) {
        AttrStep::Attr { attr, key_at, next } => {
            lemma_seen_is_ignored(raw, next, a.push(attr.key), b.push(attr.key));
        },
        _ => {},
    }
}

/// Parses all attributes of a raw region.
pub fn parse_attributes<'a>(raw: &'a [u8], with_checks: bool) -> (r: Result<
    Vec<Attribute<'a>>,
    Error,
>)
    ensures
        match r {
            Ok(attrs) => attrs_spec(raw@, with_checks) == Ok::<Seq<AttrSpec>, ErrorSpec>(
                attributes_view(attrs@),
            ),
            Err(e) => attrs_spec(raw@, with_checks) == Err::<Seq<AttrSpec>, ErrorSpec>(e@),
        },
{
    let mut cursor = Attributes::new(raw, with_checks);
    cursor.collect()
}

/// Text that is escaped in full holds no double quote.
pub proof fn lemma_escaped_has_no_quote(value: Seq<u8>, quote: Option<u8>)
    ensures
        !escape_spec(value, false, quote).contains(QUOT),
    decreases value.len(),
{
    let escaped = escape_spec(value, false, quote);
    if value.len() > 0 {
        lemma_escaped_has_no_quote(value.drop_last(), quote);
        let head = escape_spec(value.drop_last(), false, quote);
        let tail = escape_byte(value.last(), false, quote);
        if escaped.contains(QUOT) {
            let i = choose|i: int| 0 <= i < escaped.len() && escaped[i] == QUOT;
            if i < head.len() {
                assert(head[i] == QUOT);
                assert(head.contains(QUOT));
            } else {
                assert(tail[i - head.len()] == QUOT);
            }
        }
    }
}

/// A search for a byte ends where the byte first stands.
pub proof fn lemma_find_byte_at(s: Seq<u8>, from: int, at: int, b: u8)
    requires
        0 <= from <= at < s.len(),
        s[at] == b,
        forall|j: int| from <= j < at ==> s[j] != b,
    ensures
        find_byte(s, from, b) == at,
    decreases at - from,
{
    if from < at {
        lemma_find_byte_at(s, from + 1, at, b);
    }
}

/// A name ends where whitespace or `=` first stands.
pub proof fn lemma_key_end_at(s: Seq<u8>, from: int, at: int)
    requires
        0 <= from <= at < s.len(),
        is_space_spec(s[at]) || s[at] == EQUALS,
        forall|j: int| from <= j < at ==> !is_space_spec(s[j]) && s[j] != EQUALS,
    ensures
        key_end(s, from) == at,
    decreases at - from,
{
    if from < at {
        lemma_key_end_at(s, from + 1, at);
    }
}

/// What is written is read: an attribute whose name holds neither
/// whitespace nor `=`, written as a space, the name, `=` and the value,
/// escaped in full, between double quotes, is read as that name with the
/// escaped value, and the value decodes to what was written.
pub proof fn lemma_attribute_written_is_read<R: EntityResolver>(
    key: Seq<u8>,
    value: Seq<u8>,
    rest: Seq<u8>,
    resolver: R,
)
    requires
        forall|j: int| 0 <= j < key.len() ==> !is_space_spec(key[j]) && key[j] != EQUALS,
    ensures
        attr_at(
            seq![SPACE] + key + seq![EQUALS, QUOT] + escape_spec(value, false, Some(QUOT))
                + seq![QUOT] + rest,
            0,
        ) == (AttrStep::Attr {
            attr: AttrSpec { key, value: escape_spec(value, false, Some(QUOT)) },
            key_at: 1,
            next: (key.len() + escape_spec(value, false, Some(QUOT)).len() + 4) as int,
        }),
        unescape_spec(escape_spec(value, false, Some(QUOT)), resolver) == Ok::<
            Seq<u8>,
            ErrorSpec,
        >(value),
{
    let escaped = escape_spec(value, false, Some(QUOT));
    let raw = seq![SPACE] + key + seq![EQUALS, QUOT] + escaped + seq![QUOT] + rest;
    let ke: int = (1 + key.len()) as int;
    let v: int = ke + 1;
    let c: int = v + 1 + escaped.len();
    lemma_unescape_escape(value, false, Some(QUOT), resolver);
    lemma_escaped_has_no_quote(value, Some(QUOT));
    assert(raw[0] == SPACE);
    assert(forall|j: int| 0 <= j < key.len() ==> raw[1 + j] == key[j]);
    assert(raw[ke] == EQUALS);
    assert(raw[v] == QUOT);
    assert(forall|j: int| 0 <= j < escaped.len() ==> raw[v + 1 + j] == escaped[j]);
    assert(raw[c] == QUOT);
    reveal_with_fuel(skip_spaces, 3);
    assert(skip_spaces(raw, 0) == 1);
    lemma_key_end_at(raw, 1, ke);
    assert(skip_spaces(raw, ke) == ke);
    assert(skip_spaces(raw, ke + 1) == v);
    assert forall|j: int| v + 1 <= j < c implies raw[j] != QUOT by {
        assert(raw[j] == escaped[j - v - 1]);
        if raw[j] == QUOT {
            assert(escaped.contains(QUOT));
        }
    }
    lemma_find_byte_at(raw, v + 1, c, QUOT);
    assert(raw.subrange(1, ke) =~= key);
    assert(raw.subrange(v + 1, c) =~= escaped);
}

} // verus!

//! Byte-level helpers shared by the other modules.

use vstd::prelude::*;

verus! {

pub const LT: u8 = 0x3c;

pub const GT: u8 = 0x3e;

pub const AMP: u8 = 0x26;

pub const QUOT: u8 = 0x22;

pub const APOS: u8 = 0x27;

pub const SLASH: u8 = 0x2f;

pub const BANG: u8 = 0x21;

pub const QUESTION: u8 = 0x3f;

pub const DASH: u8 = 0x2d;

pub const LBRACKET: u8 = 0x5b;

pub const RBRACKET: u8 = 0x5d;

pub const EQUALS: u8 = 0x3d;

pub const SEMICOLON: u8 = 0x3b;

pub const HASH: u8 = 0x23;

pub const COLON: u8 = 0x3a;

pub const SPACE: u8 = 0x20;

pub const NEWLINE: u8 = 0x0a;

/// Whether `b` is one of the four XML whitespace bytes: space, tab, line
/// feed, carriage return.
pub open spec fn is_space_spec(b: u8) -> bool {
    b == 0x20 || b == 0x09 || b == 0x0a || b == 0x0d
}

/// Tests a byte for XML whitespace.
pub fn is_space(b: u8) -> (r: bool)
    ensures
        r == is_space_spec(b),
{
    b == 0x20 || b == 0x09 || b == 0x0a || b == 0x0d
}

/// Appends the bytes of `s` to `out`.
pub fn extend(out: &mut Vec<u8>, s: &[u8])
    ensures
        final(out)@ == old(out)@ + s@,
{
    out.extend_from_slice(s);
    assert(out@ =~= old(out)@ + s@);
}

/// The part of `s` from `from` up to, not including, `to`.
pub fn subslice<'a>(s: &'a [u8], from: usize, to: usize) -> (r: &'a [u8])
    requires
        from <= to <= s@.len(),
    ensures
        r@ == s@.subrange(from as int, to as int),
{
    &s[from..to]
}

/// Copies a byte string into a vector of its own.
pub fn to_vec(s: &[u8]) -> (r: Vec<u8>)
    ensures
        r@ == s@,
{
    let mut r: Vec<u8> = Vec::new();
    extend(&mut r, s);
    assert(r@ =~= s@);
    r
}

/// Compares two byte strings.
pub fn slice_eq(a: &[u8], b: &[u8]) -> (r: bool)
    ensures
        r == (a@ == b@),
{
    if a.len() != b.len() {
        return false;
    }
    let mut i: usize = 0;
    while i < a.len()
        invariant
            i <= a@.len(),
            a@.len() == b@.len(),
            a@.subrange(0, i as int) == b@.subrange(0, i as int),
        decreases a@.len() - i,
    {
        if a[i] != b[i] {
            return false;
        }
        assert(a@.subrange(0, i + 1) =~= a@.subrange(0, i as int).push(a@[i as int]));
        assert(b@.subrange(0, i + 1) =~= b@.subrange(0, i as int).push(b@[i as int]));
        i += 1;
    }
    assert(a@ =~= a@.subrange(0, i as int));
    assert(b@ =~= b@.subrange(0, i as int));
    true
}

/// A byte string that is either a borrow of its source or a buffer of its own.
///
/// Which of the two a value is can be observed: functions that return one say
/// in their contracts when the result is borrowed.
#[derive(Debug)]
pub enum CowBytes<'a> {
    Borrowed(&'a [u8]),
    Owned(Vec<u8>),
}

impl<'a> View for CowBytes<'a> {
    type V = Seq<u8>;

    open spec fn view(&self) -> Seq<u8> {
        match self {
            CowBytes::Borrowed(s) => s@,
            CowBytes::Owned(v) => v@,
        }
    }
}

impl<'a> CowBytes<'a> {
    /// The bytes, whichever way they are held.
    pub fn as_slice(&self) -> (r: &[u8])
        ensures
            r@ == self@,
    {
        match self {
            CowBytes::Borrowed(s) => s,
            CowBytes::Owned(v) => v.as_slice(),
        }
    }

    /// The number of bytes.
    pub fn len(&self) -> (r: usize)
        ensures
            r == self@.len(),
    {
        self.as_slice().len()
    }

    /// Whether the value borrows from its source.
    pub fn is_borrowed(&self) -> (r: bool)
        ensures
            r == (self is Borrowed),
    {
        match self {
            CowBytes::Borrowed(_) => true,
            CowBytes::Owned(_) => false,
        }
    }

    /// The bytes in a vector of their own, copied if they were borrowed.
    pub fn into_owned(self) -> (r: Vec<u8>)
        ensures
            r@ == self@,
    {
        match self {
            CowBytes::Borrowed(s) => to_vec(s),
            CowBytes::Owned(v) => v,
        }
    }

    /// A copy that borrows nothing.
    pub fn to_owned_bytes(&self) -> (r: CowBytes<'static>)
        ensures
            r@ == self@,
            r is Owned,
    {
        CowBytes::Owned(to_vec(self.as_slice()))
    }

    /// A copy of the value: a borrow stays a borrow of the same source.
    pub fn duplicate(&self) -> (r: CowBytes<'a>)
        ensures
            r@ == self@,
            (r is Borrowed) == (self is Borrowed),
    {
        match self {
            CowBytes::Borrowed(s) => CowBytes::Borrowed(*s),
            CowBytes::Owned(v) => CowBytes::Owned(to_vec(v.as_slice())),
        }
    }
}

impl<'a> Clone for CowBytes<'a> {
    fn clone(&self) -> (r: Self)
        ensures
            r@ == self@,
            (r is Borrowed) == (self is Borrowed),
    {
        self.duplicate()
    }
}

impl<'a> PartialEq for CowBytes<'a> {
    fn eq(&self, other: &Self) -> (r: bool) {
        slice_eq(self.as_slice(), other.as_slice())
    }
}

impl<'a> vstd::std_specs::cmp::PartialEqSpecImpl for CowBytes<'a> {
    open spec fn obeys_eq_spec() -> bool {
        true
    }

    /// Two values are equal when they hold the same bytes, borrowed or not.
    open spec fn eq_spec(&self, other: &Self) -> bool {
        self@ == other@
    }
}

} // verus!

//! The escape codec: between raw text and the form in which it stands in a
//! document.

use vstd::prelude::*;
use vstd::utf8::encode_scalar;
use crate::errors::{Error, ErrorSpec, SyntaxKind};
use crate::utils::{AMP, APOS, CowBytes, extend, GT, HASH, LT, QUOT, SEMICOLON, slice_eq, subslice};

verus! {

/// Holds of every function: it serves to speak of some function, whichever
/// it is.
pub open spec fn any_function<F>(f: F) -> bool {
    true
}

/// A source of named entities beyond the five that XML predefines.
///
/// A resolver answers by what it is: as long as it is not changed, it
/// gives the same answer for the same name; and what the body of a document
/// type makes of it depends on the resolver and the body alone.
pub trait EntityResolver: Sized {
    /// The value that the resolver gives to `name`, if it knows the name.
    ///
    /// A resolver that does not say what it answers is taken to answer by
    /// some function of itself and the name.
    open spec fn lookup(&self, name: Seq<u8>) -> Option<Seq<u8>> {
        (choose|f: spec_fn(Self, Seq<u8>) -> Option<Seq<u8>>| #[trigger] any_function(f))(
            *self,
            name,
        )
    }

    /// The resolver after it took note of the body of a document type.
    ///
    /// A resolver that does not say what becomes of it is taken to change by
    /// some function of itself and the body.
    open spec fn after_capture(&self, doctype: Seq<u8>) -> Self {
        (choose|f: spec_fn(Self, Seq<u8>) -> Self| #[trigger] any_function(f))(*self, doctype)
    }

    /// Takes note of the body of a document type, in which entities may be
    /// declared.
    fn capture(&mut self, doctype: &[u8])
        ensures
            *final(self) == old(self).after_capture(doctype@),
    ;

    /// Looks a name up.
    fn resolve(&self, name: &[u8]) -> (r: Option<Vec<u8>>)
        ensures
            match r {
                Some(v) => self.lookup(name@) == Some(v@),
                None => self.lookup(name@) is None,
            },
    ;
}

/// The resolver that knows no entity of its own.
#[derive(Debug, Clone, Copy, PartialEq, Eq)]
pub struct NoEntities;

impl EntityResolver for NoEntities {
    open spec fn lookup(&self, name: Seq<u8>) -> Option<Seq<u8>> {
        None
    }

    open spec fn after_capture(&self, doctype: Seq<u8>) -> Self {
        NoEntities
    }

    fn capture(&mut self, doctype: &[u8]) {
    }

    fn resolve(&self, name: &[u8]) -> (r: Option<Vec<u8>>) {
        None
    }
}

/// Whether a byte is written as an entity.
///
/// `<` and `&` always are. With `minimal` set, a quote is only where it is
/// the quote that delimits the attribute value in which the text stands;
/// without it, `>` and both quotes always are.
pub open spec fn must_escape(b: u8, minimal: bool, quote: Option<u8>) -> bool {
    b == LT || b == AMP || if minimal {
        (b == QUOT || b == APOS) && quote == Some(b)
    } else {
        b == GT || b == APOS || b == QUOT
    }
}

/// `&lt;`
pub open spec fn entity_lt() -> Seq<u8> {
    seq![AMP, 'l' as u8, 't' as u8, SEMICOLON]
}

/// `&gt;`
pub open spec fn entity_gt() -> Seq<u8> {
    seq![AMP, 'g' as u8, 't' as u8, SEMICOLON]
}

/// `&amp;`
pub open spec fn entity_amp() -> Seq<u8> {
    seq![AMP, 'a' as u8, 'm' as u8, 'p' as u8, SEMICOLON]
}

/// `&apos;`
pub open spec fn entity_apos() -> Seq<u8> {
    seq![AMP, 'a' as u8, 'p' as u8, 'o' as u8, 's' as u8, SEMICOLON]
}

/// `&quot;`
pub open spec fn entity_quot() -> Seq<u8> {
    seq![AMP, 'q' as u8, 'u' as u8, 'o' as u8, 't' as u8, SEMICOLON]
}

/// The predefined entity that stands for one of the five special bytes.
pub open spec fn entity_of(b: u8) -> Seq<u8> {
    if b == LT {
        entity_lt()
    } else if b == GT {
        entity_gt()
    } else if b == AMP {
        entity_amp()
    } else if b == APOS {
        entity_apos()
    } else {
        entity_quot()
    }
}

/// The escaped form of one byte.
pub open spec fn escape_byte(b: u8, minimal: bool, quote: Option<u8>) -> Seq<u8> {
    if must_escape(b, minimal, quote) {
        entity_of(b)
    } else {
        seq![b]
    }
}

/// The escaped form of a text: each byte that must be escaped is replaced by
/// its entity, every other byte stays.
pub open spec fn escape_spec(raw: Seq<u8>, minimal: bool, quote: Option<u8>) -> Seq<u8>
    decreases raw.len(),
{
    if raw.len() == 0 {
        Seq::<u8>::empty()
    } else {
        escape_spec(raw.drop_last(), minimal, quote) + escape_byte(raw.last(), minimal, quote)
    }
}

/// Whether no byte of a text must be escaped.
pub open spec fn is_plain(raw: Seq<u8>, minimal: bool, quote: Option<u8>) -> bool {
    forall|i: int| 0 <= i < raw.len() ==> !must_escape(#[trigger] raw[i], minimal, quote)
}

/// The byte that a predefined entity's name stands for.
pub open spec fn predefined_entity(name: Seq<u8>) -> Option<u8> {
    if name == seq!['l' as u8, 't' as u8] {
        Some(LT)
    } else if name == seq!['g' as u8, 't' as u8] {
        Some(GT)
    } else if name == seq!['a' as u8, 'm' as u8, 'p' as u8] {
        Some(AMP)
    } else if name == seq!['a' as u8, 'p' as u8, 'o' as u8, 's' as u8] {
        Some(APOS)
    } else if name == seq!['q' as u8, 'u' as u8, 'o' as u8, 't' as u8] {
        Some(QUOT)
    } else {
        None
    }
}

/// The value of a digit, decimal or hexadecimal.
pub open spec fn digit_spec(b: u8, hex: bool) -> Option<int> {
    if '0' as u8 <= b <= '9' as u8 {
        Some(b - '0' as u8)
    } else if hex && 'a' as u8 <= b <= 'f' as u8 {
        Some(b - 'a' as u8 + 10)
    } else if hex && 'A' as u8 <= b <= 'F' as u8 {
        Some(b - 'A' as u8 + 10)
    } else {
        None
    }
}

/// The number that a non-empty run of digits denotes, however large.
pub open spec fn number_spec(digits: Seq<u8>, hex: bool) -> Option<int>
    decreases digits.len(),
{
    if digits.len() == 0 {
        None
    } else {
        match digit_spec(digits.last(), hex) {
            None => None,
            Some(d) => if digits.len() == 1 {
                Some(d)
            } else {
                match number_spec(digits.drop_last(), hex) {
                    None => None,
                    Some(h) => Some(
                        h * (if hex {
                            16int
                        } else {
                            10int
                        }) + d,
                    ),
                }
            },
        }
    }
}

/// Whether a number is a Unicode scalar value: at most `0x10FFFF` and no
/// surrogate.
pub open spec fn is_scalar_value(v: int) -> bool {
    0 <= v <= 0x10FFFF && !(0xD800 <= v <= 0xDFFF)
}

/// The scalar value that the body of a numeric character reference names:
/// decimal digits, or `x` and hexadecimal digits. `None` where the body is
/// no number or the number is no scalar value.
pub open spec fn char_ref_spec(body: Seq<u8>) -> Option<u32> {
    let hex = body.len() > 0 && body[0] == 'x' as u8;
    let digits = if hex {
        body.skip(1)
    } else {
        body
    };
    match number_spec(digits, hex) {
        Some(v) => if is_scalar_value(v) {
            Some(v as u32)
        } else {
            None
        },
        None => None,
    }
}

/// What the reference `&name;` expands to: the UTF-8 form of the scalar
/// value for a numeric reference, the special byte for a predefined entity,
/// and otherwise what the resolver gives.
pub open spec fn expand_spec<R: EntityResolver>(name: Seq<u8>, resolver: R) -> Result<
    Seq<u8>,
    ErrorSpec,
> {
    if name.len() > 0 && name[0] == HASH {
        match char_ref_spec(name.skip(1)) {
            Some(c) => Ok(encode_scalar(c)),
            None => Err(ErrorSpec::InvalidCharRef),
        }
    } else {
        match predefined_entity(name) {
            Some(b) => Ok(seq![b]),
            None => resolved_spec(name, resolver.lookup(name)),
        }
    }
}

/// What a reference to an entity that XML does not predefine expands to,
/// given what the resolver answered for its name: the answer, or an error
/// that names the entity where there was none.
pub open spec fn resolved_spec(name: Seq<u8>, answer: Option<Seq<u8>>) -> Result<
    Seq<u8>,
    ErrorSpec,
> {
    match answer {
        Some(v) => Ok(v),
        None => Err(ErrorSpec::UnknownEntity { name }),
    }
}

/// The first position at or after `from` that holds `;` or `&`, or the
/// length of the text where there is none.
pub open spec fn entity_end(raw: Seq<u8>, from: int) -> int
    decreases raw.len() - from,
{
    if from >= raw.len() {
        raw.len() as int
    } else if raw[from] == SEMICOLON || raw[from] == AMP {
        from
    } else {
        entity_end(raw, from + 1)
    }
}

/// Puts `head` before the decoded rest of a text that starts `by` bytes
/// after the head's own start.
pub open spec fn prepend(head: Seq<u8>, by: int, rest: Result<Seq<u8>, ErrorSpec>) -> Result<
    Seq<u8>,
    ErrorSpec,
> {
    match rest {
        Ok(t) => Ok(head + t),
        Err(e) => Err(e.shifted(by)),
    }
}

/// The decoded form of a text: each reference `&name;` is replaced by what
/// it expands to, every other byte stays.
///
/// The first reference that cannot be expanded decides the error. An `&`
/// that no `;` closes before the next `&` or the end of the text is a syntax
/// error at the position of that `&`.
pub open spec fn unescape_spec<R: EntityResolver>(raw: Seq<u8>, resolver: R) -> Result<
    Seq<u8>,
    ErrorSpec,
>
    decreases raw.len(),
{
    if raw.len() == 0 {
        Ok(Seq::<u8>::empty())
    } else if raw[0] != AMP {
        prepend(seq![raw[0]], 1, unescape_spec(raw.drop_first(), resolver))
    } else {
        let end = entity_end(raw, 1);
        if end < 1 || end >= raw.len() || raw[end] != SEMICOLON {
            Err(ErrorSpec::Syntax { kind: SyntaxKind::UnterminatedEntity, offset: 0 })
        } else {
            match expand_spec(raw.subrange(1, end), resolver) {
                Ok(v) => prepend(v, end + 1, unescape_spec(raw.skip(end + 1), resolver)),
                Err(e) => Err(e),
            }
        }
    }
}

/// Escaping goes byte by byte, so it distributes over concatenation.
pub proof fn lemma_escape_concat(a: Seq<u8>, b: Seq<u8>, minimal: bool, quote: Option<u8>)
    ensures
        escape_spec(a + b, minimal, quote) == escape_spec(a, minimal, quote) + escape_spec(
            b,
            minimal,
            quote,
        ),
    decreases b.len(),
{
    if b.len() == 0 {
        assert(a + b =~= a);
        assert(escape_spec(a, minimal, quote) + Seq::<u8>::empty() =~= escape_spec(
            a,
            minimal,
            quote,
        ));
    } else {
        assert((a + b).drop_last() =~= a + b.drop_last());
        assert((a + b).last() == b.last());
        lemma_escape_concat(a, b.drop_last(), minimal, quote);
        assert(escape_spec(a + b, minimal, quote) =~= escape_spec(a, minimal, quote)
            + escape_spec(b, minimal, quote));
    }
}

/// A text in which nothing must be escaped is its own escaped form.
pub proof fn lemma_escape_plain(raw: Seq<u8>, minimal: bool, quote: Option<u8>)
    requires
        is_plain(raw, minimal, quote),
    ensures
        escape_spec(raw, minimal, quote) == raw,
    decreases raw.len(),
{
    if raw.len() > 0 {
        assert(is_plain(raw.drop_last(), minimal, quote)) by {
            assert forall|i: int| 0 <= i < raw.drop_last().len() implies !must_escape(
                #[trigger] raw.drop_last()[i],
                minimal,
                quote,
            ) by {
                assert(raw.drop_last()[i] == raw[i]);
            }
        }
        lemma_escape_plain(raw.drop_last(), minimal, quote);
        assert(!must_escape(raw[raw.len() - 1], minimal, quote));
        assert(escape_spec(raw, minimal, quote) =~= raw);
    } else {
        assert(escape_spec(raw, minimal, quote) =~= raw);
    }
}

/// A text without `&` is its own decoded form.
pub proof fn lemma_unescape_plain<R: EntityResolver>(raw: Seq<u8>, resolver: R)
    requires
        !raw.contains(AMP),
    ensures
        unescape_spec(raw, resolver) == Ok::<Seq<u8>, ErrorSpec>(raw),
    decreases raw.len(),
{
    if raw.len() > 0 {
        assert(raw[0] != AMP) by {
            if raw[0] == AMP {
                assert(raw.contains(AMP));
            }
        }
        assert(!raw.drop_first().contains(AMP)) by {
            if raw.drop_first().contains(AMP) {
                let i = choose|i: int| 0 <= i < raw.drop_first().len() && raw.drop_first()[i] == AMP;
                assert(raw[i + 1] == AMP);
                assert(raw.contains(AMP));
            }
        }
        lemma_unescape_plain(raw.drop_first(), resolver);
        assert(seq![raw[0]] + raw.drop_first() =~= raw);
    } else {
        assert(raw =~= Seq::<u8>::empty());
    }
}

/// Where a reference ends depends only on the text from the reference on.
pub proof fn lemma_entity_end_skip(raw: Seq<u8>, k: int, from: int)
    requires
        0 <= k <= raw.len(),
        0 <= from,
    ensures
        entity_end(raw, k + from) == k + entity_end(raw.skip(k), from),
    decreases raw.len() - k - from,
{
    if k + from < raw.len() {
        assert(raw.skip(k)[from] == raw[k + from]);
        if !(raw[k + from] == SEMICOLON || raw[k + from] == AMP) {
            lemma_entity_end_skip(raw, k, from + 1);
        }
    }
}

/// Where a reference ends lies between the start of the search and the end
/// of the text, and nothing before it is `;` or `&`.
pub proof fn lemma_entity_end_bounds(raw: Seq<u8>, from: int)
    requires
        0 <= from <= raw.len(),
    ensures
        from <= entity_end(raw, from) <= raw.len(),
        forall|j: int|
            from <= j < entity_end(raw, from) ==> raw[j] != SEMICOLON && raw[j] != AMP,
        entity_end(raw, from) < raw.len() ==> raw[entity_end(raw, from)] == SEMICOLON
            || raw[entity_end(raw, from)] == AMP,
    decreases raw.len() - from,
{
    if from < raw.len() && !(raw[from] == SEMICOLON || raw[from] == AMP) {
        lemma_entity_end_bounds(raw, from + 1);
    }
}

/// Two heads put one after the other are one head.
pub proof fn lemma_prepend_twice(
    a: Seq<u8>,
    i: int,
    b: Seq<u8>,
    k: int,
    rest: Result<Seq<u8>, ErrorSpec>,
)
    ensures
        prepend(a, i, prepend(b, k, rest)) == prepend(a + b, i + k, rest),
{
    match rest {
        Ok(t) => {
            assert(a + (b + t) =~= (a + b) + t);
        },
        Err(e) => {},
    }
}

/// Where no digit is valid, there is no number.
pub proof fn lemma_number_bad_digit(digits: Seq<u8>, hex: bool, j: int)
    requires
        0 <= j < digits.len(),
        digit_spec(digits[j], hex) is None,
    ensures
        number_spec(digits, hex) is None,
    decreases digits.len(),
{
    if j < digits.len() - 1 {
        assert(digits.drop_last()[j] == digits[j]);
        lemma_number_bad_digit(digits.drop_last(), hex, j);
    }
}

/// More digits never make a number smaller.
pub proof fn lemma_number_grows(digits: Seq<u8>, hex: bool, i: int)
    requires
        1 <= i <= digits.len(),
        number_spec(digits.take(i), hex) is Some,
    ensures
        number_spec(digits.take(i), hex)->0 >= 0,
        match number_spec(digits, hex) {
            Some(w) => w >= number_spec(digits.take(i), hex)->0,
            None => true,
        },
    decreases digits.len(),
{
    lemma_number_nonneg(digits.take(i), hex);
    if i == digits.len() {
        assert(digits.take(i) =~= digits);
    } else {
        assert(digits.drop_last().take(i) =~= digits.take(i));
        lemma_number_grows(digits.drop_last(), hex, i);
        match number_spec(digits, hex) {
            Some(w) => {
                let h = number_spec(digits.drop_last(), hex)->0;
                let base = if hex {
                    16int
                } else {
                    10int
                };
                assert(h * base >= h) by (nonlinear_arith)
                    requires
                        h >= 0,
                        base >= 1,
                ;
            },
            None => {},
        }
    }
}

/// A number is never negative.
pub proof fn lemma_number_nonneg(digits: Seq<u8>, hex: bool)
    ensures
        match number_spec(digits, hex) {
            Some(w) => w >= 0,
            None => true,
        },
    decreases digits.len(),
{
    if digits.len() > 1 {
        lemma_number_nonneg(digits.drop_last(), hex);
        match number_spec(digits.drop_last(), hex) {
            Some(h) => {
                let base = if hex {
                    16int
                } else {
                    10int
                };
                assert(h * base >= 0) by (nonlinear_arith)
                    requires
                        h >= 0,
                        base >= 1,
                ;
            },
            None => {},
        }
    }
}

/// Tests whether a byte is written as an entity.
pub fn needs_escape(b: u8, minimal: bool, quote: Option<u8>) -> (r: bool)
    ensures
        r == must_escape(b, minimal, quote),
{
    if b == LT || b == AMP {
        true
    } else if minimal {
        match quote {
            Some(q) => (b == QUOT || b == APOS) && q == b,
            None => false,
        }
    } else {
        b == GT || b == APOS || b == QUOT
    }
}

/// Appends the predefined entity for one of the five special bytes.
fn push_entity(out: &mut Vec<u8>, b: u8)
    ensures
        final(out)@ == old(out)@ + entity_of(b),
{
    if b == LT {
        extend(out, &[AMP, 'l' as u8, 't' as u8, SEMICOLON]);
    } else if b == GT {
        extend(out, &[AMP, 'g' as u8, 't' as u8, SEMICOLON]);
    } else if b == AMP {
        extend(out, &[AMP, 'a' as u8, 'm' as u8, 'p' as u8, SEMICOLON]);
    } else if b == APOS {
        extend(out, &[AMP, 'a' as u8, 'p' as u8, 'o' as u8, 's' as u8, SEMICOLON]);
    } else {
        extend(out, &[AMP, 'q' as u8, 'u' as u8, 'o' as u8, 't' as u8, SEMICOLON]);
    }
    assert(out@ =~= old(out)@ + entity_of(b));
}

/// The position of the first byte that must be escaped, or the length of
/// the text where there is none.
fn first_escaped(raw: &[u8], minimal: bool, quote: Option<u8>) -> (k: usize)
    ensures
        k <= raw@.len(),
        is_plain(raw@.take(k as int), minimal, quote),
        k < raw@.len() ==> must_escape(raw@[k as int], minimal, quote),
{
    let mut i: usize = 0;
    while i < raw.len()
        invariant
            i <= raw@.len(),
            is_plain(raw@.take(i as int), minimal, quote),
        decreases raw@.len() - i,
    {
        if needs_escape(raw[i], minimal, quote) {
            return i;
        }
        assert forall|j: int| 0 <= j < raw@.take(i + 1).len() implies !must_escape(
            #[trigger] raw@.take(i + 1)[j],
            minimal,
            quote,
        ) by {
            if j < i {
                assert(raw@.take(i as int)[j] == raw@[j]);
            }
        }
        i += 1;
    }
    i
}

fn escape_impl<'a>(raw: &'a [u8], minimal: bool, quote: Option<u8>) -> (r: CowBytes<'a>)
    ensures
        r@ == escape_spec(raw@, minimal, quote),
        (r is Borrowed) == is_plain(raw@, minimal, quote),
{
    let k = first_escaped(raw, minimal, quote);
    if k == raw.len() {
        proof {
            assert(raw@.take(k as int) =~= raw@);
            lemma_escape_plain(raw@, minimal, quote);
        }
        return CowBytes::Borrowed(raw);
    }
    let mut out: Vec<u8> = Vec::new();
    extend(&mut out, subslice(raw, 0, k));
    proof {
        assert(out@ =~= raw@.take(k as int));
        lemma_escape_plain(raw@.take(k as int), minimal, quote);
    }
    let mut i: usize = k;
    while i < raw.len()
        invariant
            k <= i <= raw@.len(),
            out@ == escape_spec(raw@.take(i as int), minimal, quote),
        decreases raw@.len() - i,
    {
        let b = raw[i];
        proof {
            assert(raw@.take(i + 1).drop_last() =~= raw@.take(i as int));
            assert(raw@.take(i + 1).last() == b);
        }
        if needs_escape(b, minimal, quote) {
            push_entity(&mut out, b);
        } else {
            out.push(b);
            assert(out@ =~= escape_spec(raw@.take(i as int), minimal, quote) + seq![b]);
        }
        i += 1;
    }
    assert(raw@.take(i as int) =~= raw@);
    assert(!is_plain(raw@, minimal, quote)) by {
        assert(must_escape(raw@[k as int], minimal, quote));
    }
    CowBytes::Owned(out)
}

/// Escapes text that stands between tags.
///
/// With `minimal` set only `<` and `&` are written as entities; without it
/// also `>`, `'` and `"`. The result is a borrow of `raw` exactly where
/// nothing had to be escaped.
pub fn escape<'a>(raw: &'a [u8], minimal: bool) -> (r: CowBytes<'a>)
    ensures
        r@ == escape_spec(raw@, minimal, None),
        (r is Borrowed) == is_plain(raw@, minimal, None),
{
    escape_impl(raw, minimal, None)
}

/// Escapes text that stands in an attribute value delimited by `quote`.
///
/// With `minimal` set only `<`, `&` and the delimiting quote are written as
/// entities; without it also `>` and the other quote. The result is a
/// borrow of `raw` exactly where nothing had to be escaped.
pub fn escape_attribute<'a>(raw: &'a [u8], minimal: bool, quote: u8) -> (r: CowBytes<'a>)
    ensures
        r@ == escape_spec(raw@, minimal, Some(quote)),
        (r is Borrowed) == is_plain(raw@, minimal, Some(quote)),
{
    escape_impl(raw, minimal, Some(quote))
}

/// Tells a digit's value.
fn digit(b: u8, hex: bool) -> (r: Option<u32>)
    ensures
        match r {
            Some(d) => digit_spec(b, hex) == Some(d as int) && d < 16,
            None => digit_spec(b, hex) is None,
        },
{
    if '0' as u8 <= b && b <= '9' as u8 {
        Some((b - '0' as u8) as u32)
    } else if hex && 'a' as u8 <= b && b <= 'f' as u8 {
        Some((b - 'a' as u8 + 10) as u32)
    } else if hex && 'A' as u8 <= b && b <= 'F' as u8 {
        Some((b - 'A' as u8 + 10) as u32)
    } else {
        None
    }
}

/// Reads the body of a numeric character reference.
fn parse_char_ref(body: &[u8]) -> (r: Option<u32>)
    ensures
        r == char_ref_spec(body@),
{
    let hex = body.len() > 0 && body[0] == 'x' as u8;
    let digits = if hex {
        subslice(body, 1, body.len())
    } else {
        body
    };
    assert(digits@ =~= if hex {
        body@.skip(1)
    } else {
        body@
    });
    let base: u32 = if hex {
        16
    } else {
        10
    };
    if digits.len() == 0 {
        return None;
    }
    let mut acc: u32 = 0;
    let mut i: usize = 0;
    while i < digits.len()
        invariant
            i <= digits@.len(),
            base == (if hex {
                16u32
            } else {
                10u32
            }),
            hex == (body@.len() > 0 && body@[0] == 'x' as u8),
            digits@ == (if hex {
                body@.skip(1)
            } else {
                body@
            }),
            acc <= 0x10FFFF,
            i == 0 ==> acc == 0,
            i > 0 ==> number_spec(digits@.take(i as int), hex) == Some(acc as int),
        decreases digits@.len() - i,
    {
        match digit(digits[i], hex) {
            None => {
                proof {
                    lemma_number_bad_digit(digits@, hex, i as int);
                }
                return None;
            },
            Some(d) => {
                let next: u32 = acc * base + d;
                proof {
                    assert(digits@.take(i + 1).drop_last() =~= digits@.take(i as int));
                    assert(digits@.take(i + 1).last() == digits@[i as int]);
                    assert(number_spec(digits@.take(i + 1), hex) == Some(next as int));
                }
                if next > 0x10FFFF {
                    proof {
                        lemma_number_grows(digits@, hex, i + 1);
                    }
                    return None;
                }
                acc = next;
                i += 1;
            },
        }
    }
    assert(digits@.take(i as int) =~= digits@);
    if 0xD800 <= acc && acc <= 0xDFFF {
        None
    } else {
        Some(acc)
    }
}

/// Appends the UTF-8 form of a scalar value.
fn push_scalar(out: &mut Vec<u8>, c: u32)
    requires
        is_scalar_value(c as int),
    ensures
        final(out)@ == old(out)@ + encode_scalar(c),
{
    if c <= 0x7F {
        out.push((c & 0x7F) as u8);
        assert(out@ =~= old(out)@ + encode_scalar(c));
    } else if c <= 0x7FF {
        out.push(0xC0 | ((c >> 6) & 0x1F) as u8);
        out.push(0x80 | (c & 0x3F) as u8);
        assert(out@ =~= old(out)@ + encode_scalar(c));
    } else if c <= 0xFFFF {
        out.push(0xE0 | ((c >> 12) & 0x0F) as u8);
        out.push(0x80 | ((c >> 6) & 0x3F) as u8);
        out.push(0x80 | (c & 0x3F) as u8);
        assert(out@ =~= old(out)@ + encode_scalar(c));
    } else {
        out.push(0xF0 | ((c >> 18) & 0x7) as u8);
        out.push(0x80 | ((c >> 12) & 0x3F) as u8);
        out.push(0x80 | ((c >> 6) & 0x3F) as u8);
        out.push(0x80 | (c & 0x3F) as u8);
        assert(out@ =~= old(out)@ + encode_scalar(c));
    }
}

/// Tells the byte that a predefined entity's name stands for.
fn predefined(name: &[u8]) -> (r: Option<u8>)
    ensures
        r == predefined_entity(name@),
{
    if slice_eq(name, &['l' as u8, 't' as u8]) {
        Some(LT)
    } else if slice_eq(name, &['g' as u8, 't' as u8]) {
        Some(GT)
    } else if slice_eq(name, &['a' as u8, 'm' as u8, 'p' as u8]) {
        Some(AMP)
    } else if slice_eq(name, &['a' as u8, 'p' as u8, 'o' as u8, 's' as u8]) {
        Some(APOS)
    } else if slice_eq(name, &['q' as u8, 'u' as u8, 'o' as u8, 't' as u8]) {
        Some(QUOT)
    } else {
        None
    }
}

/// Appends what the reference `&name;` expands to.
fn expand<R: EntityResolver>(out: &mut Vec<u8>, name: &[u8], resolver: &R) -> (r: Result<
    (),
    Error,
>)
    ensures
        match r {
            Ok(()) => expand_spec(name@, *resolver) is Ok && final(out)@ == old(out)@
                + expand_spec(name@, *resolver)->Ok_0,
            Err(e) => expand_spec(name@, *resolver) == Err::<Seq<u8>, ErrorSpec>(e@),
        },
{
    if name.len() > 0 && name[0] == HASH {
        let body = subslice(name, 1, name.len());
        assert(body@ =~= name@.skip(1));
        match parse_char_ref(body) {
            Some(c) => {
                push_scalar(out, c);
                Ok(())
            },
            None => Err(Error::InvalidCharRef),
        }
    } else {
        match predefined(name) {
            Some(b) => {
                out.push(b);
                assert(out@ =~= old(out)@ + seq![b]);
                Ok(())
            },
            None => match resolved(name, resolver.resolve(name)) {
                Ok(v) => {
                    extend(out, v.as_slice());
                    Ok(())
                },
                Err(e) => Err(e),
            },
        }
    }
}

/// Says what a reference to an entity that XML does not predefine expands
/// to, given what the resolver answered for its name.
pub fn resolved(name: &[u8], answer: Option<Vec<u8>>) -> (r: Result<Vec<u8>, Error>)
    ensures
        match r {
            Ok(v) => answer is Some && resolved_spec(name@, Some(answer->0@)) == Ok::<
                Seq<u8>,
                ErrorSpec,
            >(v@),
            Err(e) => answer is None && resolved_spec(name@, None) == Err::<Seq<u8>, ErrorSpec>(
                e@,
            ),
        },
{
    match answer {
        Some(v) => Ok(v),
        None => {
            let mut owned: Vec<u8> = Vec::new();
            extend(&mut owned, name);
            assert(owned@ =~= name@);
            Err(Error::UnknownEntity { name: owned })
        },
    }
}

/// The position of the first `&`, or the length of the text.
fn find_amp(raw: &[u8]) -> (k: usize)
    ensures
        k <= raw@.len(),
        forall|j: int| 0 <= j < k ==> raw@[j] != AMP,
        k < raw@.len() ==> raw@[k as int] == AMP,
{
    let mut i: usize = 0;
    while i < raw.len()
        invariant
            i <= raw@.len(),
            forall|j: int| 0 <= j < i ==> raw@[j] != AMP,
        decreases raw@.len() - i,
    {
        if raw[i] == AMP {
            return i;
        }
        i += 1;
    }
    i
}

/// The first position at or after `from` that holds `;` or `&`, or the
/// length of the text.
fn find_entity_end(raw: &[u8], from: usize) -> (k: usize)
    requires
        from <= raw@.len(),
    ensures
        k == entity_end(raw@, from as int),
        from <= k <= raw@.len(),
{
    let mut i: usize = from;
    while i < raw.len()
        invariant
            from <= i <= raw@.len(),
            entity_end(raw@, from as int) == entity_end(raw@, i as int),
        decreases raw@.len() - i,
    {
        if raw[i] == SEMICOLON || raw[i] == AMP {
            return i;
        }
        i += 1;
    }
    i
}

/// Decodes a text with the help of a resolver for entities that XML does
/// not predefine.
///
/// The result is a borrow of `raw` exactly where `raw` holds no `&`.
pub fn unescape_with<'a, R: EntityResolver>(raw: &'a [u8], resolver: &R) -> (r: Result<
    CowBytes<'a>,
    Error,
>)
    ensures
        match r {
            Ok(v) => unescape_spec(raw@, *resolver) == Ok::<Seq<u8>, ErrorSpec>(v@) && (v
                is Borrowed) == !raw@.contains(AMP),
            Err(e) => unescape_spec(raw@, *resolver) == Err::<Seq<u8>, ErrorSpec>(e@),
        },
{
    let k = find_amp(raw);
    if k == raw.len() {
        proof {
            lemma_unescape_plain(raw@, *resolver);
        }
        return Ok(CowBytes::Borrowed(raw));
    }
    assert(raw@.contains(AMP)) by {
        assert(raw@[k as int] == AMP);
    }
    let mut out: Vec<u8> = Vec::new();
    let mut i: usize = 0;
    proof {
        assert(raw@.skip(0) =~= raw@);
        lemma_prepend_empty(unescape_spec(raw@, *resolver));
    }
    while i < raw.len()
        invariant
            i <= raw@.len(),
            unescape_spec(raw@, *resolver) == prepend(
                out@,
                i as int,
                unescape_spec(raw@.skip(i as int), *resolver),
            ),
        decreases raw@.len() - i,
    {
        let ghost rest = raw@.skip(i as int);
        let ghost before = out@;
        let b = raw[i];
        assert(rest[0] == b);
        if b != AMP {
            out.push(b);
            proof {
                assert(rest.drop_first() =~= raw@.skip(i + 1));
                lemma_prepend_twice(
                    before,
                    i as int,
                    seq![b],
                    1,
                    unescape_spec(raw@.skip(i + 1), *resolver),
                );
                assert(out@ =~= before + seq![b]);
            }
            i += 1;
        } else {
            let end = find_entity_end(raw, i + 1);
            proof {
                lemma_entity_end_skip(raw@, i as int, 1);
            }
            if end >= raw.len() || raw[end] != SEMICOLON {
                return Err(Error::Syntax { kind: SyntaxKind::UnterminatedEntity, offset: i });
            }
            let name = subslice(raw, i + 1, end);
            assert(name@ =~= rest.subrange(1, end - i));
            match expand(&mut out, name, resolver) {
                Ok(()) => {
                    proof {
                        assert(rest.skip(end - i + 1) =~= raw@.skip(end + 1));
                        lemma_prepend_twice(
                            before,
                            i as int,
                            expand_spec(name@, *resolver)->Ok_0,
                            end - i + 1,
                            unescape_spec(raw@.skip(end + 1), *resolver),
                        );
                    }
                    i = end + 1;
                },
                Err(e) => {
                    proof {
                        lemma_expand_error_has_no_offset(name@, *resolver);
                    }
                    return Err(e);
                },
            }
        }
    }
    proof {
        assert(raw@.skip(i as int) =~= Seq::<u8>::empty());
        assert(out@ + Seq::<u8>::empty() =~= out@);
    }
    Ok(CowBytes::Owned(out))
}

/// Decodes a text in which only numeric references and the five
/// predefined entities occur.
///
/// The result is a borrow of `raw` exactly where `raw` holds no `&`.
pub fn unescape<'a>(raw: &'a [u8]) -> (r: Result<CowBytes<'a>, Error>)
    ensures
        match r {
            Ok(v) => unescape_spec(raw@, NoEntities) == Ok::<Seq<u8>, ErrorSpec>(v@) && (v
                is Borrowed) == !raw@.contains(AMP),
            Err(e) => unescape_spec(raw@, NoEntities) == Err::<Seq<u8>, ErrorSpec>(e@),
        },
{
    unescape_with(raw, &NoEntities)
}

/// Nothing put before a decoded text leaves it as it is.
proof fn lemma_prepend_empty(rest: Result<Seq<u8>, ErrorSpec>)
    ensures
        prepend(Seq::<u8>::empty(), 0, rest) == rest,
{
    match rest {
        Ok(t) => {
            assert(Seq::<u8>::empty() + t =~= t);
        },
        Err(e) => {},
    }
}

/// A reference that cannot be expanded fails with an error that holds no
/// position.
proof fn lemma_expand_error_has_no_offset<R: EntityResolver>(name: Seq<u8>, resolver: R)
    ensures
        match expand_spec(name, resolver) {
            Ok(_) => true,
            Err(e) => forall|by: int| e.shifted(by) == e,
        },
{
}

/// The escaped form of a text is the escaped form of its first byte, then
/// that of the rest.
pub proof fn lemma_escape_front(raw: Seq<u8>, minimal: bool, quote: Option<u8>)
    requires
        raw.len() > 0,
    ensures
        escape_spec(raw, minimal, quote) == escape_byte(raw[0], minimal, quote) + escape_spec(
            raw.drop_first(),
            minimal,
            quote,
        ),
{
    let head = seq![raw[0]];
    assert(head + raw.drop_first() =~= raw);
    lemma_escape_concat(head, raw.drop_first(), minimal, quote);
    assert(head.drop_last() =~= Seq::<u8>::empty());
    assert(head.last() == raw[0]);
    assert(escape_spec(head.drop_last(), minimal, quote) =~= Seq::<u8>::empty());
    assert(escape_spec(head, minimal, quote) =~= escape_byte(raw[0], minimal, quote));
}

/// A predefined entity at the head of a text decodes to the byte that it
/// stands for, whatever follows and whatever the resolver knows.
proof fn lemma_entity_decodes<R: EntityResolver>(b: u8, rest: Seq<u8>, resolver: R)
    requires
        b == LT || b == GT || b == AMP || b == APOS || b == QUOT,
    ensures
        unescape_spec(entity_of(b) + rest, resolver) == prepend(
            seq![b],
            entity_of(b).len() as int,
            unescape_spec(rest, resolver),
        ),
{
    let ent = entity_of(b);
    let text = ent + rest;
    let last = ent.len() - 1;
    assert(forall|j: int| 0 <= j < ent.len() ==> text[j] == ent[j]);
    assert(text[0] == AMP);
    reveal_with_fuel(entity_end, 6);
    assert(entity_end(text, 1) == last);
    assert(text.subrange(1, last) =~= ent.subrange(1, last));
    assert(text.skip(last + 1) =~= rest);
    let name = text.subrange(1, last);
    if b == LT {
        assert(name =~= seq!['l' as u8, 't' as u8]);
    } else if b == GT {
        assert(name =~= seq!['g' as u8, 't' as u8]);
    } else if b == AMP {
        assert(name =~= seq!['a' as u8, 'm' as u8, 'p' as u8]);
    } else if b == APOS {
        assert(name =~= seq!['a' as u8, 'p' as u8, 'o' as u8, 's' as u8]);
    } else {
        assert(name =~= seq!['q' as u8, 'u' as u8, 'o' as u8, 't' as u8]);
    }
    assert(name[0] != HASH);
    assert(predefined_entity(name) == Some(b));
    assert(expand_spec(name, resolver) == Ok::<Seq<u8>, ErrorSpec>(seq![b]));
}

/// Decoding undoes escaping: for every text, every way of escaping it and
/// every resolver, the escaped text decodes to the text itself.
pub proof fn lemma_unescape_escape<R: EntityResolver>(
    raw: Seq<u8>,
    minimal: bool,
    quote: Option<u8>,
    resolver: R,
)
    ensures
        unescape_spec(escape_spec(raw, minimal, quote), resolver) == Ok::<Seq<u8>, ErrorSpec>(
            raw,
        ),
    decreases raw.len(),
{
    if raw.len() == 0 {
        assert(raw =~= Seq::<u8>::empty());
    } else {
        let b = raw[0];
        let tail = raw.drop_first();
        let escaped_tail = escape_spec(tail, minimal, quote);
        lemma_escape_front(raw, minimal, quote);
        lemma_unescape_escape(tail, minimal, quote, resolver);
        assert(seq![b] + tail =~= raw);
        if must_escape(b, minimal, quote) {
            lemma_entity_decodes(b, escaped_tail, resolver);
        } else {
            let escaped = seq![b] + escaped_tail;
            assert(escaped[0] == b);
            assert(escaped.drop_first() =~= escaped_tail);
        }
    }
}

/// On a text in which nothing must be escaped, escaping and decoding both
/// change nothing, so either composition of the two gives the text back.
pub proof fn lemma_plain_round_trip<R: EntityResolver>(
    raw: Seq<u8>,
    minimal: bool,
    quote: Option<u8>,
    resolver: R,
)
    requires
        is_plain(raw, minimal, quote),
    ensures
        escape_spec(raw, minimal, quote) == raw,
        unescape_spec(raw, resolver) == Ok::<Seq<u8>, ErrorSpec>(raw),
{
    lemma_escape_plain(raw, minimal, quote);
    assert(!raw.contains(AMP)) by {
        if raw.contains(AMP) {
            let i = choose|i: int| 0 <= i < raw.len() && raw[i] == AMP;
            assert(must_escape(raw[i], minimal, quote));
        }
    }
    lemma_unescape_plain(raw, resolver);
}

} // verus!

//! Simple values: what a piece of text holds, for each shape that text can
//! take.

use vstd::prelude::*;
use vstd::string::StringSliceAdditionalSpecFns;
use vstd::string::StrSliceExecFns;
use vstd::utf8::{decode_utf8, encode_utf8_decode_utf8, valid_utf8};
use crate::escape::{
    EntityResolver, lemma_number_bad_digit, lemma_number_grows, lemma_number_nonneg, number_spec,
    unescape_spec, unescape_with,
};
use crate::shape::{
    DeError, DeErrorSpec, Field, IntKind, Shape, Value, value_view, values_view, ValueSpec,
};
use crate::syntax::{
    find_byte, find_space, lemma_find_space_bounds, lemma_skip_spaces_bounds, scan_byte,
    scan_spaces, scan_to_space, skip_spaces,
};
use crate::utils::{AMP, CowBytes, extend, slice_eq, subslice, to_vec};

verus! {

/// The text in the form in which the standard library prints a string for
/// inspection: between double quotes, with the characters that need it
/// escaped. It is a function of the string's characters alone.
pub uninterp spec fn debug_quoted(text: Seq<char>) -> Seq<u8>;

/// Prints a string for inspection, by `format!` with `{:?}`, which goes by
/// the implementation of `core::fmt::Debug` for `str`. Nothing is proved of
/// it: the result is taken to be the inspection form of the string's
/// characters, whatever that is.
#[verifier::external_body]
fn debug_quote(s: &str) -> (r: Vec<u8>)
    ensures
        r@ == debug_quoted(s@),
{
    format!("{:?}", s).into_bytes()
}

/// Takes bytes as a string, by `core::str::from_utf8`. Nothing is proved of
/// it: it is taken to give a string exactly if the bytes are valid UTF-8,
/// and the string then to be those bytes.
#[verifier::external_body]
fn utf8_text(bytes: &[u8]) -> (r: Option<&str>)
    ensures
        (r is Some) == valid_utf8(bytes@),
        match r {
            Some(s) => s.spec_bytes() == bytes@,
            None => true,
        },
{
    core::str::from_utf8(bytes).ok()
}

/// The message that says that text was found where something else was
/// expected: `invalid type: string Q, expected E`, where `Q` is the text as
/// quoted for inspection.
pub open spec fn invalid_type_spec(quoted: Seq<u8>, expected: Seq<u8>) -> Seq<u8> {
    "invalid type: string ".spec_bytes() + quoted + ", expected ".spec_bytes() + expected
}

/// Builds the message that says that text was found where something else
/// was expected, from the text as quoted for inspection.
pub fn invalid_type(quoted: &[u8], expected: &[u8]) -> (r: Vec<u8>)
    ensures
        r@ == invalid_type_spec(quoted@, expected@),
{
    let mut r: Vec<u8> = Vec::new();
    extend(&mut r, "invalid type: string ".as_bytes());
    extend(&mut r, quoted);
    extend(&mut r, ", expected ".as_bytes());
    extend(&mut r, expected);
    assert(r@ =~= invalid_type_spec(quoted@, expected@));
    r
}

/// The error for text that is not what was expected: the message that says
/// so where the text is valid UTF-8, and the text itself as undecodable
/// where it is not.
pub open spec fn mismatch_spec(text: Seq<u8>, expected: Seq<u8>) -> DeErrorSpec {
    if valid_utf8(text) {
        DeErrorSpec::Custom(invalid_type_spec(debug_quoted(decode_utf8(text)), expected))
    } else {
        DeErrorSpec::NonDecodable(text)
    }
}

/// Builds the error for text that is not what was expected.
pub fn mismatch(text: &[u8], expected: &[u8]) -> (r: DeError)
    ensures
        r@ == mismatch_spec(text@, expected@),
{
    match utf8_text(text) {
        Some(s) => {
            proof {
                encode_utf8_decode_utf8(s@);
            }
            let quoted = debug_quote(s);
            DeError::Custom(invalid_type(quoted.as_slice(), expected))
        },
        None => DeError::NonDecodable(to_vec(text)),
    }
}

/// The truth value that a text denotes: `true` or `1`, `false` or `0`.
pub open spec fn bool_spec(text: Seq<u8>) -> Option<bool> {
    if text == "true".spec_bytes() || text == "1".spec_bytes() {
        Some(true)
    } else if text == "false".spec_bytes() || text == "0".spec_bytes() {
        Some(false)
    } else {
        None
    }
}

/// Reads a truth value.
pub fn parse_bool(text: &[u8]) -> (r: Option<bool>)
    ensures
        r == bool_spec(text@),
{
    if slice_eq(text, "true".as_bytes()) || slice_eq(text, "1".as_bytes()) {
        Some(true)
    } else if slice_eq(text, "false".as_bytes()) || slice_eq(text, "0".as_bytes()) {
        Some(false)
    } else {
        None
    }
}

/// Whether a text starts with a sign that the kind admits: `+` always, `-`
/// for the signed kinds.
pub open spec fn has_sign(text: Seq<u8>) -> bool {
    text.len() > 0 && (text[0] == '+' as u8 || text[0] == '-' as u8)
}

/// The number of the given kind that a text denotes: an optional sign, `-`
/// only for a signed kind, then decimal digits and nothing else, for a number
/// that the kind can hold.
pub open spec fn int_spec(text: Seq<u8>, kind: IntKind) -> Option<int> {
    let negative = text.len() > 0 && text[0] == '-' as u8;
    let digits = if has_sign(text) {
        text.skip(1)
    } else {
        text
    };
    if negative && !kind.signed() {
        None
    } else {
        match number_spec(digits, false) {
            Some(m) => {
                let v = if negative {
                    -m
                } else {
                    m
                };
                if kind.min_spec() <= v <= kind.max_spec() {
                    Some(v)
                } else {
                    None
                }
            },
            None => None,
        }
    }
}

/// Reads a run of decimal digits as a number, if it is one that 128 bits
/// can hold.
fn parse_magnitude(digits: &[u8]) -> (r: Option<u128>)
    ensures
        match r {
            Some(m) => number_spec(digits@, false) == Some(m as int),
            None => match number_spec(digits@, false) {
                Some(v) => v > u128::MAX,
                None => true,
            },
        },
{
    if digits.len() == 0 {
        return None;
    }
    let mut acc: u128 = 0;
    let mut i: usize = 0;
    while i < digits.len()
        invariant
            i <= digits@.len(),
            i == 0 ==> acc == 0,
            i > 0 ==> number_spec(digits@.take(i as int), false) == Some(acc as int),
        decreases digits@.len() - i,
    {
        let b = digits[i];
        if !('0' as u8 <= b && b <= '9' as u8) {
            proof {
                lemma_number_bad_digit(digits@, false, i as int);
            }
            return None;
        }
        let d: u128 = (b - '0' as u8) as u128;
        proof {
            assert(digits@.take(i + 1).drop_last() =~= digits@.take(i as int));
            assert(digits@.take(i + 1).last() == b);
            assert(number_spec(digits@.take(i + 1), false) == Some(acc * 10 + d));
        }
        if acc > (u128::MAX - d) / 10 {
            proof {
                lemma_number_grows(digits@, false, i + 1);
                assert(acc * 10 + d > u128::MAX);
            }
            return None;
        }
        acc = acc * 10 + d;
        i += 1;
    }
    assert(digits@.take(i as int) =~= digits@);
    Some(acc)
}

/// Reads a number of the given kind.
pub fn parse_int(text: &[u8], kind: IntKind) -> (r: Option<Value<'static>>)
    ensures
        match r {
            Some(v) => int_spec(text@, kind) is Some && value_view(v) == (
            if kind.signed() {
                ValueSpec::Int(int_spec(text@, kind)->0)
            } else {
                ValueSpec::UInt(int_spec(text@, kind)->0)
            }),
            None => int_spec(text@, kind) is None,
        },
{
    let n = text.len();
    let negative = n > 0 && text[0] == '-' as u8;
    let signed = n > 0 && (text[0] == '+' as u8 || text[0] == '-' as u8);
    let digits = if signed {
        subslice(text, 1, n)
    } else {
        text
    };
    assert(digits@ =~= if has_sign(text@) {
        text@.skip(1)
    } else {
        text@
    });
    if negative && !kind.is_signed() {
        return None;
    }
    proof {
        lemma_number_nonneg(digits@, false);
    }
    match parse_magnitude(digits) {
        None => None,
        Some(m) => {
            let max = kind.max();
            if negative {
                if m > max && m - max > 1 {
                    None
                } else if m > 0x7fff_ffff_ffff_ffff_ffff_ffff_ffff_ffff {
                    Some(Value::Int(i128::MIN))
                } else {
                    Some(Value::Int(-(m as i128)))
                }
            } else if m > max {
                None
            } else if kind.is_signed() {
                Some(Value::Int(m as i128))
            } else {
                Some(Value::UInt(m))
            }
        },
    }
}

/// Whether a text is made of decimal digits only.
pub open spec fn all_digits(s: Seq<u8>) -> bool {
    forall|i: int| 0 <= i < s.len() ==> '0' as u8 <= #[trigger] s[i] <= '9' as u8
}

/// A letter in lower case; every other byte as it is.
pub open spec fn lower_spec(b: u8) -> u8 {
    if 'A' as u8 <= b <= 'Z' as u8 {
        (b + 32) as u8
    } else {
        b
    }
}

/// Whether a text is `inf`, `infinity` or `nan`, in any mix of cases.
pub open spec fn is_special_float(body: Seq<u8>) -> bool {
    let low = body.map_values(|b: u8| lower_spec(b));
    low == "inf".spec_bytes() || low == "infinity".spec_bytes() || low == "nan".spec_bytes()
}

/// The first position at or after `from` that holds `e` or `E`, or the
/// length of the text where there is none.
pub open spec fn exponent_at(s: Seq<u8>, from: int) -> int
    decreases s.len() - from,
{
    if from >= s.len() {
        s.len() as int
    } else if s[from] == 'e' as u8 || s[from] == 'E' as u8 {
        from
    } else {
        exponent_at(s, from + 1)
    }
}

/// Whether a text is an exponent: an optional sign and one digit or more.
pub open spec fn is_exponent(x: Seq<u8>) -> bool {
    let digits = if has_sign(x) {
        x.skip(1)
    } else {
        x
    };
    digits.len() > 0 && all_digits(digits)
}

/// Whether a text is a decimal number: digits with at most one `.` among
/// them, one digit at least, and then, if an `e` or `E` follows, an
/// exponent.
pub open spec fn is_decimal_float(body: Seq<u8>) -> bool {
    let e = exponent_at(body, 0);
    let mantissa = body.take(e);
    let dot = find_byte(mantissa, 0, '.' as u8);
    let whole = mantissa.take(dot);
    let fraction = if dot < mantissa.len() {
        mantissa.skip(dot + 1)
    } else {
        Seq::<u8>::empty()
    };
    &&& all_digits(whole)
    &&& all_digits(fraction)
    &&& whole.len() + fraction.len() > 0
    &&& e < body.len() ==> is_exponent(body.skip(e + 1))
}

/// Whether a text is the written form of a floating-point number: an
/// optional sign, then a decimal number or one of `inf`, `infinity` and
/// `nan`.
pub open spec fn is_float_spec(text: Seq<u8>) -> bool {
    let body = if has_sign(text) {
        text.skip(1)
    } else {
        text
    };
    is_special_float(body) || is_decimal_float(body)
}

fn digits_only(s: &[u8]) -> (r: bool)
    ensures
        r == all_digits(s@),
{
    let mut i: usize = 0;
    while i < s.len()
        invariant
            i <= s@.len(),
            forall|j: int| 0 <= j < i ==> '0' as u8 <= #[trigger] s@[j] <= '9' as u8,
        decreases s@.len() - i,
    {
        if !('0' as u8 <= s[i] && s[i] <= '9' as u8) {
            return false;
        }
        i += 1;
    }
    true
}

fn without_sign(text: &[u8]) -> (r: &[u8])
    ensures
        r@ == (if has_sign(text@) {
            text@.skip(1)
        } else {
            text@
        }),
{
    if text.len() > 0 && (text[0] == '+' as u8 || text[0] == '-' as u8) {
        subslice(text, 1, text.len())
    } else {
        text
    }
}

fn special_float(body: &[u8]) -> (r: bool)
    ensures
        r == is_special_float(body@),
{
    let mut low: Vec<u8> = Vec::new();
    let mut i: usize = 0;
    while i < body.len()
        invariant
            i <= body@.len(),
            low@ == body@.take(i as int).map_values(|b: u8| lower_spec(b)),
        decreases body@.len() - i,
    {
        let b = body[i];
        let l = if 'A' as u8 <= b && b <= 'Z' as u8 {
            b + 32
        } else {
            b
        };
        low.push(l);
        assert(low@ =~= body@.take(i + 1).map_values(|b: u8| lower_spec(b)));
        i += 1;
    }
    assert(body@.take(i as int) =~= body@);
    slice_eq(low.as_slice(), "inf".as_bytes()) || slice_eq(low.as_slice(), "infinity".as_bytes())
        || slice_eq(low.as_slice(), "nan".as_bytes())
}

fn find_exponent(s: &[u8]) -> (k: usize)
    ensures
        k == exponent_at(s@, 0),
        k <= s@.len(),
{
    let mut i: usize = 0;
    while i < s.len()
        invariant
            i <= s@.len(),
            exponent_at(s@, 0) == exponent_at(s@, i as int),
        decreases s@.len() - i,
    {
        if s[i] == 'e' as u8 || s[i] == 'E' as u8 {
            return i;
        }
        i += 1;
    }
    i
}

fn decimal_float(body: &[u8]) -> (r: bool)
    ensures
        r == is_decimal_float(body@),
{
    let e = find_exponent(body);
    let mantissa = subslice(body, 0, e);
    let dot = scan_byte(mantissa, 0, '.' as u8);
    let whole = subslice(mantissa, 0, dot);
    let fraction = if dot < mantissa.len() {
        subslice(mantissa, dot + 1, mantissa.len())
    } else {
        subslice(mantissa, 0, 0)
    };
    assert(fraction@ =~= if dot < mantissa@.len() {
        mantissa@.skip(dot + 1)
    } else {
        Seq::<u8>::empty()
    });
    if !digits_only(whole) || !digits_only(fraction) {
        return false;
    }
    if whole.len() == 0 && fraction.len() == 0 {
        return false;
    }
    if e < body.len() {
        let x = subslice(body, e + 1, body.len());
        let digits = without_sign(x);
        digits.len() > 0 && digits_only(digits)
    } else {
        true
    }
}

/// Tests whether a text is the written form of a floating-point number.
pub fn is_float(text: &[u8]) -> (r: bool)
    ensures
        r == is_float_spec(text@),
{
    let body = without_sign(text);
    special_float(body) || decimal_float(body)
}

/// The character that a text holds, where it holds exactly one.
pub open spec fn char_spec(text: Seq<u8>) -> Option<char> {
    if valid_utf8(text) && decode_utf8(text).len() == 1 {
        Some(decode_utf8(text)[0])
    } else {
        None
    }
}

/// Reads the one character of a text.
pub fn parse_char(text: &[u8]) -> (r: Option<char>)
    ensures
        r == char_spec(text@),
{
    match utf8_text(text) {
        Some(s) => {
            proof {
                encode_utf8_decode_utf8(s@);
            }
            if s.unicode_len() == 1 {
                Some(s.get_char(0))
            } else {
                None
            }
        },
        None => None,
    }
}

/// Tests whether bytes are valid UTF-8.
pub fn is_utf8(text: &[u8]) -> (r: bool)
    ensures
        r == valid_utf8(text@),
{
    utf8_text(text).is_some()
}

/// `binary data content is not supported by XML format`
pub open spec fn binary_unsupported() -> Seq<u8> {
    "binary data content is not supported by XML format".spec_bytes()
}

/// ``byte arrays are not supported as `xs:list` items``
pub open spec fn binary_item_unsupported() -> Seq<u8> {
    "byte arrays are not supported as `xs:list` items".spec_bytes()
}

/// `compound values are not supported in text content`
pub open spec fn compound_unsupported() -> Seq<u8> {
    "compound values are not supported in text content".spec_bytes()
}

/// The message for a name that is no unit variant: ``unknown variant `N` ``.
pub open spec fn unknown_variant_spec(name: Seq<u8>) -> Seq<u8> {
    "unknown variant `".spec_bytes() + name + "`".spec_bytes()
}

/// Builds the message for a name that is no unit variant.
pub fn unknown_variant(name: &[u8]) -> (r: Vec<u8>)
    ensures
        r@ == unknown_variant_spec(name@),
{
    let mut r: Vec<u8> = Vec::new();
    extend(&mut r, "unknown variant `".as_bytes());
    extend(&mut r, name);
    extend(&mut r, "`".as_bytes());
    assert(r@ =~= unknown_variant_spec(name@));
    r
}

/// The position at or after `from` of the first variant that bears the
/// given name, or the number of variants where there is none.
pub open spec fn variant_index(variants: Seq<Field>, name: Seq<u8>, from: int) -> int
    decreases variants.len() - from,
{
    if from >= variants.len() {
        variants.len() as int
    } else if from >= 0 && variants[from].name@ == name {
        from
    } else {
        variant_index(variants, name, from + 1)
    }
}

/// Finds the first variant that bears the given name.
pub fn find_variant(variants: &Vec<Field>, name: &[u8]) -> (k: usize)
    ensures
        k == variant_index(variants@, name@, 0),
        k <= variants@.len(),
{
    let mut i: usize = 0;
    while i < variants.len()
        invariant
            i <= variants@.len(),
            variant_index(variants@, name@, 0) == variant_index(variants@, name@, i as int),
        decreases variants@.len() - i,
    {
        if slice_eq(variants[i].name.as_slice(), name) {
            return i;
        }
        i += 1;
    }
    i
}

/// What a text gives for a shape that a single piece of text can take.
///
/// `borrowed` says whether the text is a borrow of the document, which
/// borrowed text must be. Within a list, `in_list` is set. Nothing is
/// expected more than once: an option is what it holds.
///
/// - A unit takes any text.
/// - A truth value, a number, a floating-point number and a character
///   must be written as such; a floating-point number is handed over as
///   written.
/// - Text must be valid UTF-8.
/// - A tagged union takes the name of a variant that holds nothing.
/// - Binary data, and values made of several parts, are not supported.
pub open spec fn atom_spec(text: Seq<u8>, borrowed: bool, shape: Shape, in_list: bool) -> Result<
    ValueSpec,
    DeErrorSpec,
>
    decreases shape,
{
    match shape {
        Shape::Unit => Ok(ValueSpec::Unit),
        Shape::Bool => match bool_spec(text) {
            Some(b) => Ok(ValueSpec::Bool(b)),
            None => Err(mismatch_spec(text, "a boolean".spec_bytes())),
        },
        Shape::Integer(kind) => match int_spec(text, kind) {
            Some(v) => Ok(
                if kind.signed() {
                    ValueSpec::Int(v)
                } else {
                    ValueSpec::UInt(v)
                },
            ),
            None => Err(mismatch_spec(text, kind.name_spec())),
        },
        Shape::Float => if is_float_spec(text) {
            Ok(ValueSpec::Float(text))
        } else {
            Err(mismatch_spec(text, "a floating point number".spec_bytes()))
        },
        Shape::Char => match char_spec(text) {
            Some(c) => Ok(ValueSpec::Char(c)),
            None => Err(mismatch_spec(text, "a character".spec_bytes())),
        },
        Shape::String => if valid_utf8(text) {
            Ok(ValueSpec::String(text))
        } else {
            Err(DeErrorSpec::NonDecodable(text))
        },
        Shape::BorrowedStr => if valid_utf8(text) && borrowed {
            Ok(ValueSpec::Borrowed(text))
        } else {
            Err(mismatch_spec(text, "a borrowed string".spec_bytes()))
        },
        Shape::Bytes => Err(
            DeErrorSpec::Unsupported(
                if in_list {
                    binary_item_unsupported()
                } else {
                    binary_unsupported()
                },
            ),
        ),
        Shape::Optional(inner) => match atom_spec(text, borrowed, *inner, in_list) {
            Ok(v) => Ok(ValueSpec::Present(Box::new(v))),
            Err(e) => Err(e),
        },
        Shape::Enum(variants) => {
            let k = variant_index(variants@, text, 0);
            if k < variants@.len() && variants@[k].shape is Unit {
                Ok(ValueSpec::Variant(k, Box::new(ValueSpec::Unit)))
            } else {
                Err(DeErrorSpec::Custom(unknown_variant_spec(text)))
            }
        },
        _ => Err(DeErrorSpec::Unsupported(compound_unsupported())),
    }
}

/// Binds a text to a shape that a single piece of text can take.
pub fn bind_atom<'a>(text: CowBytes<'a>, shape: &Shape, in_list: bool) -> (r: Result<
    Value<'a>,
    DeError,
>)
    ensures
        match r {
            Ok(v) => atom_spec(text@, text is Borrowed, *shape, in_list) == Ok::<
                ValueSpec,
                DeErrorSpec,
            >(value_view(v)),
            Err(e) => atom_spec(text@, text is Borrowed, *shape, in_list) == Err::<
                ValueSpec,
                DeErrorSpec,
            >(e@),
        },
    decreases *shape,
{
    match shape {
        Shape::Unit => Ok(Value::Unit),
        Shape::Bool => match parse_bool(text.as_slice()) {
            Some(b) => Ok(Value::Bool(b)),
            None => Err(mismatch(text.as_slice(), "a boolean".as_bytes())),
        },
        Shape::Integer(kind) => match parse_int(text.as_slice(), *kind) {
            Some(v) => Ok(v),
            None => Err(mismatch(text.as_slice(), kind.name().as_bytes())),
        },
        Shape::Float => if is_float(text.as_slice()) {
            Ok(Value::Float(text.into_owned()))
        } else {
            Err(mismatch(text.as_slice(), "a floating point number".as_bytes()))
        },
        Shape::Char => match parse_char(text.as_slice()) {
            Some(c) => Ok(Value::Char(c)),
            None => Err(mismatch(text.as_slice(), "a character".as_bytes())),
        },
        Shape::String => if is_utf8(text.as_slice()) {
            Ok(Value::String(text.into_owned()))
        } else {
            Err(DeError::NonDecodable(text.into_owned()))
        },
        Shape::BorrowedStr => match text {
            CowBytes::Borrowed(s) => if is_utf8(s) {
                Ok(Value::Borrowed(s))
            } else {
                Err(mismatch(s, "a borrowed string".as_bytes()))
            },
            CowBytes::Owned(v) => Err(mismatch(v.as_slice(), "a borrowed string".as_bytes())),
        },
        Shape::Bytes => Err(
            DeError::Unsupported(
                to_vec(
                    if in_list {
                        "byte arrays are not supported as `xs:list` items".as_bytes()
                    } else {
                        "binary data content is not supported by XML format".as_bytes()
                    },
                ),
            ),
        ),
        Shape::Optional(inner) => match bind_atom(text, inner, in_list) {
            Ok(v) => Ok(Value::Present(Box::new(v))),
            Err(e) => Err(e),
        },
        Shape::Enum(variants) => {
            let k = find_variant(variants, text.as_slice());
            if k < variants.len() && variants[k].shape.is_unit() {
                assert(value_view(Value::Unit) == ValueSpec::Unit);
                Ok(Value::Variant(k, Box::new(Value::Unit)))
            } else {
                Err(DeError::Custom(unknown_variant(text.as_slice())))
            }
        },
        _ => Err(
            DeError::Unsupported(
                to_vec("compound values are not supported in text content".as_bytes()),
            ),
        ),
    }
}

/// Values put before the values that are still to come, or the error in
/// their place.
pub open spec fn values_then(head: Seq<ValueSpec>, rest: Result<Seq<ValueSpec>, DeErrorSpec>) -> Result<
    Seq<ValueSpec>,
    DeErrorSpec,
> {
    match rest {
        Ok(more) => Ok(head + more),
        Err(e) => Err(e),
    }
}

/// A list with one more value at its end has one more value in its view.
pub proof fn lemma_values_push(items: Seq<Value>, v: Value)
    ensures
        values_view(items.push(v)) == values_view(items).push(value_view(v)),
{
    assert(values_view(items.push(v)) =~= values_view(items).push(value_view(v)));
}

/// One more value read: what was read before, the value, and what is still
/// to come are the same whole.
pub proof fn lemma_values_step(
    head: Seq<ValueSpec>,
    v: ValueSpec,
    rest: Result<Seq<ValueSpec>, DeErrorSpec>,
)
    ensures
        values_then(head, values_then(seq![v], rest)) == values_then(head.push(v), rest),
{
    match rest {
        Ok(more) => {
            assert(head + (seq![v] + more) =~= head.push(v) + more);
        },
        Err(_) => {},
    }
}

/// The items of a list that is written as text: the stretches between
/// whitespace, each bound to the shape of the items. The first item that
/// does not fit decides the error.
pub open spec fn list_spec(text: Seq<u8>, borrowed: bool, inner: Shape, pos: int) -> Result<
    Seq<ValueSpec>,
    DeErrorSpec,
>
    decreases text.len() - pos,
{
    let p = skip_spaces(text, pos);
    let e = find_space(text, p);
    if p >= text.len() || !(pos <= p < e <= text.len()) {
        Ok(Seq::empty())
    } else {
        match atom_spec(text.subrange(p, e), borrowed, inner, true) {
            Ok(v) => values_then(seq![v], list_spec(text, borrowed, inner, e)),
            Err(x) => Err(x),
        }
    }
}

/// What the decoded text of an element gives for a shape.
///
/// A sequence takes the items of a list. An option is absent where the text
/// is empty and what it holds is a primitive, and present otherwise. Every
/// other shape takes the text as a whole.
pub open spec fn text_spec(text: Seq<u8>, borrowed: bool, shape: Shape) -> Result<
    ValueSpec,
    DeErrorSpec,
>
    decreases shape,
{
    match shape {
        Shape::List(inner) => match list_spec(text, borrowed, *inner, 0) {
            Ok(items) => Ok(ValueSpec::List(items)),
            Err(e) => Err(e),
        },
        Shape::Optional(inner) => if text.len() == 0 && inner.is_primitive() {
            Ok(ValueSpec::Absent)
        } else {
            match text_spec(text, borrowed, *inner) {
                Ok(v) => Ok(ValueSpec::Present(Box::new(v))),
                Err(e) => Err(e),
            }
        },
        _ => atom_spec(text, borrowed, shape, false),
    }
}

/// What a decoded piece gives for a shape: the error of decoding as invalid
/// XML, and otherwise what the decoded text gives. The decoded text borrows
/// from the document exactly where the piece held no `&`.
pub open spec fn decoded_atom_spec<R: EntityResolver>(
    raw: Seq<u8>,
    shape: Shape,
    in_list: bool,
    resolver: R,
) -> Result<ValueSpec, DeErrorSpec> {
    match unescape_spec(raw, resolver) {
        Ok(text) => atom_spec(text, !raw.contains(AMP), shape, in_list),
        Err(e) => Err(DeErrorSpec::InvalidXml(e)),
    }
}

/// The items of a list that is written as an attribute value: the
/// stretches between whitespace, each decoded by itself and then bound to
/// the shape of the items.
pub open spec fn attr_list_spec<R: EntityResolver>(
    raw: Seq<u8>,
    inner: Shape,
    resolver: R,
    pos: int,
) -> Result<Seq<ValueSpec>, DeErrorSpec>
    decreases raw.len() - pos,
{
    let p = skip_spaces(raw, pos);
    let e = find_space(raw, p);
    if p >= raw.len() || !(pos <= p < e <= raw.len()) {
        Ok(Seq::empty())
    } else {
        match decoded_atom_spec(raw.subrange(p, e), inner, true, resolver) {
            Ok(v) => values_then(seq![v], attr_list_spec(raw, inner, resolver, e)),
            Err(x) => Err(x),
        }
    }
}

/// What the value of an attribute, as it stands between the quotes, gives
/// for a shape.
///
/// A sequence takes the items of a list, which are split before they are
/// decoded. An option is absent where the value is empty and what it holds
/// is a primitive, and present otherwise. Every other shape takes the
/// decoded value as a whole.
pub open spec fn attr_value_spec<R: EntityResolver>(raw: Seq<u8>, shape: Shape, resolver: R) -> Result<
    ValueSpec,
    DeErrorSpec,
>
    decreases shape,
{
    match shape {
        Shape::List(inner) => match attr_list_spec(raw, *inner, resolver, 0) {
            Ok(items) => Ok(ValueSpec::List(items)),
            Err(e) => Err(e),
        },
        Shape::Optional(inner) => if raw.len() == 0 && inner.is_primitive() {
            Ok(ValueSpec::Absent)
        } else {
            match attr_value_spec(raw, *inner, resolver) {
                Ok(v) => Ok(ValueSpec::Present(Box::new(v))),
                Err(e) => Err(e),
            }
        },
        _ => decoded_atom_spec(raw, shape, false, resolver),
    }
}

/// A stretch of a text, borrowed where the text is.
fn piece<'a>(text: &CowBytes<'a>, from: usize, to: usize) -> (r: CowBytes<'a>)
    requires
        from <= to <= text@.len(),
    ensures
        r@ == text@.subrange(from as int, to as int),
        (r is Borrowed) == (*text is Borrowed),
{
    match text {
        CowBytes::Borrowed(s) => CowBytes::Borrowed(subslice(*s, from, to)),
        CowBytes::Owned(v) => CowBytes::Owned(to_vec(subslice(v.as_slice(), from, to))),
    }
}

/// Binds the items of a list that is written as text.
pub fn bind_list<'a>(text: &CowBytes<'a>, inner: &Shape) -> (r: Result<Vec<Value<'a>>, DeError>)
    ensures
        match r {
            Ok(items) => list_spec(text@, *text is Borrowed, *inner, 0) == Ok::<
                Seq<ValueSpec>,
                DeErrorSpec,
            >(values_view(items@)),
            Err(e) => list_spec(text@, *text is Borrowed, *inner, 0) == Err::<
                Seq<ValueSpec>,
                DeErrorSpec,
            >(e@),
        },
{
    let mut items: Vec<Value<'a>> = Vec::new();
    let mut pos: usize = 0;
    let n = text.len();
    let ghost whole = list_spec(text@, *text is Borrowed, *inner, 0);
    proof {
        match whole {
            Ok(more) => {
                assert(values_view(items@) + more =~= more);
            },
            Err(_) => {},
        }
    }
    loop
        invariant
            pos <= n == text@.len(),
            whole == list_spec(text@, *text is Borrowed, *inner, 0),
            whole == values_then(
                values_view(items@),
                list_spec(text@, *text is Borrowed, *inner, pos as int),
            ),
        decreases n - pos,
    {
        proof {
            lemma_skip_spaces_bounds(text@, pos as int);
        }
        let p = scan_spaces(text.as_slice(), pos);
        if p >= n {
            assert(values_view(items@) + Seq::<ValueSpec>::empty() =~= values_view(items@));
            return Ok(items);
        }
        proof {
            lemma_find_space_bounds(text@, p as int);
        }
        let e = scan_to_space(text.as_slice(), p);
        match bind_atom(piece(text, p, e), inner, true) {
            Err(x) => {
                return Err(x);
            },
            Ok(v) => {
                proof {
                    lemma_values_push(items@, v);
                    lemma_values_step(
                        values_view(items@),
                        value_view(v),
                        list_spec(text@, *text is Borrowed, *inner, e as int),
                    );
                }
                items.push(v);
                pos = e;
            },
        }
    }
}

/// Binds the decoded text of an element to a shape.
pub fn bind_text<'a>(text: CowBytes<'a>, shape: &Shape) -> (r: Result<Value<'a>, DeError>)
    ensures
        match r {
            Ok(v) => text_spec(text@, text is Borrowed, *shape) == Ok::<ValueSpec, DeErrorSpec>(
                value_view(v),
            ),
            Err(e) => text_spec(text@, text is Borrowed, *shape) == Err::<
                ValueSpec,
                DeErrorSpec,
            >(e@),
        },
    decreases *shape,
{
    match shape {
        Shape::List(inner) => match bind_list(&text, inner) {
            Ok(items) => Ok(Value::List(items)),
            Err(e) => Err(e),
        },
        Shape::Optional(inner) => if text.len() == 0 && inner.takes_primitive() {
            Ok(Value::Absent)
        } else {
            match bind_text(text, inner) {
                Ok(v) => Ok(Value::Present(Box::new(v))),
                Err(e) => Err(e),
            }
        },
        _ => bind_atom(text, shape, false),
    }
}

/// Decodes a piece and binds it to a shape that a single piece of text can
/// take.
pub fn bind_decoded<'a, R: EntityResolver>(
    raw: &'a [u8],
    shape: &Shape,
    in_list: bool,
    resolver: &R,
) -> (r: Result<Value<'a>, DeError>)
    ensures
        match r {
            Ok(v) => decoded_atom_spec(raw@, *shape, in_list, *resolver) == Ok::<
                ValueSpec,
                DeErrorSpec,
            >(value_view(v)),
            Err(e) => decoded_atom_spec(raw@, *shape, in_list, *resolver) == Err::<
                ValueSpec,
                DeErrorSpec,
            >(e@),
        },
{
    match unescape_with(raw, resolver) {
        Ok(text) => bind_atom(text, shape, in_list),
        Err(e) => Err(DeError::InvalidXml(e)),
    }
}

/// Binds the items of a list that is written as an attribute value.
pub fn bind_attribute_list<'a, R: EntityResolver>(raw: &'a [u8], inner: &Shape, resolver: &R) -> (r:
    Result<Vec<Value<'a>>, DeError>)
    ensures
        match r {
            Ok(items) => attr_list_spec(raw@, *inner, *resolver, 0) == Ok::<
                Seq<ValueSpec>,
                DeErrorSpec,
            >(values_view(items@)),
            Err(e) => attr_list_spec(raw@, *inner, *resolver, 0) == Err::<
                Seq<ValueSpec>,
                DeErrorSpec,
            >(e@),
        },
{
    let mut items: Vec<Value<'a>> = Vec::new();
    let mut pos: usize = 0;
    let n = raw.len();
    let ghost whole = attr_list_spec(raw@, *inner, *resolver, 0);
    proof {
        match whole {
            Ok(more) => {
                assert(values_view(items@) + more =~= more);
            },
            Err(_) => {},
        }
    }
    loop
        invariant
            pos <= n == raw@.len(),
            whole == attr_list_spec(raw@, *inner, *resolver, 0),
            whole == values_then(
                values_view(items@),
                attr_list_spec(raw@, *inner, *resolver, pos as int),
            ),
        decreases n - pos,
    {
        proof {
            lemma_skip_spaces_bounds(raw@, pos as int);
        }
        let p = scan_spaces(raw, pos);
        if p >= n {
            assert(values_view(items@) + Seq::<ValueSpec>::empty() =~= values_view(items@));
            return Ok(items);
        }
        proof {
            lemma_find_space_bounds(raw@, p as int);
        }
        let e = scan_to_space(raw, p);
        match bind_decoded(subslice(raw, p, e), inner, true, resolver) {
            Err(x) => {
                return Err(x);
            },
            Ok(v) => {
                proof {
                    lemma_values_push(items@, v);
                    lemma_values_step(
                        values_view(items@),
                        value_view(v),
                        attr_list_spec(raw@, *inner, *resolver, e as int),
                    );
                }
                items.push(v);
                pos = e;
            },
        }
    }
}

/// Binds the value of an attribute, as it stands between the quotes, to a
/// shape.
pub fn bind_attribute<'a, R: EntityResolver>(raw: &'a [u8], shape: &Shape, resolver: &R) -> (r:
    Result<Value<'a>, DeError>)
    ensures
        match r {
            Ok(v) => attr_value_spec(raw@, *shape, *resolver) == Ok::<ValueSpec, DeErrorSpec>(
                value_view(v),
            ),
            Err(e) => attr_value_spec(raw@, *shape, *resolver) == Err::<ValueSpec, DeErrorSpec>(
                e@,
            ),
        },
    decreases *shape,
{
    match shape {
        Shape::List(inner) => match bind_attribute_list(raw, inner, resolver) {
            Ok(items) => Ok(Value::List(items)),
            Err(e) => Err(e),
        },
        Shape::Optional(inner) => if raw.len() == 0 && inner.takes_primitive() {
            Ok(Value::Absent)
        } else {
            match bind_attribute(raw, inner, resolver) {
                Ok(v) => Ok(Value::Present(Box::new(v))),
                Err(e) => Err(e),
            }
        },
        _ => bind_decoded(raw, shape, false, resolver),
    }
}

} // verus!

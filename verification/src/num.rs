//! JSON numbers as IEEE-754 binary64 bit patterns.
//!
//! The library stores every number as the 64 bits of a double.  Sign tests,
//! negation and the absolute value are bit operations and are verified here;
//! rounding arithmetic, decimal conversion and ordered comparison go through
//! `rustc_apfloat`, a software implementation of IEEE-754, behind trusted
//! wrappers whose contracts name or state what each call returns.

use vstd::prelude::*;

use rustc_apfloat::Float;
use rustc_apfloat::ieee::Double;

verus! {

/// Outcome of an ordered comparison.
#[derive(Clone, Copy, PartialEq, Eq, Structural, Debug)]
pub enum Cmp {
    Less,
    Equal,
    Greater,
}

pub open spec fn sign_bit(b: u64) -> bool {
    b >> 63 == 1u64
}

pub open spec fn exp_field(b: u64) -> u64 {
    (b >> 52) & 0x7FF
}

pub open spec fn frac_field(b: u64) -> u64 {
    b & 0xF_FFFF_FFFF_FFFF
}

pub open spec fn is_nan_bits(b: u64) -> bool {
    exp_field(b) == 0x7FF && frac_field(b) != 0
}

/// An infinity: all exponent bits set, no fraction.
pub open spec fn is_inf_bits(b: u64) -> bool {
    exp_field(b) == 0x7FF && frac_field(b) == 0
}

/// The bits without the sign: the encoding of the number's absolute value.
pub open spec fn magnitude(b: u64) -> u64 {
    b & 0x7FFF_FFFF_FFFF_FFFF
}

/// Finite doubles (and infinities) order as sign-magnitude integers: for
/// non-NaN patterns, the numeric order of the encoded values is exactly the
/// order of these keys, except that the two zeros are numerically equal.
pub open spec fn order_key(b: u64) -> int {
    if sign_bit(b) {
        -(magnitude(b) as int)
    } else {
        magnitude(b) as int
    }
}

/// IEEE-754 comparison of two bit patterns: `None` exactly when a NaN is
/// involved, and `-0 == 0`.
pub open spec fn float_cmp(a: u64, b: u64) -> Option<Cmp> {
    if is_nan_bits(a) || is_nan_bits(b) {
        None
    } else if magnitude(a) == 0 && magnitude(b) == 0 {
        Some(Cmp::Equal)
    } else if order_key(a) == order_key(b) {
        Some(Cmp::Equal)
    } else if order_key(a) < order_key(b) {
        Some(Cmp::Less)
    } else {
        Some(Cmp::Greater)
    }
}

/// IEEE-754 negation: flip the sign bit.
pub open spec fn neg_bits(b: u64) -> u64 {
    b ^ 0x8000_0000_0000_0000
}

/// IEEE-754 absolute value: clear the sign bit.
pub open spec fn abs_bits(b: u64) -> u64 {
    b & 0x7FFF_FFFF_FFFF_FFFF
}

/// Whether the bits encode a NaN.
pub fn num_is_nan(b: u64) -> (r: bool)
    ensures
        r == is_nan_bits(b),
{
    (b >> 52) & 0x7FF == 0x7FF && b & 0xF_FFFF_FFFF_FFFF != 0
}

/// Whether the bits encode an infinity.
pub fn num_is_inf(b: u64) -> (r: bool)
    ensures
        r == is_inf_bits(b),
{
    (b >> 52) & 0x7FF == 0x7FF && b & 0xF_FFFF_FFFF_FFFF == 0
}

/// Whether the sign bit is set.
pub fn num_is_negative(b: u64) -> (r: bool)
    ensures
        r == sign_bit(b),
{
    b >> 63 == 1
}

/// Negate a number by flipping its sign bit.
pub fn num_neg(b: u64) -> (r: u64)
    ensures
        r == neg_bits(b),
{
    b ^ 0x8000_0000_0000_0000
}

/// Absolute value of a number by clearing its sign bit.
pub fn num_abs(b: u64) -> (r: u64)
    ensures
        r == abs_bits(b),
{
    b & 0x7FFF_FFFF_FFFF_FFFF
}

/// What IEEE-754 addition (ties to even) returns on two bit patterns.
pub uninterp spec fn add_bits(a: u64, b: u64) -> u64;

/// What IEEE-754 subtraction returns on two bit patterns.
pub uninterp spec fn sub_bits(a: u64, b: u64) -> u64;

/// What IEEE-754 multiplication returns on two bit patterns.
pub uninterp spec fn mul_bits(a: u64, b: u64) -> u64;

/// What IEEE-754 division returns on two bit patterns.
pub uninterp spec fn div_bits(a: u64, b: u64) -> u64;

/// What IEEE-754 remainder (C `fmod`) returns on two bit patterns.
pub uninterp spec fn rem_bits(a: u64, b: u64) -> u64;

/// Relies on `Add` for `rustc_apfloat::ieee::Double`: IEEE-754 addition,
/// rounding to nearest, ties to even; a function of the bit patterns alone.
#[verifier::external_body]
pub fn num_add(a: u64, b: u64) -> (r: u64)
    ensures
        r == add_bits(a, b),
{
    (Double::from_bits(a as u128) + Double::from_bits(b as u128)).value.to_bits() as u64
}

/// Relies on `Sub` for `rustc_apfloat::ieee::Double`: IEEE-754 subtraction.
#[verifier::external_body]
pub fn num_sub(a: u64, b: u64) -> (r: u64)
    ensures
        r == sub_bits(a, b),
{
    (Double::from_bits(a as u128) - Double::from_bits(b as u128)).value.to_bits() as u64
}

/// Relies on `Mul` for `rustc_apfloat::ieee::Double`: IEEE-754 multiplication.
#[verifier::external_body]
pub fn num_mul(a: u64, b: u64) -> (r: u64)
    ensures
        r == mul_bits(a, b),
{
    (Double::from_bits(a as u128) * Double::from_bits(b as u128)).value.to_bits() as u64
}

/// Relies on `Div` for `rustc_apfloat::ieee::Double`: IEEE-754 division.
#[verifier::external_body]
pub fn num_div(a: u64, b: u64) -> (r: u64)
    ensures
        r == div_bits(a, b),
{
    (Double::from_bits(a as u128) / Double::from_bits(b as u128)).value.to_bits() as u64
}

/// Relies on `Rem` for `rustc_apfloat::ieee::Double`, which is C `fmod`, the
/// same operation as `%` on doubles in ordinary Rust.
#[verifier::external_body]
pub fn num_rem(a: u64, b: u64) -> (r: u64)
    ensures
        r == rem_bits(a, b),
{
    (Double::from_bits(a as u128) % Double::from_bits(b as u128)).value.to_bits() as u64
}

/// Relies on `PartialOrd` for `rustc_apfloat::ieee::Double`: IEEE-754
/// comparison, `None` exactly when a side is NaN; otherwise the encoded
/// values compare as reals, which on the bits is the `order_key` order with
/// the two zeros equal.
#[verifier::external_body]
pub fn num_cmp(a: u64, b: u64) -> (r: Option<Cmp>)
    ensures
        r == float_cmp(a, b),
{
    match Double::from_bits(a as u128).partial_cmp(&Double::from_bits(b as u128)) {
        None => None,
        Some(core::cmp::Ordering::Less) => Some(Cmp::Less),
        Some(core::cmp::Ordering::Equal) => Some(Cmp::Equal),
        Some(core::cmp::Ordering::Greater) => Some(Cmp::Greater),
    }
}

/// What rounding a double toward negative infinity and clamping it into
/// `usize` yields: zero for NaN and for negative values, `usize::MAX` past
/// the upper end.  Deterministic in the bit pattern.
pub uninterp spec fn floor_usize_bits(b: u64) -> usize;

/// Relies on `Float::to_u128_r` for `rustc_apfloat::ieee::Double` with
/// rounding toward negative: it floors, returns zero for NaN and clamps out
/// of range values to the ends, as `f.floor() as usize` does.
#[verifier::external_body]
pub fn num_floor_usize(b: u64) -> (r: usize)
    ensures
        r == floor_usize_bits(b),
{
    let mut exact = false;
    let v = Double::from_bits(b as u128).to_u128_r(64, rustc_apfloat::Round::TowardNegative,
        &mut exact).value;
    usize::try_from(v).unwrap_or(usize::MAX)
}

/// What converting an unsigned machine integer to a double yields; exact for
/// values up to 2^53.
pub uninterp spec fn usize_bits(n: usize) -> u64;

/// Relies on `Float::from_u128` for `rustc_apfloat::ieee::Double`: conversion
/// of an unsigned integer to the nearest double.
#[verifier::external_body]
pub fn num_from_usize(n: usize) -> (r: u64)
    ensures
        r == usize_bits(n),
{
    Double::from_u128(n as u128).value.to_bits() as u64
}

/// Every character is an ASCII decimal digit.
pub open spec fn all_digits(s: Seq<char>) -> bool {
    forall|i: int| 0 <= i < s.len() ==> is_digit_char(#[trigger] s[i])
}

pub open spec fn is_digit_char(c: char) -> bool {
    '0' <= c && c <= '9'
}

/// What parsing the decimal literal `ipart[.fpart][e[-]epart]` as a double
/// yields.  Decimal parsing is correctly rounded, so the bits are a function
/// of the three digit strings and the exponent sign alone.
pub uninterp spec fn dec_bits(
    ipart: Seq<char>,
    fpart: Option<Seq<char>>,
    neg_exp: bool,
    epart: Option<Seq<char>>,
) -> u64;

/// Relies on `FromStr` for `rustc_apfloat::ieee::Double`: correctly rounded
/// decimal-to-double conversion.  The body assembles the literal
/// `ipart[.fpart][e[-]epart]` and hands it to the parser; on digit strings of
/// this shape the parser always succeeds.
#[verifier::external_body]
pub fn num_from_parts(ipart: &str, fpart: Option<&str>, neg_exp: bool, epart: Option<&str>) -> (r:
    u64)
    requires
        0 < ipart@.len() < 0x8000_0000,
        all_digits(ipart@),
        fpart matches Some(f) ==> 0 < f@.len() < 0x8000_0000 && all_digits(f@),
        epart matches Some(e) ==> 0 < e@.len() < 0x8000_0000 && all_digits(e@),
        epart is None ==> !neg_exp,
    ensures
        r == dec_bits(ipart@, match fpart {
            Some(f) => Some(f@),
            None => None,
        }, neg_exp, match epart {
            Some(e) => Some(e@),
            None => None,
        }),
{
    let mut text = ipart.to_string();
    if let Some(f) = fpart {
        text = format!("{}.{}", text, f);
    }
    if let Some(e) = epart {
        text = format!("{}{}{}", text, if neg_exp { "e-" } else { "e" }, e);
    }
    match text.parse::<Double>() {
        Ok(v) => v.to_bits() as u64,
        Err(_) => 0,
    }
}

/// What the decimal rendering of a double's bits looks like.  The renderer is
/// deterministic: one bit pattern, one text.
pub uninterp spec fn float_str(b: u64) -> Seq<char>;

/// Relies on `Display` for `rustc_apfloat::ieee::Double`: a decimal rendering
/// with enough digits to identify the value, deterministic in the bits.
#[verifier::external_body]
pub fn num_to_string(b: u64) -> (r: String)
    ensures
        r@ == float_str(b),
{
    format!("{}", Double::from_bits(b as u128))
}

} // verus!

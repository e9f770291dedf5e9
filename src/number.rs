//! Numbers of the language: IEEE-754 double-precision values held as their bit
//! patterns. The arithmetic itself is done by `rustc_apfloat`, a software
//! implementation of IEEE-754; its results are named here, not restated. The
//! ordering and negation are a few lines on the bits and are stated and proved here.
use rustc_apfloat::ieee::Double;
use crate::token::is_numeral;
use rustc_apfloat::Float;
use vstd::prelude::*;

verus! {

/// How two numbers are ordered; `Unordered` when either one is NaN.
#[derive(Clone, Copy, PartialEq, Eq, Structural, Debug)]
pub enum NumOrder {
    Less,
    Equal,
    Greater,
    Unordered,
}

/// The sign bit of a double.
pub const SIGN_BIT: u64 = 0x8000_0000_0000_0000;

/// The IEEE-754 sum of two doubles, rounded to nearest, ties to even.
pub uninterp spec fn sum_of(a: u64, b: u64) -> u64;

/// The IEEE-754 difference `a - b`, rounded to nearest, ties to even.
pub uninterp spec fn difference_of(a: u64, b: u64) -> u64;

/// The IEEE-754 product of two doubles, rounded to nearest, ties to even.
pub uninterp spec fn product_of(a: u64, b: u64) -> u64;

/// The IEEE-754 quotient `a / b`, rounded to nearest, ties to even.
pub uninterp spec fn quotient_of(a: u64, b: u64) -> u64;

/// Whether a double is NaN: every exponent bit set and a nonzero fraction.
pub open spec fn is_nan(a: u64) -> bool {
    (a & 0x7ff0_0000_0000_0000) == 0x7ff0_0000_0000_0000 && (a & 0x000f_ffff_ffff_ffff) != 0
}

/// Where a double that is not NaN stands on the number line: its magnitude
/// bits, negated when the sign bit is set, so that `0` and `-0` meet.
pub open spec fn order_key(a: u64) -> int {
    let magnitude = (a & 0x7fff_ffff_ffff_ffff) as int;
    if a & SIGN_BIT != 0 {
        -magnitude
    } else {
        magnitude
    }
}

/// The IEEE-754 ordering of two doubles: unordered where either is NaN.
pub open spec fn order_of(a: u64, b: u64) -> NumOrder {
    if is_nan(a) || is_nan(b) {
        NumOrder::Unordered
    } else if order_key(a) < order_key(b) {
        NumOrder::Less
    } else if order_key(a) == order_key(b) {
        NumOrder::Equal
    } else {
        NumOrder::Greater
    }
}

/// The double nearest to a decimal numeral, or `None` where the text is no numeral.
pub uninterp spec fn decimal_value_of(text: Seq<char>) -> Option<u64>;

/// The double nearest to an unsigned integer.
pub uninterp spec fn integer_value_of(n: u64) -> u64;

/// Relies on `rustc_apfloat`'s `Add` for `Double` (`add_r` with ties to even).
#[verifier::external_body]
pub(crate) fn add_bits(a: u64, b: u64) -> (r: u64)
    ensures
        r == sum_of(a, b),
{
    let x = Double::from_bits(a as u128);
    let y = Double::from_bits(b as u128);
    (x + y).value.to_bits() as u64
}

/// Relies on `rustc_apfloat`'s `Sub` for `Double` (`sub_r` with ties to even).
#[verifier::external_body]
pub(crate) fn sub_bits(a: u64, b: u64) -> (r: u64)
    ensures
        r == difference_of(a, b),
{
    let x = Double::from_bits(a as u128);
    let y = Double::from_bits(b as u128);
    (x - y).value.to_bits() as u64
}

/// Relies on `rustc_apfloat`'s `Mul` for `Double` (`mul_r` with ties to even).
#[verifier::external_body]
pub(crate) fn mul_bits(a: u64, b: u64) -> (r: u64)
    ensures
        r == product_of(a, b),
{
    let x = Double::from_bits(a as u128);
    let y = Double::from_bits(b as u128);
    (x * y).value.to_bits() as u64
}

/// Relies on `rustc_apfloat`'s `Div` for `Double` (`div_r` with ties to even).
#[verifier::external_body]
pub(crate) fn div_bits(a: u64, b: u64) -> (r: u64)
    ensures
        r == quotient_of(a, b),
{
    let x = Double::from_bits(a as u128);
    let y = Double::from_bits(b as u128);
    (x / y).value.to_bits() as u64
}

fn key_of(a: u64) -> (r: i64)
    ensures
        r as int == order_key(a),
{
    let magnitude = a & 0x7fff_ffff_ffff_ffff;
    assert(a & 0x7fff_ffff_ffff_ffff <= 0x7fff_ffff_ffff_ffff) by (bit_vector);
    if a & SIGN_BIT != 0 {
        -(magnitude as i64)
    } else {
        magnitude as i64
    }
}

/// How two doubles are ordered.
pub fn compare_bits(a: u64, b: u64) -> (r: NumOrder)
    ensures
        r == order_of(a, b),
{
    let nan_a = (a & 0x7ff0_0000_0000_0000) == 0x7ff0_0000_0000_0000 && (a & 0x000f_ffff_ffff_ffff) != 0;
    let nan_b = (b & 0x7ff0_0000_0000_0000) == 0x7ff0_0000_0000_0000 && (b & 0x000f_ffff_ffff_ffff) != 0;
    if nan_a || nan_b {
        return NumOrder::Unordered;
    }
    let ka = key_of(a);
    let kb = key_of(b);
    if ka < kb {
        NumOrder::Less
    } else if ka == kb {
        NumOrder::Equal
    } else {
        NumOrder::Greater
    }
}

/// Relies on `rustc_apfloat`'s `FromStr` for `Double` (`from_str_r` with ties to
/// even), which decodes every run of digits with an optional fraction.
#[verifier::external_body]
pub(crate) fn parse_decimal(text: &str) -> (r: Option<u64>)
    ensures
        r == decimal_value_of(text@),
        is_numeral(text@) ==> r is Some,
{
    match text.parse::<Double>() {
        Ok(d) => Some(d.to_bits() as u64),
        Err(_) => None,
    }
}

/// Relies on `rustc_apfloat`'s `Float::from_u128` for `Double` (ties to even).
#[verifier::external_body]
pub(crate) fn integer_bits(n: u64) -> (r: u64)
    ensures
        r == integer_value_of(n),
{
    Double::from_u128(n as u128).value.to_bits() as u64
}

/// IEEE-754 negation flips the sign bit and nothing else.
pub open spec fn negated(a: u64) -> u64 {
    a ^ SIGN_BIT
}

/// The negation of a number.
pub fn negate(a: u64) -> (r: u64)
    ensures
        r == negated(a),
{
    a ^ SIGN_BIT
}

/// Whether `a < b` under IEEE-754 (false when either is NaN).
pub open spec fn spec_less(a: u64, b: u64) -> bool {
    order_of(a, b) == NumOrder::Less
}

/// Whether `a <= b` under IEEE-754 (false when either is NaN).
pub open spec fn spec_less_equal(a: u64, b: u64) -> bool {
    order_of(a, b) == NumOrder::Less || order_of(a, b) == NumOrder::Equal
}

/// Whether `a > b` under IEEE-754 (false when either is NaN).
pub open spec fn spec_greater(a: u64, b: u64) -> bool {
    order_of(a, b) == NumOrder::Greater
}

/// Whether `a >= b` under IEEE-754 (false when either is NaN).
pub open spec fn spec_greater_equal(a: u64, b: u64) -> bool {
    order_of(a, b) == NumOrder::Greater || order_of(a, b) == NumOrder::Equal
}

/// Whether `a == b` under IEEE-754: NaN equals nothing, and `0 == -0`.
pub open spec fn spec_num_equal(a: u64, b: u64) -> bool {
    order_of(a, b) == NumOrder::Equal
}

/// Zero equals negative zero, and NaN equals nothing, itself included.
pub proof fn lemma_zero_and_nan(a: u64)
    ensures
        spec_num_equal(0, SIGN_BIT),
        is_nan(a) ==> !spec_num_equal(a, a),
{
    assert(0u64 & 0x7fff_ffff_ffff_ffff == 0) by (bit_vector);
    assert(SIGN_BIT & 0x7fff_ffff_ffff_ffff == 0) by (bit_vector);
    assert(0u64 & 0x7ff0_0000_0000_0000 == 0) by (bit_vector);
    assert(SIGN_BIT & 0x7ff0_0000_0000_0000 == 0) by (bit_vector);
    assert(0u64 & SIGN_BIT == 0) by (bit_vector);
    assert(SIGN_BIT & SIGN_BIT != 0) by (bit_vector);
}

} // verus!

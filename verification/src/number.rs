//! Numbers. A number is an IEEE-754 binary64 value, held as its 64-bit
//! pattern: one sign bit, eleven exponent bits, fifty-two fraction bits.
//!
//! Sign, order and equality are read off the pattern here. Rounded
//! arithmetic and the conversion from decimal text are left to
//! `rustc_apfloat`, which computes them on the same patterns.

use vstd::prelude::*;
use rustc_apfloat::ieee::Double;
use rustc_apfloat::Float;
use crate::tokenizer::{CharClass, run_end, find_run_end};
use crate::text::chars_of;

verus! {

/// The sign bit of a pattern.
pub const SIGN_BIT: u64 = 0x8000_0000_0000_0000;

/// All bits of a pattern but the sign.
pub const MAGNITUDE_MASK: u64 = 0x7fff_ffff_ffff_ffff;

/// The magnitude of an infinity. Every larger magnitude is a NaN.
pub const INFINITY_MAGNITUDE: u64 = 0x7ff0_0000_0000_0000;

/// The pattern without its sign.
pub open spec fn magnitude(bits: u64) -> u64 {
    bits & MAGNITUDE_MASK
}

/// Whether the sign bit of the pattern is set.
pub open spec fn has_sign(bits: u64) -> bool {
    bits & SIGN_BIT != 0
}

/// Whether the pattern is a NaN.
pub open spec fn is_nan_bits(bits: u64) -> bool {
    magnitude(bits) > INFINITY_MAGNITUDE
}

/// The place of a pattern that is no NaN on the number line: patterns of one
/// sign are ordered by magnitude, and the two zeros share a place.
pub open spec fn rank(bits: u64) -> int {
    if has_sign(bits) {
        -(magnitude(bits) as int)
    } else {
        magnitude(bits) as int
    }
}

/// IEEE equality: neither is a NaN and both stand at the same place.
pub open spec fn number_eq(a: u64, b: u64) -> bool {
    !is_nan_bits(a) && !is_nan_bits(b) && rank(a) == rank(b)
}

/// IEEE ordered less-than: neither is a NaN and `a` stands before `b`.
pub open spec fn number_lt(a: u64, b: u64) -> bool {
    !is_nan_bits(a) && !is_nan_bits(b) && rank(a) < rank(b)
}

/// IEEE ordered less-than-or-equal.
pub open spec fn number_le(a: u64, b: u64) -> bool {
    !is_nan_bits(a) && !is_nan_bits(b) && rank(a) <= rank(b)
}

/// The pattern with its sign flipped.
pub open spec fn negated(bits: u64) -> u64 {
    bits ^ SIGN_BIT
}

/// The exponent field of a pattern: the eleven bits below the sign.
pub open spec fn exponent_field(bits: u64) -> u64 {
    magnitude(bits) >> 52
}

/// Whether the pattern is a whole number. An infinity and a NaN are none.
/// A number below one in magnitude is whole only if it is a zero. In a
/// number with exponent field `e` from 1023 on, the lowest `1075 - e` bits
/// are the digits behind the binary point: it is whole if they are clear, or
/// if there are none.
pub open spec fn is_whole_bits(bits: u64) -> bool {
    let e = exponent_field(bits);
    if e == 0x7ff {
        false
    } else if e < 1023 {
        magnitude(bits) == 0
    } else if e >= 1075 {
        true
    } else {
        bits & (((1u64 << (1075 - e) as u64) - 1) as u64) == 0
    }
}

/// Whether the pattern is a whole number.
pub fn is_whole(bits: u64) -> (r: bool)
    ensures
        r == is_whole_bits(bits),
{
    let e: u64 = (bits & MAGNITUDE_MASK) >> 52;
    if e == 0x7ff {
        false
    } else if e < 1023 {
        (bits & MAGNITUDE_MASK) == 0
    } else if e >= 1075 {
        true
    } else {
        let behind: u64 = 1075 - e;
        assert((1u64 << behind) >= 1) by (bit_vector)
            requires
                behind < 64,
        ;
        bits & ((1u64 << behind) - 1) == 0
    }
}

/// Whether the pattern is a NaN.
pub fn is_nan(bits: u64) -> (r: bool)
    ensures
        r == is_nan_bits(bits),
{
    (bits & MAGNITUDE_MASK) > INFINITY_MAGNITUDE
}

/// Negation: the same magnitude under the other sign, for NaNs too.
pub fn negate(bits: u64) -> (r: u64)
    ensures
        r == negated(bits),
{
    bits ^ SIGN_BIT
}

/// `a == b`, as numbers.
pub fn equal(a: u64, b: u64) -> (r: bool)
    ensures
        r == number_eq(a, b),
{
    if is_nan(a) || is_nan(b) {
        return false;
    }
    let ma = a & MAGNITUDE_MASK;
    let mb = b & MAGNITUDE_MASK;
    if (a & SIGN_BIT != 0) == (b & SIGN_BIT != 0) {
        ma == mb
    } else {
        ma == 0 && mb == 0
    }
}

/// `a < b`, as numbers.
pub fn less(a: u64, b: u64) -> (r: bool)
    ensures
        r == number_lt(a, b),
{
    if is_nan(a) || is_nan(b) {
        return false;
    }
    let ma = a & MAGNITUDE_MASK;
    let mb = b & MAGNITUDE_MASK;
    let a_negative = a & SIGN_BIT != 0;
    let b_negative = b & SIGN_BIT != 0;
    if a_negative {
        if b_negative {
            ma > mb
        } else {
            ma != 0 || mb != 0
        }
    } else {
        if b_negative {
            false
        } else {
            ma < mb
        }
    }
}

/// `a <= b`, as numbers.
pub fn less_or_equal(a: u64, b: u64) -> (r: bool)
    ensures
        r == number_le(a, b),
{
    less(a, b) || equal(a, b)
}

/// `a > b`, as numbers.
pub fn greater(a: u64, b: u64) -> (r: bool)
    ensures
        r == number_lt(b, a),
{
    less(b, a)
}

/// `a >= b`, as numbers.
pub fn greater_or_equal(a: u64, b: u64) -> (r: bool)
    ensures
        r == number_le(b, a),
{
    less_or_equal(b, a)
}

/// The rounded sum of two patterns, as `rustc_apfloat` computes it.
pub uninterp spec fn binary64_sum(a: u64, b: u64) -> u64;

/// The rounded difference of two patterns, as `rustc_apfloat` computes it.
pub uninterp spec fn binary64_difference(a: u64, b: u64) -> u64;

/// The rounded product of two patterns, as `rustc_apfloat` computes it.
pub uninterp spec fn binary64_product(a: u64, b: u64) -> u64;

/// The rounded quotient of two patterns, as `rustc_apfloat` computes it.
pub uninterp spec fn binary64_quotient(a: u64, b: u64) -> u64;

/// The pattern nearest to a decimal text, as `rustc_apfloat` reads it, or
/// `None` where it rejects the text.
pub uninterp spec fn binary64_of_decimal(text: Seq<char>) -> Option<u64>;

/// Calls `Add::add` of `rustc_apfloat::ieee::Double` (round to nearest, ties
/// to even) on the two patterns. Nothing is claimed of the sum but that it
/// depends on the two patterns alone.
#[verifier::external_body]
fn add_bits(a: u64, b: u64) -> (r: u64)
    ensures
        r == binary64_sum(a, b),
{
    let x = Double::from_bits(a as u128);
    let y = Double::from_bits(b as u128);
    (x + y).value.to_bits() as u64
}

/// Calls `Sub::sub` of `rustc_apfloat::ieee::Double` (round to nearest, ties
/// to even) on the two patterns. Nothing is claimed of the difference but
/// that it depends on the two patterns alone.
#[verifier::external_body]
fn sub_bits(a: u64, b: u64) -> (r: u64)
    ensures
        r == binary64_difference(a, b),
{
    let x = Double::from_bits(a as u128);
    let y = Double::from_bits(b as u128);
    (x - y).value.to_bits() as u64
}

/// Calls `Mul::mul` of `rustc_apfloat::ieee::Double` (round to nearest, ties
/// to even) on the two patterns. Nothing is claimed of the product but that
/// it depends on the two patterns alone.
#[verifier::external_body]
fn mul_bits(a: u64, b: u64) -> (r: u64)
    ensures
        r == binary64_product(a, b),
{
    let x = Double::from_bits(a as u128);
    let y = Double::from_bits(b as u128);
    (x * y).value.to_bits() as u64
}

/// What a quotient by a zero is: a NaN where the dividend is a NaN or a
/// zero too, and else the infinity whose sign is set exactly if one of the
/// two signs is.
pub open spec fn divided_by_zero(a: u64, b: u64, r: u64) -> bool {
    if is_nan_bits(a) || magnitude(a) == 0 {
        is_nan_bits(r)
    } else {
        magnitude(r) == INFINITY_MAGNITUDE && has_sign(r) == (has_sign(a) != has_sign(b))
    }
}

/// Calls `Div::div` of `rustc_apfloat::ieee::Double` (round to nearest, ties
/// to even) on the two patterns. The quotient depends on the two patterns
/// alone. A zero divisor is no error there: the call returns a NaN for a
/// dividend that is a NaN or a zero, and for every other dividend the
/// infinity with the sign of the dividend, flipped under a negative zero.
/// Nothing else is claimed of the quotient.
#[verifier::external_body]
fn div_bits(a: u64, b: u64) -> (r: u64)
    ensures
        r == binary64_quotient(a, b),
        magnitude(b) == 0 ==> divided_by_zero(a, b, r),
{
    let x = Double::from_bits(a as u128);
    let y = Double::from_bits(b as u128);
    (x / y).value.to_bits() as u64
}

/// Calls `FromStr::from_str` of `rustc_apfloat::ieee::Double` on a decimal
/// literal. Nothing is claimed of the outcome but that it depends on the text
/// alone. The text is no longer than the machine's integers let the
/// conversion count. It multiplies the number of digits by 196 in a `usize`.
/// It keeps exponents and counts of bits in an `i32`: a significand of `n`
/// digits has up to `196 * n / 59 + 1` bits, the power of five beside it
/// some hundreds more at most, and the precision it works at doubles from
/// 128 bits until it is past both, so that under the limit none of them
/// reaches `2^30` and no sum of two of them leaves the `i32`.
#[verifier::external_body]
fn parse_decimal(text: &str) -> (bits: Option<u64>)
    requires
        is_decimal_literal(text@),
        text@.len() <= max_literal_length(),
    ensures
        bits == binary64_of_decimal(text@),
{
    match text.parse::<Double>() {
        Ok(value) => Some(value.to_bits() as u64),
        Err(_) => None,
    }
}

/// The four arithmetic operations.
#[derive(Debug, PartialEq, Eq, Clone, Copy, Structural)]
pub enum Arithmetic {
    Add,
    Subtract,
    Multiply,
    Divide,
}

/// The result of an arithmetic operation on two patterns.
pub open spec fn arithmetic_result(op: Arithmetic, a: u64, b: u64) -> u64 {
    match op {
        Arithmetic::Add => binary64_sum(a, b),
        Arithmetic::Subtract => binary64_difference(a, b),
        Arithmetic::Multiply => binary64_product(a, b),
        Arithmetic::Divide => binary64_quotient(a, b),
    }
}

/// Applies an arithmetic operation to two patterns. A division by a zero
/// gives an infinity or a NaN.
pub fn arithmetic(op: Arithmetic, a: u64, b: u64) -> (r: u64)
    ensures
        r == arithmetic_result(op, a, b),
        op == Arithmetic::Divide && magnitude(b) == 0 ==> divided_by_zero(a, b, r),
{
    match op {
        Arithmetic::Add => add_bits(a, b),
        Arithmetic::Subtract => sub_bits(a, b),
        Arithmetic::Multiply => mul_bits(a, b),
        Arithmetic::Divide => div_bits(a, b),
    }
}

/// The longest literal that the machine's integers let the conversion
/// count: the lesser of `usize::MAX / 196` and `2^28` characters. On a
/// machine with 64-bit addresses that is a text of 256 megabytes.
pub open spec fn max_literal_length() -> usize {
    if usize::MAX / 196 < 0x1000_0000 {
        (usize::MAX / 196) as usize
    } else {
        0x1000_0000
    }
}

/// The longest literal that the machine's integers let the conversion
/// count.
pub fn literal_limit() -> (n: usize)
    ensures
        n == max_literal_length(),
{
    let by_size: usize = usize::MAX / 196;
    if by_size < 0x1000_0000 {
        by_size
    } else {
        0x1000_0000
    }
}

/// Whether a text has the shape of a number literal: one or more digits,
/// then, optionally, a dot and one or more digits.
pub open spec fn is_decimal_literal(text: Seq<char>) -> bool {
    let whole = run_end(text, 0, CharClass::Digit);
    &&& 0 < whole
    &&& whole == text.len() || {
        &&& text[whole] == '.'
        &&& whole + 1 < text.len()
        &&& run_end(text, whole + 1, CharClass::Digit) == text.len()
    }
}

/// The number that a literal stands for: the pattern nearest to it where the
/// text has the shape of a number literal and the machine's integers can
/// count its characters, and `None` for every other text, one that is longer
/// than [`max_literal_length`] among them.
pub open spec fn literal_value(text: Seq<char>) -> Option<u64> {
    if is_decimal_literal(text) && text.len() <= max_literal_length() {
        binary64_of_decimal(text)
    } else {
        None
    }
}

/// Whether `text` has the shape of a number literal.
pub fn has_literal_shape(text: &str) -> (r: bool)
    ensures
        r == is_decimal_literal(text@),
{
    let chars = chars_of(text);
    let n = chars.len();
    let whole = find_run_end(&chars, 0, CharClass::Digit);
    if whole == 0 {
        return false;
    }
    if whole == n {
        return true;
    }
    if chars[whole] != '.' || whole + 1 >= n {
        return false;
    }
    find_run_end(&chars, whole + 1, CharClass::Digit) == n
}

/// The number that a conversion gave, and zero where it gave none.
pub open spec fn or_zero(converted: Option<u64>) -> u64 {
    match converted {
        Some(bits) => bits,
        None => 0,
    }
}

/// The number that a conversion gave, and zero where it gave none.
pub fn value_or_zero(converted: Option<u64>) -> (bits: u64)
    ensures
        bits == or_zero(converted),
{
    match converted {
        Some(bits) => bits,
        None => 0,
    }
}

/// Converts a number literal. A text that has not the shape of a literal
/// gives `None`, and so does one that is longer than the conversion can
/// count, whatever its digits are: where such a text is read as a number,
/// it is read as zero.
pub fn decimal_value(text: &str) -> (bits: Option<u64>)
    ensures
        bits == literal_value(text@),
        !is_decimal_literal(text@) ==> bits is None,
        text@.len() > max_literal_length() ==> bits is None,
        is_decimal_literal(text@) && text@.len() <= max_literal_length() ==> bits
            == binary64_of_decimal(text@),
{
    if text.unicode_len() <= literal_limit() && has_literal_shape(text) {
        parse_decimal(text)
    } else {
        None
    }
}

} // verus!

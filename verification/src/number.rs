//! Numeric values carried through the library.
//!
//! A `Number` stands for an IEEE-754 binary64 value.  The library never does
//! arithmetic on it: it compares values (by the IEEE-754 ordering, computed on
//! the bit pattern) and prints them (with the renderings the value carries).
use vstd::prelude::*;

verus! {

/// An IEEE-754 binary64 value, held as its bit pattern, with the two
/// renderings of it that the library prints: the plain decimal rendering
/// (`text`) and the value times one hundred with one decimal (`percent_text`).
#[derive(Debug)]
pub struct Number {
    pub bits: u64,
    pub text: String,
    pub percent_text: String,
}

/// The exponent field of a binary64 bit pattern.
pub open spec fn exponent_field(b: u64) -> u64 {
    (b >> 52u64) & 0x7ffu64
}

/// The fraction field of a binary64 bit pattern.
pub open spec fn fraction_field(b: u64) -> u64 {
    b & 0xf_ffff_ffff_ffffu64
}

/// The pattern encodes a NaN.
pub open spec fn is_nan_bits(b: u64) -> bool {
    exponent_field(b) == 0x7ffu64 && fraction_field(b) != 0
}

/// The magnitude part of a pattern (sign bit cleared).
pub open spec fn magnitude(b: u64) -> u64 {
    b & 0x7fff_ffff_ffff_ffffu64
}

/// The sign bit of a pattern.
pub open spec fn sign_bit(b: u64) -> u64 {
    b >> 63u64
}

/// For non-NaN patterns, an integer whose order is the order of the values
/// they encode: positive patterns are ordered by magnitude, negative ones by
/// negated magnitude, and both zeros map to zero.
pub open spec fn order_key(b: u64) -> int {
    if sign_bit(b) == 1 {
        -(magnitude(b) as int)
    } else {
        magnitude(b) as int
    }
}

/// `a < b` on the encoded values.
pub open spec fn bits_lt(a: u64, b: u64) -> bool {
    !is_nan_bits(a) && !is_nan_bits(b) && order_key(a) < order_key(b)
}

/// `a <= b` on the encoded values.
pub open spec fn bits_le(a: u64, b: u64) -> bool {
    !is_nan_bits(a) && !is_nan_bits(b) && order_key(a) <= order_key(b)
}

/// `a == b` on the encoded values (NaN equals nothing, the two zeros are equal).
pub open spec fn bits_eq(a: u64, b: u64) -> bool {
    !is_nan_bits(a) && !is_nan_bits(b) && order_key(a) == order_key(b)
}

/// The bit pattern of positive zero.
pub open spec fn zero_bits() -> u64 {
    0u64
}

proof fn lemma_bit_parts(b: u64)
    ensures
        magnitude(b) <= 0x7fff_ffff_ffff_ffffu64,
        sign_bit(b) <= 1,
{
    assert(b & 0x7fff_ffff_ffff_ffffu64 <= 0x7fff_ffff_ffff_ffffu64) by (bit_vector);
    assert(b >> 63u64 <= 1) by (bit_vector);
}

proof fn lemma_zero_bits()
    ensures
        !is_nan_bits(zero_bits()),
        order_key(zero_bits()) == 0,
{
    assert((0u64 >> 52u64) & 0x7ffu64 == 0u64) by (bit_vector);
    assert(0u64 & 0x7fff_ffff_ffff_ffffu64 == 0u64) by (bit_vector);
    assert(0u64 >> 63u64 == 0u64) by (bit_vector);
}

/// Positive zero is no NaN and sits at zero in the order.
pub proof fn lemma_zero_bits_key()
    ensures
        !is_nan_bits(zero_bits()),
        order_key(zero_bits()) == 0,
{
    lemma_zero_bits();
}

fn is_nan_exec(b: u64) -> (r: bool)
    ensures
        r == is_nan_bits(b),
{
    ((b >> 52u64) & 0x7ffu64) == 0x7ffu64 && (b & 0xf_ffff_ffff_ffffu64) != 0
}

fn order_key_exec(b: u64) -> (r: i64)
    ensures
        r as int == order_key(b),
{
    proof {
        lemma_bit_parts(b);
    }
    let mag = b & 0x7fff_ffff_ffff_ffffu64;
    let m = mag as i64;
    if (b >> 63u64) == 1 {
        -m
    } else {
        m
    }
}

impl Number {
    /// Builds a number from its bit pattern and its two renderings.
    pub fn new(bits: u64, text: String, percent_text: String) -> (r: Number)
        ensures
            r.bits == bits,
            r.text == text,
            r.percent_text == percent_text,
    {
        Number { bits, text, percent_text }
    }

    /// A copy of this number.
    pub fn duplicate(&self) -> (r: Number)
        ensures
            r == *self,
    {
        Number { bits: self.bits, text: self.text.clone(), percent_text: self.percent_text.clone() }
    }

    /// `self < other`.
    pub fn lt(&self, other: &Number) -> (r: bool)
        ensures
            r == bits_lt(self.bits, other.bits),
    {
        !is_nan_exec(self.bits) && !is_nan_exec(other.bits) && order_key_exec(self.bits)
            < order_key_exec(other.bits)
    }

    /// `self <= other`.
    pub fn le(&self, other: &Number) -> (r: bool)
        ensures
            r == bits_le(self.bits, other.bits),
    {
        !is_nan_exec(self.bits) && !is_nan_exec(other.bits) && order_key_exec(self.bits)
            <= order_key_exec(other.bits)
    }

    /// `self == other` as values.
    pub fn same_value(&self, other: &Number) -> (r: bool)
        ensures
            r == bits_eq(self.bits, other.bits),
    {
        !is_nan_exec(self.bits) && !is_nan_exec(other.bits) && order_key_exec(self.bits)
            == order_key_exec(other.bits)
    }

    /// `self <= 0`.
    pub fn is_at_most_zero(&self) -> (r: bool)
        ensures
            r == bits_le(self.bits, zero_bits()),
    {
        proof {
            lemma_zero_bits();
        }
        !is_nan_exec(self.bits) && order_key_exec(self.bits) <= 0
    }

    /// `self < 0`.
    pub fn is_below_zero(&self) -> (r: bool)
        ensures
            r == bits_lt(self.bits, zero_bits()),
    {
        proof {
            lemma_zero_bits();
        }
        !is_nan_exec(self.bits) && order_key_exec(self.bits) < 0
    }
}

impl Clone for Number {
    fn clone(&self) -> (r: Number)
        ensures
            r == *self,
    {
        self.duplicate()
    }
}

} // verus!

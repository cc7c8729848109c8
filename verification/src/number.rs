//! Single-precision numbers, carried as their IEEE-754 bit patterns and
//! ordered through an integer key.
//!
//! The key of a pattern is its magnitude, negated when the sign bit is set.
//! Keys order the numbers as their values do: both zeros share the key `0`,
//! the infinities lie beyond every finite number, and the patterns that are
//! no number lie beyond the infinity of their sign.

use vstd::prelude::*;

verus! {

/// The sign bit of a pattern.
pub const SIGN_BIT: u32 = 0x8000_0000;

/// The pattern of positive infinity.
pub const INFINITY_BITS: u32 = 0x7f80_0000;

/// The pattern of negative infinity.
pub const NEG_INFINITY_BITS: u32 = 0xff80_0000;

/// The integer by which a pattern is ordered.
pub open spec fn order_key(bits: u32) -> int {
    if bits >= SIGN_BIT {
        -(bits - SIGN_BIT)
    } else {
        bits as int
    }
}

/// Computes the integer by which a pattern is ordered.
pub fn key_of(bits: u32) -> (k: i64)
    ensures
        k == order_key(bits),
{
    if bits >= SIGN_BIT {
        -((bits - SIGN_BIT) as i64)
    } else {
        bits as i64
    }
}

/// Whether `a` lies strictly below `b`.
pub fn below(a: u32, b: u32) -> (r: bool)
    ensures
        r == (order_key(a) < order_key(b)),
{
    key_of(a) < key_of(b)
}

/// Whether `a` and `b` are the same number.
pub fn same_number(a: u32, b: u32) -> (r: bool)
    ensures
        r == (order_key(a) == order_key(b)),
{
    key_of(a) == key_of(b)
}

/// A number as the loader stores it: the bit pattern of its value and the
/// text that displays it.
#[derive(Debug)]
pub struct Number {
    pub bits: u32,
    pub text: String,
}

/// What a `Number` holds.
pub struct NumberView {
    pub bits: u32,
    pub text: Seq<char>,
}

impl View for Number {
    type V = NumberView;

    open spec fn view(&self) -> NumberView {
        NumberView { bits: self.bits, text: self.text@ }
    }
}

impl Clone for Number {
    fn clone(&self) -> (r: Number)
        ensures
            r@ == self@,
    {
        Number { bits: self.bits, text: self.text.clone() }
    }
}

} // verus!

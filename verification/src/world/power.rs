//! Power levels as the library holds them.
//!
//! A power level is a finite double-precision number, kept as its 64-bit
//! pattern: one sign bit, then eleven exponent bits, then the fraction. Read
//! as an integer, the pattern without its sign grows with the magnitude of
//! the number, so the order of two levels can be decided on integers alone.
//! A pattern whose exponent bits are all set stands for an infinity or for
//! no number at all, and is no power level.

use vstd::prelude::*;

verus! {

/// The pattern that holds the sign bit and nothing else.
pub const SIGN_BIT: u64 = 0x8000_0000_0000_0000;

/// The pattern of positive infinity, the least magnitude that is not finite.
pub const INFINITY_BITS: u64 = 0x7FF0_0000_0000_0000;

/// The pattern without its sign bit.
pub open spec fn magnitude(bits: u64) -> u64 {
    if bits >= SIGN_BIT {
        (bits - SIGN_BIT) as u64
    } else {
        bits
    }
}

/// Whether the pattern stands for a finite number.
pub open spec fn is_finite(bits: u64) -> bool {
    magnitude(bits) < INFINITY_BITS
}

/// Whether the pattern stands for a number, finite or infinite.
pub open spec fn is_number(bits: u64) -> bool {
    magnitude(bits) <= INFINITY_BITS
}

/// The place of a number in the order of all numbers: a number is below
/// another exactly when its rank is smaller, and two numbers compare equal
/// exactly when their ranks are equal. Both zeros have rank zero. The rank
/// of a pattern that stands for no number means nothing.
pub open spec fn rank(bits: u64) -> int {
    if bits >= SIGN_BIT {
        -(magnitude(bits) as int)
    } else {
        magnitude(bits) as int
    }
}

/// Decides whether the pattern stands for a finite number.
pub fn level_is_finite(bits: u64) -> (finite: bool)
    ensures
        finite == is_finite(bits),
{
    if bits >= SIGN_BIT {
        bits - SIGN_BIT < INFINITY_BITS
    } else {
        bits < INFINITY_BITS
    }
}

/// Decides whether the pattern stands for a number, finite or infinite.
pub fn level_is_number(bits: u64) -> (number: bool)
    ensures
        number == is_number(bits),
{
    if bits >= SIGN_BIT {
        bits - SIGN_BIT <= INFINITY_BITS
    } else {
        bits <= INFINITY_BITS
    }
}

/// Computes the rank of a level.
pub fn level_rank(bits: u64) -> (r: i64)
    ensures
        r as int == rank(bits),
{
    if bits >= SIGN_BIT {
        let low: u64 = bits - SIGN_BIT;
        let positive: i64 = low as i64;
        -positive
    } else {
        bits as i64
    }
}

} // verus!

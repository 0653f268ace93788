//! Order on binary32 values given by their bit patterns.
//!
//! A value is carried as the `u32` that `to_bits` gives. Its sign is the top
//! bit, and the remaining 31 bits, read as an integer, grow with the
//! magnitude; a magnitude above that of infinity is a NaN. Comparison
//! follows IEEE-754: a NaN is neither below nor above anything, and the two
//! zeros are equal.

use vstd::prelude::*;

verus! {

/// The bit pattern of positive infinity.
pub const INFINITY_BITS: u32 = 0x7F80_0000;

/// The bit pattern of positive zero.
pub const ZERO_BITS: u32 = 0;

/// The lowest bit pattern with the sign bit set (negative zero).
pub const SIGN_BIT: u32 = 0x8000_0000;

/// The bits without the sign.
pub open spec fn magnitude(bits: u32) -> int {
    if bits >= SIGN_BIT {
        bits - SIGN_BIT
    } else {
        bits as int
    }
}

/// Whether the bits are those of a NaN.
pub open spec fn is_nan(bits: u32) -> bool {
    magnitude(bits) > INFINITY_BITS
}

/// Whether the bits are those of a number that is neither infinite nor a NaN.
pub open spec fn is_finite(bits: u32) -> bool {
    magnitude(bits) < INFINITY_BITS
}

/// An integer that orders the values that are not NaN as IEEE-754 does:
/// the magnitude, negated under a set sign. Both zeros have key 0.
pub open spec fn key(bits: u32) -> int {
    if bits >= SIGN_BIT {
        -magnitude(bits)
    } else {
        magnitude(bits)
    }
}

/// `a > b` on the values.
pub open spec fn greater(a: u32, b: u32) -> bool {
    !is_nan(a) && !is_nan(b) && key(a) > key(b)
}

/// The smaller of two values, a NaN giving way to the other operand. Where
/// the operands compare equal, or both are NaN, the one with the smaller
/// bit pattern is taken, so that the operation does not depend on the order
/// of its operands.
pub open spec fn minimum(a: u32, b: u32) -> u32 {
    if is_nan(a) != is_nan(b) {
        if is_nan(a) {
            b
        } else {
            a
        }
    } else if !is_nan(a) && key(a) != key(b) {
        if key(a) < key(b) {
            a
        } else {
            b
        }
    } else if a <= b {
        a
    } else {
        b
    }
}

/// Whether the bits are those of a NaN.
pub fn bits_is_nan(bits: u32) -> (r: bool)
    ensures
        r == is_nan(bits),
{
    if bits >= SIGN_BIT {
        bits - SIGN_BIT > INFINITY_BITS
    } else {
        bits > INFINITY_BITS
    }
}

/// Whether the bits are those of a number that is neither infinite nor a NaN.
pub fn bits_is_finite(bits: u32) -> (r: bool)
    ensures
        r == is_finite(bits),
{
    if bits >= SIGN_BIT {
        bits - SIGN_BIT < INFINITY_BITS
    } else {
        bits < INFINITY_BITS
    }
}

/// The ordering key of the bits.
fn bits_key(bits: u32) -> (k: i64)
    ensures
        k == key(bits),
{
    if bits >= SIGN_BIT {
        -((bits - SIGN_BIT) as i64)
    } else {
        bits as i64
    }
}

/// `a > b` on the values: false when either is a NaN.
pub fn bits_greater(a: u32, b: u32) -> (r: bool)
    ensures
        r == greater(a, b),
{
    !bits_is_nan(a) && !bits_is_nan(b) && bits_key(a) > bits_key(b)
}

/// The smaller of two values, ignoring a NaN.
pub fn bits_minimum(a: u32, b: u32) -> (r: u32)
    ensures
        r == minimum(a, b),
{
    let a_nan = bits_is_nan(a);
    let b_nan = bits_is_nan(b);
    if a_nan != b_nan {
        if a_nan {
            b
        } else {
            a
        }
    } else if !a_nan && bits_key(a) != bits_key(b) {
        if bits_key(a) < bits_key(b) {
            a
        } else {
            b
        }
    } else if a <= b {
        a
    } else {
        b
    }
}

/// The minimum does not depend on the order of its operands.
pub proof fn minimum_commutative(a: u32, b: u32)
    ensures
        minimum(a, b) == minimum(b, a),
{
}

/// The minimum of three values does not depend on how they are grouped.
pub proof fn minimum_associative(a: u32, b: u32, c: u32)
    ensures
        minimum(minimum(a, b), c) == minimum(a, minimum(b, c)),
{
}

/// The minimum is one of its operands, and is not above either of them.
pub proof fn minimum_is_least(a: u32, b: u32)
    ensures
        minimum(a, b) == a || minimum(a, b) == b,
        !greater(minimum(a, b), a),
        !greater(minimum(a, b), b),
        minimum(a, a) == a,
{
}

} // verus!

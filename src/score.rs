//! Similarity scores carried as IEEE-754 binary32 bit patterns.
//!
//! Scores and embedding components are produced by floating-point code outside
//! this library; inside it they travel as the exact 32-bit patterns of those
//! values, so every comparison made here is exact and proved.
use vstd::prelude::*;

verus! {

/// The bit pattern of one binary32 value.
pub type ScoreBits = u32;

/// Sign bit of a binary32 pattern.
pub const SIGN_BIT: u32 = 0x8000_0000;

/// Pattern of positive infinity; magnitudes above it are NaN.
pub const INFINITY_BITS: u32 = 0x7f80_0000;

/// The sign bit is set (negative numbers, negative zero, negative infinity
/// and NaNs with the sign bit).
pub open spec fn sign_negative(b: u32) -> bool {
    b >= SIGN_BIT
}

/// The pattern with its sign bit cleared.
pub open spec fn magnitude(b: u32) -> int {
    if sign_negative(b) {
        b - SIGN_BIT
    } else {
        b as int
    }
}

/// The pattern encodes a NaN.
pub open spec fn is_nan(b: u32) -> bool {
    magnitude(b) > INFINITY_BITS
}

/// An integer that orders non-NaN patterns as their values are ordered; both
/// zeros map to 0.
pub open spec fn ordinal(b: u32) -> int {
    if sign_negative(b) {
        -magnitude(b)
    } else {
        magnitude(b)
    }
}

/// The value is below zero: not NaN, and ordered below both zeros.
pub open spec fn strictly_negative(b: u32) -> bool {
    !is_nan(b) && ordinal(b) < 0
}

/// `a >= b` as IEEE-754 compares binary32 values: false when either is NaN.
pub open spec fn at_least(a: u32, b: u32) -> bool {
    !is_nan(a) && !is_nan(b) && ordinal(a) >= ordinal(b)
}

/// Whether the value lies strictly below zero, as `x < 0.0` answers: false
/// for both zeros and for every NaN.
pub fn is_strictly_negative(b: ScoreBits) -> (r: bool)
    ensures
        r == strictly_negative(b),
{
    b > SIGN_BIT && b - SIGN_BIT <= INFINITY_BITS
}

/// Whether `a >= b` holds of the two binary32 values.
pub fn score_at_least(a: ScoreBits, b: ScoreBits) -> (r: bool)
    ensures
        r == at_least(a, b),
{
    let ma: u32 = if a >= SIGN_BIT { a - SIGN_BIT } else { a };
    let mb: u32 = if b >= SIGN_BIT { b - SIGN_BIT } else { b };
    if ma > INFINITY_BITS || mb > INFINITY_BITS {
        return false;
    }
    let oa: i64 = if a >= SIGN_BIT { -(ma as i64) } else { ma as i64 };
    let ob: i64 = if b >= SIGN_BIT { -(mb as i64) } else { mb as i64 };
    oa >= ob
}

} // verus!

//! Stepping a binary floating-point value by one unit in the last place,
//! computed on its bit pattern.
use crate::model::{magnitude, sign_set, is_nan, is_finite, INF_BITS, SIGN_BIT, TINY_BITS};
use vstd::prelude::*;

verus! {

/// Bit pattern of negative infinity.
pub const NEG_INF_BITS: u64 = 0xfff0_0000_0000_0000;

/// Every bit but the sign bit.
pub const CLEAR_SIGN_MASK: u64 = 0x7fff_ffff_ffff_ffff;

/// The binary64 pattern with its sign flipped.
pub open spec fn negate(x: u64) -> u64 {
    if x >= SIGN_BIT {
        (x - SIGN_BIT) as u64
    } else {
        (x + SIGN_BIT) as u64
    }
}

/// The least binary64 value above `x`: NaN stays, positive infinity stays,
/// both zeros go to the smallest positive subnormal, and otherwise the pattern
/// moves one step up in value.
pub open spec fn next_up(x: u64) -> u64 {
    if is_nan(x) || x == INF_BITS {
        x
    } else if magnitude(x) == 0 {
        TINY_BITS
    } else if !sign_set(x) {
        (x + 1) as u64
    } else {
        (x - 1) as u64
    }
}

/// The greatest binary64 value below `x`: NaN stays, negative infinity stays,
/// both zeros go to the negative subnormal of least magnitude, and otherwise
/// the pattern moves one step down in value.
pub open spec fn next_down(x: u64) -> u64 {
    if is_nan(x) || x == NEG_INF_BITS {
        x
    } else if magnitude(x) == 0 {
        (SIGN_BIT + TINY_BITS) as u64
    } else if !sign_set(x) {
        (x - 1) as u64
    } else {
        (x + 1) as u64
    }
}

proof fn lemma_clear_sign(x: u64)
    ensures
        x & CLEAR_SIGN_MASK == x % 0x8000_0000_0000_0000,
{
    assert(x & 0x7fff_ffff_ffff_ffff == x % 0x8000_0000_0000_0000) by (bit_vector);
}

/// Returns the bit pattern of the least binary64 value greater than the one
/// whose pattern is `bits` (`next_up`).
pub fn successor_f64(bits: u64) -> (r: u64)
    ensures
        r == next_up(bits),
{
    proof {
        lemma_clear_sign(bits);
    }
    let abs = bits & CLEAR_SIGN_MASK;
    if abs > INF_BITS || bits == INF_BITS {
        return bits;
    }
    if abs == 0 {
        TINY_BITS
    } else if bits == abs {
        bits + 1
    } else {
        bits - 1
    }
}

/// Returns the bit pattern of the greatest binary64 value less than the one
/// whose pattern is `bits` (`next_down`).
pub fn predecessor_f64(bits: u64) -> (r: u64)
    ensures
        r == next_down(bits),
{
    proof {
        lemma_clear_sign(bits);
    }
    let abs = bits & CLEAR_SIGN_MASK;
    if abs > INF_BITS || bits == NEG_INF_BITS {
        return bits;
    }
    if abs == 0 {
        SIGN_BIT + TINY_BITS
    } else if bits == abs {
        bits - 1
    } else {
        bits + 1
    }
}

/// Stepping down and then up returns a finite value to itself; positive zero
/// comes back as negative zero, which is equal in value.
pub proof fn lemma_up_after_down(x: u64)
    requires
        is_finite(x),
    ensures
        x != 0 ==> next_up(next_down(x)) == x,
        x == 0 ==> next_up(next_down(x)) == SIGN_BIT,
{
}

/// Stepping up is stepping down mirrored through zero, for every pattern.
pub proof fn lemma_up_is_mirrored_down(x: u64)
    ensures
        next_up(x) == negate(next_down(negate(x))),
{
}

/// Sign bit of a binary32 bit pattern.
pub const SIGN_BIT_F32: u32 = 0x8000_0000;

/// Bit pattern of binary32 positive infinity.
pub const INF_BITS_F32: u32 = 0x7f80_0000;

/// Bit pattern of binary32 negative infinity.
pub const NEG_INF_BITS_F32: u32 = 0xff80_0000;

/// The binary32 pattern with its sign bit cleared.
pub open spec fn magnitude_f32(x: u32) -> nat {
    (x % 0x8000_0000) as nat
}

/// `next_up` for binary32 patterns.
pub open spec fn next_up_f32(x: u32) -> u32 {
    if magnitude_f32(x) > INF_BITS_F32 || x == INF_BITS_F32 {
        x
    } else if magnitude_f32(x) == 0 {
        1
    } else if x < SIGN_BIT_F32 {
        (x + 1) as u32
    } else {
        (x - 1) as u32
    }
}

/// `next_down` for binary32 patterns.
pub open spec fn next_down_f32(x: u32) -> u32 {
    if magnitude_f32(x) > INF_BITS_F32 || x == NEG_INF_BITS_F32 {
        x
    } else if magnitude_f32(x) == 0 {
        (SIGN_BIT_F32 + 1) as u32
    } else if x < SIGN_BIT_F32 {
        (x - 1) as u32
    } else {
        (x + 1) as u32
    }
}

proof fn lemma_clear_sign_f32(x: u32)
    ensures
        x & 0x7fff_ffff == x % 0x8000_0000,
{
    assert(x & 0x7fff_ffff == x % 0x8000_0000) by (bit_vector);
}

/// Returns the bit pattern of the least binary32 value greater than the one
/// whose pattern is `bits`.
pub fn successor_f32(bits: u32) -> (r: u32)
    ensures
        r == next_up_f32(bits),
{
    proof {
        lemma_clear_sign_f32(bits);
    }
    let abs = bits & 0x7fff_ffff;
    if abs > INF_BITS_F32 || bits == INF_BITS_F32 {
        return bits;
    }
    if abs == 0 {
        1
    } else if bits == abs {
        bits + 1
    } else {
        bits - 1
    }
}

/// Returns the bit pattern of the greatest binary32 value less than the one
/// whose pattern is `bits`.
pub fn predecessor_f32(bits: u32) -> (r: u32)
    ensures
        r == next_down_f32(bits),
{
    proof {
        lemma_clear_sign_f32(bits);
    }
    let abs = bits & 0x7fff_ffff;
    if abs > INF_BITS_F32 || bits == NEG_INF_BITS_F32 {
        return bits;
    }
    if abs == 0 {
        SIGN_BIT_F32 + 1
    } else if bits == abs {
        bits - 1
    } else {
        bits + 1
    }
}

} // verus!

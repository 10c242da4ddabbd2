//! Conversion between a binary64 bit pattern and its sign, unbiased exponent
//! and 53-bit significand.
use crate::model::{
    field_of, is_finite_nonzero, lemma_encode, magnitude, sign_set, significand_of, units, EXP_MASK,
    HIDDEN_BIT, MANTISSA_MASK, SIGN_BIT,
};
use vstd::arithmetic::power2::{
    lemma2_to64, lemma_pow2_adds, lemma_pow2_pos, lemma_pow2_strictly_increases, pow2,
};
use vstd::bits::{lemma_u64_shl_is_mul, lemma_u64_shr_is_div};
use vstd::prelude::*;
use vstd::std_specs::bits::{axiom_u64_leading_zeros, u64_leading_zeros};

verus! {

/// The fields of a bit pattern, read by masks, agree with the arithmetic model.
pub proof fn lemma_fields(bits: u64)
    ensures
        bits & SIGN_BIT == (if bits >= SIGN_BIT {
            SIGN_BIT
        } else {
            0
        }),
        (bits & EXP_MASK) >> 52 == field_of(magnitude(bits)),
        bits & MANTISSA_MASK == magnitude(bits) % 0x10_0000_0000_0000,
        magnitude(bits) < 0x8000_0000_0000_0000,
{
    assert(bits & 0x8000_0000_0000_0000 == (if bits >= 0x8000_0000_0000_0000 {
        0x8000_0000_0000_0000u64
    } else {
        0
    })) by (bit_vector);
    assert((bits & 0x7ff0_0000_0000_0000) >> 52 == (bits % 0x8000_0000_0000_0000)
        / 0x10_0000_0000_0000) by (bit_vector);
    assert(bits & 0x000f_ffff_ffff_ffff == (bits % 0x8000_0000_0000_0000) % 0x10_0000_0000_0000)
        by (bit_vector);
}

/// Splits the finite nonzero binary64 value with pattern `bits` into its sign
/// (the sign bit in place), unbiased exponent `e` and significand `s` in
/// [2^52, 2^53), so that the value's magnitude is `s * 2^(e - 52)`.
/// Subnormal values are renormalized; their exponent goes down to -1074.
pub fn sign_exp_mant_f64(bits: u64) -> (r: (u64, i32, u64))
    requires
        is_finite_nonzero(bits),
    ensures
        r.0 == (if sign_set(bits) {
            SIGN_BIT
        } else {
            0
        }),
        -1074 <= r.1 <= 1023,
        HIDDEN_BIT <= r.2 < 0x20_0000_0000_0000,
        units(magnitude(bits)) * pow2(52) == r.2 * pow2((r.1 + 1074) as nat),
        field_of(magnitude(bits)) != 0 ==> r.1 == field_of(magnitude(bits)) - 1023 && r.2
            == significand_of(magnitude(bits)),
{
    proof {
        lemma_fields(bits);
    }
    let sign = bits & SIGN_BIT;
    let field = (bits & EXP_MASK) >> 52;
    let mant = bits & MANTISSA_MASK;
    let ghost p = magnitude(bits);
    if field != 0 {
        proof {
            assert(field < 2047);
            lemma_pow2_adds((field - 1) as nat, 52);
            let sg = significand_of(p);
            assert(sg * pow2((field - 1) as nat) * pow2(52) == sg * (pow2((field - 1) as nat) * pow2(
                52,
            ))) by (nonlinear_arith);
        }
        (sign, field as i32 - 1023, mant + HIDDEN_BIT)
    } else {
        let lz = mant.leading_zeros();
        proof {
            axiom_u64_leading_zeros(mant);
            let z = u64_leading_zeros(mant);
            assert(mant == p && 0 < mant < 0x10_0000_0000_0000);
            assert(12 <= z <= 63) by {
                let zz = z as u64;
                assert(zz < 12 ==> (mant >> vstd::prelude::sub(63u64, zz)) & 1u64 == 0) by (bit_vector)
                    requires
                        mant < 0x10_0000_0000_0000,
                ;
                assert(zz > 63 ==> mant >> vstd::prelude::sub(64u64, zz) != 0) by (bit_vector)
                    requires
                        mant > 0,
                        zz <= 64,
                ;
            }
            let s = (z - 11) as u64;
            let zz = z as u64;
            assert(0x10_0000_0000_0000 <= mant << s < 0x20_0000_0000_0000) by (bit_vector)
                requires
                    s == zz - 11,
                    12 <= zz <= 63,
                    (mant >> vstd::prelude::sub(63u64, zz)) & 1u64 != 0u64,
                    mant >> vstd::prelude::sub(64u64, zz) == 0,
            ;
            assert(mant * pow2(s as nat) <= u64::MAX) by {
                let n = (64 - z) as u64;
                lemma_u64_shr_is_div(mant, n);
                lemma_pow2_pos(n as nat);
                assert(mant < pow2(n as nat)) by (nonlinear_arith)
                    requires
                        mant as nat / pow2(n as nat) == 0,
                        pow2(n as nat) > 0,
                ;
                lemma_pow2_adds(n as nat, s as nat);
                lemma_pow2_pos(s as nat);
                assert(mant * pow2(s as nat) < pow2(n as nat) * pow2(s as nat)) by (nonlinear_arith)
                    requires
                        mant < pow2(n as nat),
                        pow2(s as nat) > 0,
                ;
                lemma2_to64();
                lemma_pow2_strictly_increases(53, 64);
            }
            lemma_u64_shl_is_mul(mant, s);
            lemma_pow2_adds(s as nat, (63 - z) as nat);
            lemma2_to64();
            assert(units(p) == mant);
            assert(mant * pow2(s as nat) * pow2((63 - z) as nat) == mant * (pow2(s as nat) * pow2(
                (63 - z) as nat,
            ))) by (nonlinear_arith);
        }
        let sig = mant << (lz - 11);
        (sign, -1011 - lz as i32, sig)
    }
}

/// The pattern with sign `sign` (the sign bit in place or zero), biased
/// exponent field `exp + 1023` (zero when `exp <= -1023`) and the low 52 bits
/// of the significand `mant`. No rounding takes place.
pub fn from_sign_exp_mant_f64(sign: u64, exp: i32, mant: u64) -> (r: u64)
    requires
        sign == 0 || sign == SIGN_BIT,
        exp <= 1024,
        HIDDEN_BIT <= mant < 0x20_0000_0000_0000,
    ensures
        r == sign + (if exp <= -1023 {
            0
        } else {
            exp + 1023
        }) * 0x10_0000_0000_0000 + (mant - HIDDEN_BIT),
        -1022 <= exp <= 1023 ==> sign_set(r) == (sign != 0) && units(magnitude(r)) * pow2(52)
            == mant * pow2((exp + 1074) as nat),
{
    let field: u64 = if exp <= -1023 {
        0
    } else {
        (exp + 1023) as u64
    };
    let low = mant & MANTISSA_MASK;
    proof {
        assert(low == mant - HIDDEN_BIT) by (bit_vector)
            requires
                low == mant & 0x000f_ffff_ffff_ffff,
                0x10_0000_0000_0000 <= mant < 0x20_0000_0000_0000,
        ;
        assert(field << 52 == field * 0x10_0000_0000_0000) by (bit_vector)
            requires
                field <= 2047,
        ;
    }
    let r = sign + (field << 52) + low;
    proof {
        if -1022 <= exp <= 1023 {
            let k = (exp + 1022) as nat;
            let q = k * 0x10_0000_0000_0000 + mant;
            assert(q == field * 0x10_0000_0000_0000 + low);
            lemma_encode(k, mant as nat);
            assert(magnitude(r) == q);
            lemma_pow2_adds(k, 52);
            assert(mant * pow2(k) * pow2(52) == mant * (pow2(k) * pow2(52))) by (nonlinear_arith);
        }
    }
    r
}

} // verus!

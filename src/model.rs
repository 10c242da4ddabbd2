//! Mathematical model of IEEE-754 binary64 bit patterns.
//!
//! A finite binary64 magnitude is an integer multiple of 2^-1074, the smallest
//! subnormal. `units` gives that multiple for a sign-free bit pattern, and the
//! exact product of two such magnitudes is an integer multiple of 2^-2148.
use vstd::arithmetic::power2::*;
use vstd::prelude::*;

verus! {

/// The sign bit of a binary64 bit pattern.
pub const SIGN_BIT: u64 = 0x8000_0000_0000_0000;

/// The stored (fraction) bits of a binary64 bit pattern.
pub const MANTISSA_MASK: u64 = 0x000f_ffff_ffff_ffff;

/// The biased exponent field of a binary64 bit pattern.
pub const EXP_MASK: u64 = 0x7ff0_0000_0000_0000;

/// Bit pattern of positive infinity.
pub const INF_BITS: u64 = 0x7ff0_0000_0000_0000;

/// Bit pattern of the largest finite binary64 value.
pub const MAX_BITS: u64 = 0x7fef_ffff_ffff_ffff;

/// Bit pattern of the smallest positive subnormal value.
pub const TINY_BITS: u64 = 0x1;

/// 2^52, the weight of the implicit leading significand bit.
pub const HIDDEN_BIT: u64 = 0x0010_0000_0000_0000;

/// The pattern with its sign bit cleared.
pub open spec fn magnitude(x: u64) -> nat {
    (x % 0x8000_0000_0000_0000) as nat
}

/// Whether the sign bit is set.
pub open spec fn sign_set(x: u64) -> bool {
    x >= SIGN_BIT
}

pub open spec fn is_nan(x: u64) -> bool {
    magnitude(x) > INF_BITS
}

pub open spec fn is_finite(x: u64) -> bool {
    magnitude(x) < INF_BITS
}

pub open spec fn is_zero(x: u64) -> bool {
    magnitude(x) == 0
}

/// A finite value other than zero.
pub open spec fn is_finite_nonzero(x: u64) -> bool {
    is_finite(x) && !is_zero(x)
}

/// Biased exponent field of a sign-free pattern.
pub open spec fn field_of(p: nat) -> nat {
    p / 0x10_0000_0000_0000
}

/// Scale exponent of a sign-free pattern: its magnitude is `significand_of(p) * 2^scale_of(p)` units.
pub open spec fn scale_of(p: nat) -> nat {
    if field_of(p) == 0 {
        0
    } else {
        (field_of(p) - 1) as nat
    }
}

/// Significand of a sign-free pattern, the implicit bit included for normal numbers.
pub open spec fn significand_of(p: nat) -> nat {
    if field_of(p) == 0 {
        p % 0x10_0000_0000_0000
    } else {
        p % 0x10_0000_0000_0000 + 0x10_0000_0000_0000
    }
}

/// Magnitude of the finite (or infinite) sign-free pattern `p`, in units of 2^-1074.
/// For `p == INF_BITS` this is 2^1024, the value just past the largest finite one.
pub open spec fn units(p: nat) -> nat {
    significand_of(p) * pow2(scale_of(p))
}

/// Magnitude of `p` in units of 2^-2148, the grid on which exact products of
/// two binary64 values lie.
pub open spec fn scaled(p: nat) -> nat {
    units(p) * pow2(1074)
}

/// Twice the midpoint between the consecutive sign-free patterns `p` and `p + 1`,
/// in units of 2^-2148.
pub open spec fn twice_midpoint(p: nat) -> nat {
    scaled(p) + scaled(p + 1)
}

/// Exact magnitude of the product of two finite values, in units of 2^-2148.
pub open spec fn exact_product(a: u64, b: u64) -> nat {
    units(magnitude(a)) * units(magnitude(b))
}

/// Whether the exact product of `a` and `b` is negative.
pub open spec fn product_negative(a: u64, b: u64) -> bool {
    sign_set(a) != sign_set(b)
}

/// `p` is the greatest finite sign-free pattern whose value does not exceed `m`.
pub open spec fn is_floor(m: nat, p: nat) -> bool {
    &&& p < INF_BITS
    &&& scaled(p) <= m
    &&& (p + 1 == INF_BITS || m < scaled(p + 1))
}

/// `p` is the least sign-free pattern, infinity included, whose value is not
/// below `m`, where values beyond the largest finite one go to infinity.
pub open spec fn is_ceiling(m: nat, p: nat) -> bool {
    &&& 1 <= p <= INF_BITS
    &&& scaled((p - 1) as nat) < m
    &&& (p == INF_BITS || m <= scaled(p))
}

/// `r` is the exact value `m` (negated when `negative`) rounded toward negative
/// infinity: the greatest binary64 value, or negative infinity, not above it.
pub open spec fn is_round_down(m: nat, negative: bool, r: u64) -> bool {
    if negative {
        sign_set(r) && is_ceiling(m, magnitude(r))
    } else {
        !sign_set(r) && is_floor(m, magnitude(r))
    }
}

/// `p` is `m` rounded to the nearest sign-free pattern, ties to the even pattern,
/// with infinity after the largest finite value, as IEEE-754 rounds.
pub open spec fn is_nearest_magnitude(m: nat, p: nat) -> bool {
    &&& p <= INF_BITS
    &&& (p == 0 || twice_midpoint((p - 1) as nat) < 2 * m || (twice_midpoint((p - 1) as nat)
        == 2 * m && p % 2 == 0))
    &&& (p == INF_BITS || 2 * m < twice_midpoint(p) || (2 * m == twice_midpoint(p) && p % 2
        == 0))
}

/// `r` is the exact value `m` (negated when `negative`) rounded to nearest, ties to even.
pub open spec fn is_nearest(m: nat, negative: bool, r: u64) -> bool {
    sign_set(r) == negative && is_nearest_magnitude(m, magnitude(r))
}

/// Any sign-free pattern below infinity is `scale * 2^52 + significand`, and
/// the pattern after it has the next significand at the same scale.
pub proof fn lemma_next_pattern(p: nat)
    requires
        p < INF_BITS,
    ensures
        p == scale_of(p) * 0x10_0000_0000_0000 + significand_of(p),
        significand_of(p) < 0x20_0000_0000_0000,
        field_of(p) != 0 ==> significand_of(p) >= 0x10_0000_0000_0000,
        units(p + 1) == (significand_of(p) + 1) * pow2(scale_of(p)),
{
    let c: nat = 0x10_0000_0000_0000;
    let e = field_of(p);
    let f = p % c;
    assert(p == e * c + f);
    let k = scale_of(p);
    if f + 1 < c {
        assert((p + 1) / c == e && (p + 1) % c == f + 1) by (nonlinear_arith)
            requires
                p == e * c + f,
                f + 1 < c,
                c == 0x10_0000_0000_0000,
        ;
    } else {
        assert((p + 1) / c == e + 1 && (p + 1) % c == 0) by (nonlinear_arith)
            requires
                p == e * c + f,
                f + 1 == c,
                c == 0x10_0000_0000_0000,
        ;
        if e == 0 {
            lemma2_to64();
        } else {
            lemma_pow2_unfold(e);
            assert(units(p + 1) == c * pow2(e));
            assert(c * pow2(e) == c * (2 * pow2(k))) by {
                assert(pow2(e) == 2 * pow2((e - 1) as nat));
            }
            assert(c * (2 * pow2(k)) == 2 * c * pow2(k)) by (nonlinear_arith);
        }
    }
}

/// The pattern `scale * 2^52 + significand` encodes `significand * 2^scale` units,
/// for a 53-bit significand, or a shorter one at scale zero (a subnormal).
pub proof fn lemma_encode(k: nat, r: nat)
    requires
        r < 0x20_0000_0000_0000,
        r >= 0x10_0000_0000_0000 || k == 0,
    ensures
        scale_of(k * 0x10_0000_0000_0000 + r) == k,
        significand_of(k * 0x10_0000_0000_0000 + r) == r,
        units(k * 0x10_0000_0000_0000 + r) == r * pow2(k),
{
    let c: nat = 0x10_0000_0000_0000;
    let p = k * c + r;
    if r >= c {
        assert(p / c == k + 1 && p % c == r - c) by (nonlinear_arith)
            requires
                p == k * c + r,
                c <= r < 2 * c,
                c == 0x10_0000_0000_0000,
        ;
    } else {
        assert(p / c == 0 && p % c == r);
        lemma2_to64();
    }
}

/// Consecutive sign-free patterns have strictly increasing values.
pub proof fn lemma_units_step(p: nat)
    requires
        p < INF_BITS,
    ensures
        units(p) < units(p + 1),
{
    lemma_next_pattern(p);
    lemma_pow2_pos(scale_of(p));
    let s = significand_of(p);
    let w = pow2(scale_of(p));
    assert(s * w < (s + 1) * w) by (nonlinear_arith)
        requires
            w > 0,
    ;
}

/// Values of sign-free patterns increase strictly with the pattern.
pub proof fn lemma_units_strictly_increasing(p: nat, q: nat)
    requires
        p < q <= INF_BITS,
    ensures
        units(p) < units(q),
    decreases q - p,
{
    lemma_units_step(p);
    if p + 1 < q {
        lemma_units_strictly_increasing(p + 1, q);
    }
}

/// Scaling to the product grid keeps the order of values.
pub proof fn lemma_scaled_strictly_increasing(p: nat, q: nat)
    requires
        p < q <= INF_BITS,
    ensures
        scaled(p) < scaled(q),
{
    lemma_units_strictly_increasing(p, q);
    lemma_pow2_pos(1074);
    let w = pow2(1074);
    let x = units(p);
    let y = units(q);
    assert(x * w < y * w) by (nonlinear_arith)
        requires
            x < y,
            w > 0,
    ;
}

/// Values of sign-free patterns are ordered as the patterns are.
pub proof fn lemma_scaled_order(p: nat, q: nat)
    requires
        p <= INF_BITS,
        q <= INF_BITS,
    ensures
        p < q ==> scaled(p) < scaled(q),
        scaled(p) <= scaled(q) ==> p <= q,
{
    if p < q {
        lemma_scaled_strictly_increasing(p, q);
    }
    if q < p {
        lemma_scaled_strictly_increasing(q, p);
    }
}

/// `r` is the exact value `m` (negated when `negative`) rounded toward positive
/// infinity: the least binary64 value, or positive infinity, not below it.
pub open spec fn is_round_up(m: nat, negative: bool, r: u64) -> bool {
    if negative {
        sign_set(r) && is_floor(m, magnitude(r))
    } else {
        !sign_set(r) && is_ceiling(m, magnitude(r))
    }
}

/// The value of a finite or infinite pattern, in units of 2^-2148, with its sign.
pub open spec fn signed_value(x: u64) -> int {
    if sign_set(x) {
        -scaled(magnitude(x))
    } else {
        scaled(magnitude(x)) as int
    }
}

/// The exact value `m`, negated when `negative`.
pub open spec fn signed_exact(m: nat, negative: bool) -> int {
    if negative {
        -m
    } else {
        m as int
    }
}

} // verus!

//! Multiplication rounded toward negative infinity: the exact product of the
//! significands decides whether the round-to-nearest product is already the
//! downward one or lies one step above it.
use crate::codec::sign_exp_mant_f64;
use crate::model::{
    exact_product, is_ceiling, is_finite_nonzero, is_floor, is_nearest, is_nearest_magnitude,
    is_round_down, is_round_up, lemma_encode, lemma_next_pattern, lemma_scaled_strictly_increasing,
    magnitude, product_negative, scaled, sign_set, twice_midpoint, units, INF_BITS, MAX_BITS,
    SIGN_BIT,
};
use crate::successor::{negate, next_down, predecessor_f64, CLEAR_SIGN_MASK, NEG_INF_BITS};
use vstd::arithmetic::power2::{
    lemma2_to64, lemma_pow2_adds, lemma_pow2_pos, lemma_pow2_strictly_increases, lemma_pow2_unfold,
    pow2,
};
use vstd::prelude::*;

verus! {

/// Values of sign-free patterns do not decrease with the pattern.
proof fn lemma_scaled_le(p: nat, q: nat)
    requires
        p <= q <= INF_BITS,
    ensures
        scaled(p) <= scaled(q),
{
    if p < q {
        lemma_scaled_strictly_increasing(p, q);
    }
}

/// `pow2` is monotone.
proof fn lemma_pow2_le(a: nat, b: nat)
    requires
        a <= b,
    ensures
        pow2(a) <= pow2(b),
{
    if a < b {
        lemma_pow2_strictly_increases(a, b);
    }
}

/// The pattern `k * 2^52 + r` and the one after it, on the product grid.
proof fn lemma_candidate(k: nat, r: nat)
    requires
        r < 0x20_0000_0000_0000,
        r >= 0x10_0000_0000_0000 || k == 0,
        k <= 2045,
    ensures
        k * 0x10_0000_0000_0000 + r < INF_BITS,
        scaled(k * 0x10_0000_0000_0000 + r) == r * pow2(k + 1074),
        scaled(k * 0x10_0000_0000_0000 + r + 1) == (r + 1) * pow2(k + 1074),
{
    let p = k * 0x10_0000_0000_0000 + r;
    lemma_encode(k, r);
    lemma_next_pattern(p);
    lemma_pow2_adds(k, 1074);
    assert(r * pow2(k) * pow2(1074) == r * (pow2(k) * pow2(1074))) by (nonlinear_arith);
    assert((r + 1) * pow2(k) * pow2(1074) == (r + 1) * (pow2(k) * pow2(1074)))
        by (nonlinear_arith);
}

/// Where the exact value `m` lies between two candidates `s0 < s1`, read off
/// from the bits of the wide product that fall below the last kept place.
proof fn lemma_compare(m: int, w: int, r: int, tr: int, g: int, big_d: int, c: int, s0: int, s1: int)
    requires
        m * c == w * g,
        w == r * big_d + tr,
        0 <= tr < big_d,
        s0 * c == r * g * big_d,
        s1 * c == (r + 1) * g * big_d,
        c > 0,
        g > 0,
    ensures
        s0 <= m,
        m < s1,
        (tr == 0) == (m == s0),
        (2 * tr < big_d) == (2 * m < s0 + s1),
        (2 * tr == big_d) == (2 * m == s0 + s1),
{
    assert((m - s0) * c == tr * g) by (nonlinear_arith)
        requires
            m * c == w * g,
            w == r * big_d + tr,
            s0 * c == r * g * big_d,
    ;
    assert((s1 - m) * c == (big_d - tr) * g) by (nonlinear_arith)
        requires
            m * c == w * g,
            w == r * big_d + tr,
            s1 * c == (r + 1) * g * big_d,
    ;
    assert((2 * m - s0 - s1) * c == (2 * tr - big_d) * g) by (nonlinear_arith)
        requires
            m * c == w * g,
            w == r * big_d + tr,
            s0 * c == r * g * big_d,
            s1 * c == (r + 1) * g * big_d,
    ;
    lemma_same_sign(m - s0, tr, c, g);
    lemma_same_sign(s1 - m, big_d - tr, c, g);
    lemma_same_sign(2 * m - s0 - s1, 2 * tr - big_d, c, g);
}

proof fn lemma_same_sign(x: int, y: int, c: int, g: int)
    requires
        x * c == y * g,
        c > 0,
        g > 0,
    ensures
        (x < 0) == (y < 0),
        (x == 0) == (y == 0),
{
    assert((x < 0) == (y < 0) && (x == 0) == (y == 0)) by (nonlinear_arith)
        requires
            x * c == y * g,
            c > 0,
            g > 0,
    ;
}

/// No value at or beyond 2^1024 rounds to nearest to a finite value.
proof fn lemma_no_finite_nearest_beyond_range(m: nat, p: nat)
    requires
        scaled(INF_BITS as nat) <= m,
        is_nearest_magnitude(m, p),
    ensures
        p == INF_BITS,
{
    if p < INF_BITS {
        lemma_scaled_le(p, MAX_BITS as nat);
        lemma_scaled_le(p + 1, INF_BITS as nat);
        lemma_scaled_strictly_increasing(MAX_BITS as nat, INF_BITS as nat);
        assert(twice_midpoint(p) < 2 * m);
    }
}

/// The value of a pattern with scale 2046 or more is not below 2^1024.
proof fn lemma_beyond_range(k: nat, r: nat)
    requires
        r >= 0x10_0000_0000_0000,
        k >= 2046,
    ensures
        scaled(INF_BITS as nat) <= r * pow2(k + 1074),
{
    lemma_encode(2046, 0x10_0000_0000_0000);
    assert(2046 * 0x10_0000_0000_0000 + 0x10_0000_0000_0000 == INF_BITS);
    lemma_pow2_adds(2046, 1074);
    lemma_pow2_le(2046 + 1074, k + 1074);
    let a = pow2(2046 + 1074);
    let b = pow2(k + 1074);
    assert(0x10_0000_0000_0000 * pow2(2046) * pow2(1074) == 0x10_0000_0000_0000 * a)
        by (nonlinear_arith)
        requires
            a == pow2(2046) * pow2(1074),
    ;
    assert(0x10_0000_0000_0000 * a <= r * b) by (nonlinear_arith)
        requires
            a <= b,
            0x10_0000_0000_0000 <= r,
    ;
}

/// Given the floor candidate `p0` of the exact value `m` and which side of the
/// midpoint `m` lies on, the round-to-nearest result is pinned down.
proof fn lemma_nearest_position(m: nat, p0: nat, p: nat)
    requires
        p0 < INF_BITS,
        scaled(p0) <= m < scaled(p0 + 1),
        is_nearest_magnitude(m, p),
        p < INF_BITS,
    ensures
        p == p0 || p == p0 + 1,
        m == scaled(p0) ==> p == p0,
        2 * m < twice_midpoint(p0) ==> p == p0,
        2 * m > twice_midpoint(p0) ==> p == p0 + 1,
        2 * m == twice_midpoint(p0) ==> (p == p0 <==> p0 % 2 == 0),
{
    if p < p0 {
        lemma_scaled_le(p, (p0 - 1) as nat);
        lemma_scaled_le(p + 1, p0);
        lemma_scaled_strictly_increasing((p0 - 1) as nat, p0);
        assert(twice_midpoint(p) < 2 * m);
    }
    if p > p0 + 1 {
        lemma_scaled_le(p0 + 1, (p - 1) as nat);
        lemma_scaled_le(p0 + 2, p);
        lemma_scaled_strictly_increasing(p0 + 1, p0 + 2);
        assert(twice_midpoint((p - 1) as nat) > 2 * m);
    }
    if m == scaled(p0) {
        lemma_scaled_strictly_increasing(p0, p0 + 1);
    }
}

/// Powers of two that the bounds on significand products use.
proof fn lemma_pow2_values()
    ensures
        pow2(52) == 0x10_0000_0000_0000,
        pow2(53) == 0x20_0000_0000_0000,
        pow2(104) == 0x100_0000_0000_0000_0000_0000_0000,
        pow2(105) == 0x200_0000_0000_0000_0000_0000_0000,
        pow2(106) == 0x400_0000_0000_0000_0000_0000_0000,
{
    lemma2_to64();
    lemma_pow2_adds(32, 20);
    lemma_pow2_adds(32, 21);
    assert(pow2(52) == 0x10_0000_0000_0000);
    assert(pow2(53) == 0x20_0000_0000_0000);
    lemma_pow2_adds(52, 52);
    lemma_pow2_adds(52, 53);
    lemma_pow2_adds(53, 53);
    assert(0x10_0000_0000_0000 * 0x10_0000_0000_0000 == 0x100_0000_0000_0000_0000_0000_0000nat)
        by (nonlinear_arith);
    assert(0x10_0000_0000_0000 * 0x20_0000_0000_0000 == 0x200_0000_0000_0000_0000_0000_0000nat)
        by (nonlinear_arith);
    assert(0x20_0000_0000_0000 * 0x20_0000_0000_0000 == 0x400_0000_0000_0000_0000_0000_0000nat)
        by (nonlinear_arith);
}

/// A nearest result of infinity means the exact value lies beyond the largest
/// finite one.
proof fn lemma_nearest_infinite(m: nat)
    requires
        is_nearest_magnitude(m, INF_BITS as nat),
    ensures
        scaled(MAX_BITS as nat) < m,
{
    lemma_scaled_strictly_increasing(MAX_BITS as nat, INF_BITS as nat);
}

/// The correction step is right: `m` is an exact product (on the grid of
/// 2^-2148) equal to `wide * 2^t` on the grid of 2^-2252, and `d` low bits of
/// `wide` fall below the last place of the result.
proof fn lemma_correction(m: nat, wide: nat, t: nat, d: nat, nearest: u64, negative: bool)
    requires
        m * pow2(104) == wide * pow2(t),
        wide > 0,
        d >= 1,
        t + d >= 1178,
        wide < 0x20_0000_0000_0000 * pow2(d),
        t + d == 1178 || wide >= 0x10_0000_0000_0000 * pow2(d),
        is_nearest(m, negative, nearest),
        magnitude(nearest) != INF_BITS,
    ensures
        ({
            let trunc = wide % pow2(d);
            let lower = 2 * trunc < pow2(d) || (2 * trunc == pow2(d) && (wide / pow2(d)) % 2
                == 0);
            &&& trunc == 0 ==> is_round_down(m, negative, nearest)
            &&& trunc != 0 && lower ==> is_round_down(
                m,
                negative,
                if negative {
                    next_down(nearest)
                } else {
                    nearest
                },
            )
            &&& trunc != 0 && !lower ==> is_round_down(
                m,
                negative,
                if negative {
                    nearest
                } else {
                    next_down(nearest)
                },
            )
        }),
{
    let big_d = pow2(d);
    let g = pow2(t);
    let c = pow2(104);
    lemma_pow2_pos(d);
    lemma_pow2_pos(t);
    lemma_pow2_pos(104);
    let r = wide / big_d;
    let tr = wide % big_d;
    vstd::arithmetic::div_mod::lemma_fundamental_div_mod(wide as int, big_d as int);
    vstd::arithmetic::div_mod::lemma_mod_bound(wide as int, big_d as int);
    assert(r < 0x20_0000_0000_0000) by (nonlinear_arith)
        requires
            wide == big_d * r + tr,
            tr >= 0,
            wide < 0x20_0000_0000_0000 * big_d,
    ;
    assert(t + d == 1178 || r >= 0x10_0000_0000_0000) by {
        if t + d != 1178 {
            assert(r >= 0x10_0000_0000_0000) by (nonlinear_arith)
                requires
                    wide == big_d * r + tr,
                    tr < big_d,
                    wide >= 0x10_0000_0000_0000 * big_d,
            ;
        }
    }
    let k = (t + d - 1178) as nat;
    let p = magnitude(nearest);
    lemma_pow2_adds(k + 1074, 104);
    lemma_pow2_adds(t, d);
    assert(k + 1074 + 104 == t + d);
    let x = pow2(k + 1074);
    assert(x * c == g * big_d);
    assert(m * c >= r * x * c) by (nonlinear_arith)
        requires
            m * c == wide * g,
            wide == big_d * r + tr,
            tr >= 0,
            x * c == g * big_d,
            g > 0,
    ;
    if k >= 2046 {
        lemma_beyond_range(k, r);
        assert(m >= r * x) by (nonlinear_arith)
            requires
                m * c >= r * x * c,
                c > 0,
        ;
        lemma_no_finite_nearest_beyond_range(m, p);
    } else {
        let p0 = k * 0x10_0000_0000_0000 + r;
        lemma_candidate(k, r);
        let s0 = scaled(p0);
        let s1 = scaled(p0 + 1);
        assert(s0 * c == r * g * big_d) by (nonlinear_arith)
            requires
                s0 == r * x,
                x * c == g * big_d,
        ;
        assert(s1 * c == (r + 1) * g * big_d) by (nonlinear_arith)
            requires
                s1 == (r + 1) * x,
                x * c == g * big_d,
        ;
        lemma_compare(m as int, wide as int, r as int, tr as int, g as int, big_d as int, c as int, s0 as int, s1 as int);
        lemma_nearest_position(m, p0, p);
        assert(p0 % 2 == r % 2) by (nonlinear_arith)
            requires
                p0 == k * 0x10_0000_0000_0000 + r,
        ;
        if tr == 0 {
            assert(r >= 1) by (nonlinear_arith)
                requires
                    wide == big_d * r + tr,
                    tr == 0,
                    wide > 0,
            ;
            if negative {
                lemma_scaled_strictly_increasing((p0 - 1) as nat, p0);
                assert(is_ceiling(m, p));
            } else {
                assert(is_floor(m, p));
            }
        }
    }
}

/// The exact product of two significands, as the high and low 64-bit words
/// of its 128-bit value.
pub fn multiply_mantissas(a: u64, b: u64) -> (r: (u64, u64))
    requires
        a < 0x20_0000_0000_0000,
        b < 0x20_0000_0000_0000,
    ensures
        r.0 * 0x1_0000_0000_0000_0000 + r.1 == a * b,
{
    assert(a * b < 0x400_0000_0000_0000_0000_0000_0000) by (nonlinear_arith)
        requires
            a < 0x20_0000_0000_0000,
            b < 0x20_0000_0000_0000,
    ;
    let wide: u128 = a as u128 * b as u128;
    let hi = (wide / 0x1_0000_0000_0000_0000u128) as u64;
    let lo = (wide % 0x1_0000_0000_0000_0000u128) as u64;
    (hi, lo)
}

proof fn lemma_u128_shift_is_pow2(n: u128)
    requires
        n < 128,
    ensures
        (1u128 << n) as nat == pow2(n as nat),
    decreases n,
{
    if n == 0 {
        assert(1u128 << 0u128 == 1) by (bit_vector);
        lemma2_to64();
    } else {
        lemma_u128_shift_is_pow2((n - 1) as u128);
        assert(1u128 << n == 2 * (1u128 << ((n - 1) as u128))) by (bit_vector)
            requires
                0 < n < 128,
        ;
        lemma_pow2_unfold(n as nat);
    }
}

/// Multiplies the binary64 values with patterns `a` and `b`, rounding toward
/// negative infinity. `nearest` is the pattern of their product as ordinary
/// (round to nearest, ties to even) multiplication gives it.
///
/// When an operand is zero, infinite or NaN, the ordinary product is already
/// the downward one and `nearest` is returned. Otherwise the result is the
/// greatest binary64 value (or negative infinity) not above the exact product,
/// provided `nearest` is that product rounded to nearest.
pub fn multiply_round_down(a: u64, b: u64, nearest: u64) -> (r: u64)
    ensures
        !(is_finite_nonzero(a) && is_finite_nonzero(b)) ==> r == nearest,
        is_finite_nonzero(a) && is_finite_nonzero(b) && is_nearest(
            exact_product(a, b),
            product_negative(a, b),
            nearest,
        ) ==> is_round_down(exact_product(a, b), product_negative(a, b), r),
        is_finite_nonzero(a) && is_finite_nonzero(b) ==> if nearest == INF_BITS {
            r == MAX_BITS
        } else {
            r == nearest || r == next_down(nearest)
        },
{
    let a_abs = a & CLEAR_SIGN_MASK;
    let b_abs = b & CLEAR_SIGN_MASK;
    proof {
        assert(a & 0x7fff_ffff_ffff_ffff == a % 0x8000_0000_0000_0000) by (bit_vector);
        assert(b & 0x7fff_ffff_ffff_ffff == b % 0x8000_0000_0000_0000) by (bit_vector);
    }
    if a_abs == 0 || a_abs >= INF_BITS || b_abs == 0 || b_abs >= INF_BITS {
        return nearest;
    }
    let ghost m = exact_product(a, b);
    let ghost negative_product = product_negative(a, b);
    if nearest == INF_BITS {
        proof {
            if is_nearest(m, negative_product, nearest) {
                lemma_nearest_infinite(m);
            }
        }
        return MAX_BITS;
    }
    if nearest == NEG_INF_BITS {
        proof {
            if is_nearest(m, negative_product, nearest) {
                lemma_nearest_infinite(m);
            }
        }
        return nearest;
    }
    let (a_sign, a_exp, a_sig) = sign_exp_mant_f64(a);
    let (b_sign, b_exp, b_sig) = sign_exp_mant_f64(b);
    let negative = a_sign != b_sign;
    let (hi, lo) = multiply_mantissas(a_sig, b_sig);
    proof {
        lemma_pow2_values();
        assert(a_sig * b_sig >= 0x100_0000_0000_0000_0000_0000_0000) by (nonlinear_arith)
            requires
                a_sig >= 0x10_0000_0000_0000,
                b_sig >= 0x10_0000_0000_0000,
        ;
        assert(a_sig * b_sig < 0x400_0000_0000_0000_0000_0000_0000) by (nonlinear_arith)
            requires
                a_sig < 0x20_0000_0000_0000,
                b_sig < 0x20_0000_0000_0000,
        ;
    }
    // Both significands carry 53 bits, so the high word holds the top 41 or
    // 42 bits of the product and is never zero.
    let lz = hi.leading_zeros();
    proof {
        vstd::std_specs::bits::axiom_u64_leading_zeros(hi);
        let z = vstd::std_specs::bits::u64_leading_zeros(hi) as u64;
        assert(z == 22 || z == 23) by (bit_vector)
            requires
                0x100_0000_0000 <= hi < 0x400_0000_0000,
                z <= 64,
                z < 64 ==> (hi >> vstd::prelude::sub(63u64, z)) & 1u64 != 0u64,
                hi >> vstd::prelude::sub(64u64, z) == 0,
        ;
        assert((z == 22) == (hi >= 0x200_0000_0000)) by (bit_vector)
            requires
                0x100_0000_0000 <= hi < 0x400_0000_0000,
                z == 22 || z == 23,
                (hi >> vstd::prelude::sub(63u64, z)) & 1u64 != 0u64,
                hi >> vstd::prelude::sub(64u64, z) == 0,
        ;
    }
    // Significant bits in the exact product.
    let width: i32 = 128 - lz as i32;
    // The product is `wide * 2^scale` in units of 2^-2252.
    let scale: i32 = a_exp + b_exp + 2148;
    // Bits below the last place: 53 significant bits are kept, but no place
    // finer than 2^-1074 (2^1178 units) exists.
    let normal_drop: i32 = width - 53;
    let floor_drop: i32 = 1178 - scale;
    let drop: i32 = if normal_drop >= floor_drop {
        normal_drop
    } else {
        floor_drop
    };
    let wide: u128 = hi as u128 * 0x1_0000_0000_0000_0000u128 + lo as u128;
    let ghost w = wide as nat;
    let ghost dn = drop as nat;
    let ghost t = scale as nat;
    proof {
        let ua = units(magnitude(a));
        let ub = units(magnitude(b));
        let xa = (a_exp + 1074) as nat;
        let xb = (b_exp + 1074) as nat;
        lemma_pow2_adds(xa, xb);
        assert(m * pow2(104) == w * pow2(t)) by (nonlinear_arith)
            requires
                m == ua * ub,
                ua * pow2(52) == a_sig * pow2(xa),
                ub * pow2(52) == b_sig * pow2(xb),
                pow2(104) == pow2(52) * pow2(52),
                w == a_sig * b_sig,
                pow2(t) == pow2(xa) * pow2(xb),
        ;
        lemma_pow2_adds((width - 53) as nat, 53);
        lemma_pow2_adds((width - 53) as nat, 52);
        lemma_pow2_le((width - 53) as nat, dn);
        let lo_bound = pow2((width - 53) as nat);
        assert(w < 0x20_0000_0000_0000 * pow2(dn)) by (nonlinear_arith)
            requires
                w < pow2(width as nat),
                pow2(width as nat) == lo_bound * 0x20_0000_0000_0000,
                lo_bound <= pow2(dn),
        ;
        assert(w >= pow2((width - 1) as nat));
    }
    // Whether the product is exact at the result's precision, and whether
    // round to nearest chose the candidate below it.
    let (exact, nearest_is_lower) = if drop >= 107 {
        proof {
            lemma_pow2_le(106, (dn - 1) as nat);
            lemma_pow2_unfold(dn);
            vstd::arithmetic::div_mod::lemma_small_mod(w, pow2(dn));
            vstd::arithmetic::div_mod::lemma_basic_div(w as int, pow2(dn) as int);
        }
        (false, true)
    } else {
        let unit: u128 = 1u128 << (drop as u128);
        proof {
            lemma_u128_shift_is_pow2(drop as u128);
            lemma_pow2_unfold(dn);
        }
        let trunc = wide % unit;
        let tie = unit / 2;
        let retained = wide / unit;
        (trunc == 0, trunc < tie || (trunc == tie && retained % 2 == 0))
    };
    proof {
        if is_nearest(m, negative_product, nearest) {
            lemma_correction(m, w, t, dn, nearest, negative_product);
        }
    }
    if exact {
        nearest
    } else if negative == nearest_is_lower {
        predecessor_f64(nearest)
    } else {
        nearest
    }
}

/// Flips the sign bit of a pattern.
fn flip_sign(x: u64) -> (r: u64)
    ensures
        r == negate(x),
{
    if x >= SIGN_BIT {
        x - SIGN_BIT
    } else {
        x + SIGN_BIT
    }
}

/// Multiplies the binary64 values with patterns `a` and `b`, rounding toward
/// positive infinity; `nearest` is their product rounded to nearest, as for
/// `multiply_round_down`, which this mirrors through zero.
pub fn multiply_round_up(a: u64, b: u64, nearest: u64) -> (r: u64)
    ensures
        !(is_finite_nonzero(a) && is_finite_nonzero(b)) ==> r == nearest,
        is_finite_nonzero(a) && is_finite_nonzero(b) && is_nearest(
            exact_product(a, b),
            product_negative(a, b),
            nearest,
        ) ==> is_round_up(exact_product(a, b), product_negative(a, b), r),
{
    let flipped = multiply_round_down(flip_sign(a), b, flip_sign(nearest));
    let r = flip_sign(flipped);
    proof {
        let na = negate(a);
        assert(magnitude(na) == magnitude(a));
        assert(sign_set(na) != sign_set(a));
        assert(exact_product(na, b) == exact_product(a, b));
        assert(magnitude(negate(nearest)) == magnitude(nearest));
        assert(magnitude(negate(flipped)) == magnitude(flipped));
        assert(negate(negate(nearest)) == nearest);
    }
    r
}

} // verus!

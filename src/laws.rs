//! Properties of directed rounding that hold of every result the multiplication
//! functions promise.
use crate::model::{
    exact_product, is_finite, is_finite_nonzero, is_round_down, is_round_up,
    lemma_scaled_order, magnitude, product_negative, scaled, sign_set, signed_exact,
    signed_value, significand_of, scale_of, units, is_nan, INF_BITS,
};
use crate::successor::{negate, next_up};
use vstd::arithmetic::power2::pow2;
use vstd::prelude::*;

verus! {

/// A pattern is its sign and its magnitude.
proof fn lemma_pattern_parts(x: u64, y: u64)
    requires
        sign_set(x) == sign_set(y),
        magnitude(x) == magnitude(y),
    ensures
        x == y,
{
}

/// Rounding down is sound and tight: a finite result never exceeds the exact
/// value, no finite value lies above the result without exceeding the exact
/// value, so the result equals the exact value whenever any binary64 value
/// does; and an infinite result (negative infinity) means that no finite
/// value lies at or below the exact value.
pub proof fn lemma_round_down_sound_and_tight(m: nat, negative: bool, r: u64, q: u64)
    requires
        is_round_down(m, negative, r),
        is_finite(q),
    ensures
        is_finite(r) ==> signed_value(r) <= signed_exact(m, negative),
        signed_value(q) <= signed_exact(m, negative) ==> is_finite(r) && signed_value(q)
            <= signed_value(r),
        signed_value(q) == signed_exact(m, negative) ==> signed_value(r) == signed_exact(
            m,
            negative,
        ),
{
    let p = magnitude(r);
    let pq = magnitude(q);
    if negative {
        lemma_scaled_order((p - 1) as nat, pq);
        lemma_scaled_order(pq, p);
        if sign_set(q) && scaled(pq) >= m {
            assert(pq >= p);
        }
    } else {
        lemma_scaled_order(pq, p + 1);
        lemma_scaled_order(pq, p);
        lemma_scaled_order(p, pq);
    }
}

/// Rounding down the exact value is rounding up its negation, negated: the
/// downward product of `a` and `b` is the upward product of `-a` and `b`,
/// negated.
pub proof fn lemma_sign_antisymmetry(a: u64, b: u64, down: u64, up: u64)
    requires
        is_finite_nonzero(a),
        is_finite_nonzero(b),
        is_round_down(exact_product(a, b), product_negative(a, b), down),
        is_round_up(exact_product(negate(a), b), product_negative(negate(a), b), up),
    ensures
        down == negate(up),
{
    let m = exact_product(a, b);
    let na = negate(a);
    assert(magnitude(na) == magnitude(a));
    assert(exact_product(na, b) == m);
    let p = magnitude(down);
    let q = magnitude(up);
    assert(sign_set(na) != sign_set(a));
    if product_negative(a, b) {
        lemma_scaled_order(p, (q - 1) as nat);
        lemma_scaled_order(q, (p - 1) as nat);
    } else {
        lemma_scaled_order(p + 1, q);
        lemma_scaled_order(q + 1, p);
    }
    assert(p == q);
    lemma_pattern_parts(down, negate(up));
}

/// Stepping up reaches the adjacent value above: `next_up(x)` is above `x`,
/// and every value above `x` is at or above `next_up(x)`.
pub proof fn lemma_next_up_is_adjacent(x: u64, y: u64)
    requires
        !is_nan(x),
        x != INF_BITS,
        !is_nan(y),
    ensures
        signed_value(x) < signed_value(next_up(x)),
        signed_value(x) < signed_value(y) ==> signed_value(next_up(x)) <= signed_value(y),
{
    let p = magnitude(x);
    let q = magnitude(y);
    lemma_scaled_order(0, 1);
    lemma_scaled_order(0, q);
    assert(scaled(0) == 0) by {
        let w = pow2(scale_of(0));
        assert(significand_of(0) == 0);
        assert(significand_of(0) * w == 0) by (nonlinear_arith)
            requires
                significand_of(0) == 0,
        ;
        assert(units(0) == 0);
        assert(units(0) * pow2(1074) == 0) by (nonlinear_arith)
            requires
                units(0) == 0,
        ;
    }
    if p == 0 {
        lemma_scaled_order(1, q);
    } else if !sign_set(x) {
        lemma_scaled_order(p, p + 1);
        lemma_scaled_order(p + 1, q);
        lemma_scaled_order(q, p);
    } else {
        assert(magnitude(next_up(x)) == p - 1);
        lemma_scaled_order((p - 1) as nat, p);
        lemma_scaled_order(p, q);
        lemma_scaled_order(q, (p - 1) as nat);
    }
}

} // verus!

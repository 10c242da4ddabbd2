use rounding_mode::{
    multiply_mantissas, multiply_round_down, multiply_round_up, predecessor_f64, successor_f64,
};

/// Product of `a` and `b` rounded down, with ordinary multiplication giving
/// the nearest product.
fn mul_down(a: f64, b: f64) -> f64 {
    f64::from_bits(multiply_round_down(a.to_bits(), b.to_bits(), (a * b).to_bits()))
}

fn mul_up(a: f64, b: f64) -> f64 {
    f64::from_bits(multiply_round_up(a.to_bits(), b.to_bits(), (a * b).to_bits()))
}

fn same_float(a: f64, b: f64) -> bool {
    a.to_bits() == b.to_bits()
}

const TINY: f64 = 4.940656458412465442e-324;

/// Independent reference: the product rounded down, computed directly from
/// the exact integer product of the stored significands.
fn reference_mul_down(a: f64, b: f64) -> f64 {
    if !a.is_finite() || !b.is_finite() || a == 0.0 || b == 0.0 {
        return a * b;
    }
    fn parts(x: f64) -> (u128, i32) {
        let bits = x.to_bits();
        let field = ((bits >> 52) & 0x7ff) as i32;
        let mant = (bits & 0x000f_ffff_ffff_ffff) as u128;
        if field == 0 {
            (mant, -1074)
        } else {
            (mant | (1 << 52), field - 1075)
        }
    }
    let negative = a.is_sign_negative() != b.is_sign_negative();
    let (ma, ea) = parts(a);
    let (mb, eb) = parts(b);
    let product = ma * mb;
    let exp = ea + eb;
    let len = 128 - product.leading_zeros() as i32;
    let mut quantum = std::cmp::max(exp + len - 53, -1074);
    let shift = quantum - exp;
    assert!(shift >= 0);
    let (mut kept, inexact) = if shift >= 128 {
        (0u128, product != 0)
    } else {
        (product >> shift, product & ((1u128 << shift) - 1) != 0)
    };
    if negative && inexact {
        kept += 1;
    }
    if kept == 1 << 53 {
        kept = 1 << 52;
        quantum += 1;
    }
    let magnitude_bits = if kept < (1 << 52) {
        kept as u64
    } else {
        let field = quantum + 1075;
        if field >= 2047 {
            return if negative { f64::NEG_INFINITY } else { f64::MAX };
        }
        ((field as u64) << 52) | (kept as u64 & 0x000f_ffff_ffff_ffff)
    };
    let sign = if negative { 1u64 << 63 } else { 0 };
    f64::from_bits(sign | magnitude_bits)
}

fn random_f64() -> Vec<f64> {
    let mut v = vec![
        // Start with some fairly innocuous examples...
        0.1,
        -0.1,
        0.4,
        -0.4,
        0.0001,
        0.01,
        0.5,
        100.0,
        -100.0,
        0.2,
        0.3,
        -0.2,
        -0.3,
        f64::NAN,
        f64::INFINITY,
        -f64::INFINITY,
        0.0,
        -0.0,
        f64::MAX,
        f64::MIN,
        f64::MIN_POSITIVE,
        -f64::MIN_POSITIVE,
    ];
    for exp in -1074..=1023 {
        let p = f64::powf(2.0, exp as f64);
        v.push(p);
        v.push(f64::from_bits(successor_f64(p.to_bits())));
        v.push(f64::from_bits(predecessor_f64(p.to_bits())));
    }
    v
}

#[test]
fn test_multiply_round_down() {
    let values = random_f64();
    let mut cases = 0u64;
    for &op1 in values.iter() {
        for &op2 in values.iter() {
            let e = reference_mul_down(op1, op2);
            let a = mul_down(op1, op2);
            assert!(
                same_float(e, a) || (e.is_nan() && a.is_nan()),
                "a = {:.18e}, b = {:.18e}, expected = {:.18e}, actual = {:.18e}",
                op1,
                op2,
                e,
                a
            );
            cases += 1;
        }
    }
    println!("Tested {} cases", cases);
}

#[test]
fn test_mul_rd() {
    let cases = [(0.1, 0.4, 0.04), (-0.1, 0.4, -0.04000000000000001)];
    for (op1, op2, res) in cases {
        let r = mul_down(op1, op2);
        assert!(same_float(r, res), "a = {}, b = {}, expected = {}, actual = {}", op1, op2, res, r);
    }
}

#[test]
fn boundary_scenarios() {
    // Same pattern as the ordinary product or one step below it.
    let n = 0.1f64 * 0.4;
    let d = mul_down(0.1, 0.4);
    assert!(same_float(d, n) || same_float(d, f64::from_bits(predecessor_f64(n.to_bits()))));
    // A negative inexact product is never above the ordinary product; here
    // round to nearest already went away from zero.
    let n = -0.1f64 * 0.4;
    assert!(mul_down(-0.1, 0.4) <= n);
    assert!(same_float(mul_down(-0.1, 0.4), -0.04000000000000001));
    assert!(same_float(mul_down(-0.1, 0.3), f64::from_bits(predecessor_f64((-0.1f64 * 0.3).to_bits()))) || same_float(mul_down(-0.1, 0.3), -0.1f64 * 0.3));
    assert!(same_float(mul_down(-0.1, 0.3), reference_mul_down(-0.1, 0.3)));
    // Underflow.
    assert!(same_float(mul_down(TINY, TINY), 0.0));
    assert!(same_float(mul_down(-TINY, TINY), -TINY));
    assert!(same_float(mul_down(TINY, -TINY), -TINY));
    // Overflow.
    assert!(same_float(mul_down(f64::MAX, 2.0), f64::MAX));
    assert!(same_float(mul_down(-f64::MAX, 2.0), f64::NEG_INFINITY));
}

#[test]
fn special_operands_give_the_ordinary_product() {
    assert!(same_float(mul_down(0.0, 5.0), 0.0));
    assert!(same_float(mul_down(-0.0, 5.0), -0.0));
    assert!(same_float(mul_down(f64::INFINITY, -2.0), f64::NEG_INFINITY));
    assert!(mul_down(f64::INFINITY, 0.0).is_nan());
    assert!(mul_down(f64::NAN, 1.0).is_nan());
    assert_eq!(multiply_round_down(0, 1.0f64.to_bits(), 12345), 12345);
}

#[test]
fn exact_products_are_kept() {
    assert!(same_float(mul_down(3.0, 7.0), 21.0));
    assert!(same_float(mul_down(-3.0, 7.0), -21.0));
    assert!(same_float(mul_down(0.5, f64::MIN_POSITIVE), f64::MIN_POSITIVE / 2.0));
    assert!(same_float(mul_down(1.0, TINY), TINY));
    assert!(same_float(mul_down(2.0f64.powi(-600), 2.0f64.powi(-474)), TINY));
}

#[test]
fn ties_round_down() {
    // 1.5 * (2^52 + 1) lies halfway between two neighbours spaced one apart;
    // round to nearest goes to the even one above.
    let a = 4503599627370497.0f64;
    assert_eq!(a * 1.5, 6755399441055746.0);
    assert!(same_float(mul_down(a, 1.5), 6755399441055745.0));
    assert!(same_float(mul_down(-a, 1.5), -6755399441055746.0));
    assert!(same_float(mul_up(a, 1.5), 6755399441055746.0));
    assert!(same_float(mul_up(-a, 1.5), -6755399441055745.0));
}

#[test]
fn subnormal_results() {
    // 0.75 * 2^-1074 rounds to nearest up to the smallest subnormal.
    assert!(same_float(mul_down(0.75, TINY), 0.0));
    assert!(same_float(mul_down(-0.75, TINY), -TINY));
    assert!(same_float(mul_down(0.3, 5.0 * TINY), TINY));
    assert!(same_float(mul_down(-0.3, 5.0 * TINY), -2.0 * TINY));
    // Just below the smallest normal value, round to nearest gives that value.
    let below = 1.0 - f64::EPSILON / 4.0;
    let b = f64::from_bits(successor_f64(f64::MIN_POSITIVE.to_bits()));
    let p = below * b;
    assert!(same_float(mul_down(below, b), reference_mul_down(below, b)));
    assert!(mul_down(below, b) <= p);
}

#[test]
fn round_up_mirrors_round_down() {
    for (a, b) in [(0.1, 0.4), (-0.1, 0.4), (f64::MAX, 2.0), (TINY, TINY), (0.3, 5.0 * TINY), (3.0, 7.0)] {
        assert!(same_float(mul_down(a, b), -mul_up(-a, b)));
    }
    assert!(same_float(mul_up(0.1, 0.4), 0.04000000000000001));
    assert!(same_float(mul_up(TINY, TINY), TINY));
    assert!(same_float(mul_up(f64::MAX, 2.0), f64::INFINITY));
    assert!(same_float(mul_up(-f64::MAX, 2.0), -f64::MAX));
}

#[test]
fn significand_products() {
    assert_eq!(multiply_mantissas(1 << 52, 1 << 52), (1 << 40, 0));
    let m = (1u64 << 53) - 1;
    let wide = (m as u128) * (m as u128);
    assert_eq!(multiply_mantissas(m, m), ((wide >> 64) as u64, wide as u64));
    assert_eq!(multiply_mantissas(3, 5), (0, 15));
}

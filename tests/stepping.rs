use rounding_mode::{
    from_sign_exp_mant_f64, predecessor_f32, predecessor_f64, sign_exp_mant_f64, successor_f32,
    successor_f64,
};

fn up(x: f64) -> f64 {
    f64::from_bits(successor_f64(x.to_bits()))
}

fn down(x: f64) -> f64 {
    f64::from_bits(predecessor_f64(x.to_bits()))
}

const TINY: f64 = 4.940656458412465442e-324;

#[test]
fn successor_boundaries() {
    assert_eq!(up(0.0).to_bits(), TINY.to_bits());
    assert_eq!(up(-0.0).to_bits(), TINY.to_bits());
    assert_eq!(up(-TINY).to_bits(), (-0.0f64).to_bits());
    assert_eq!(up(f64::MAX), f64::INFINITY);
    assert_eq!(up(f64::INFINITY), f64::INFINITY);
    assert_eq!(up(f64::NEG_INFINITY), -f64::MAX);
    assert!(up(f64::NAN).is_nan());
    assert_eq!(up(1.0), 1.0 + f64::EPSILON);
    assert_eq!(up(-1.0), -1.0 + f64::EPSILON / 2.0);
}

#[test]
fn predecessor_boundaries() {
    assert_eq!(down(0.0).to_bits(), (-TINY).to_bits());
    assert_eq!(down(-0.0).to_bits(), (-TINY).to_bits());
    assert_eq!(down(TINY).to_bits(), 0.0f64.to_bits());
    assert_eq!(down(-f64::MAX), f64::NEG_INFINITY);
    assert_eq!(down(f64::NEG_INFINITY), f64::NEG_INFINITY);
    assert_eq!(down(f64::INFINITY), f64::MAX);
    assert!(down(f64::NAN).is_nan());
    assert_eq!(down(1.0), 1.0 - f64::EPSILON / 2.0);
    assert_eq!(down(f64::MIN_POSITIVE), f64::MIN_POSITIVE - TINY);
}

#[test]
fn stepping_round_trip_and_mirror() {
    let values = [
        1.0, -1.0, 0.1, -0.3, TINY, -TINY, -0.0, f64::MAX, -f64::MAX, f64::MIN_POSITIVE,
        -f64::MIN_POSITIVE, 1e300, -2.5e-310,
    ];
    for x in values {
        assert_eq!(up(down(x)).to_bits(), x.to_bits());
        assert_eq!(up(x).to_bits(), (-down(-x)).to_bits());
    }
    // Positive zero comes back as negative zero, equal in value.
    assert_eq!(up(down(0.0)).to_bits(), (-0.0f64).to_bits());
    assert_eq!(up(down(0.0)), 0.0);
    assert_eq!(up(f64::NAN).to_bits(), f64::NAN.to_bits());
}

#[test]
fn binary32_stepping() {
    let up32 = |x: f32| f32::from_bits(successor_f32(x.to_bits()));
    let down32 = |x: f32| f32::from_bits(predecessor_f32(x.to_bits()));
    assert_eq!(up32(1.0), 1.0 + f32::EPSILON);
    assert_eq!(down32(1.0), 1.0 - f32::EPSILON / 2.0);
    assert_eq!(up32(0.0).to_bits(), 1);
    assert_eq!(down32(0.0).to_bits(), 0x8000_0001);
    assert_eq!(up32(f32::MAX), f32::INFINITY);
    assert_eq!(down32(f32::INFINITY), f32::MAX);
    assert_eq!(up32(f32::NEG_INFINITY), -f32::MAX);
    assert_eq!(down32(f32::NEG_INFINITY), f32::NEG_INFINITY);
    assert!(up32(f32::NAN).is_nan());
    assert_eq!(down32(-1.0), -1.0 - f32::EPSILON);
}

#[test]
fn decompose_values() {
    assert_eq!(sign_exp_mant_f64(1.0f64.to_bits()), (0, 0, 1 << 52));
    assert_eq!(sign_exp_mant_f64((-2.0f64).to_bits()), (1 << 63, 1, 1 << 52));
    assert_eq!(sign_exp_mant_f64(1.5f64.to_bits()), (0, 0, 3 << 51));
    assert_eq!(sign_exp_mant_f64(f64::MAX.to_bits()), (0, 1023, (1 << 53) - 1));
    assert_eq!(sign_exp_mant_f64(f64::MIN_POSITIVE.to_bits()), (0, -1022, 1 << 52));
    // Subnormals are renormalized to 53 significant bits.
    assert_eq!(sign_exp_mant_f64(TINY.to_bits()), (0, -1074, 1 << 52));
    assert_eq!(sign_exp_mant_f64((-3.0 * TINY).to_bits()), (1 << 63, -1073, 3 << 51));
    assert_eq!(
        sign_exp_mant_f64((f64::MIN_POSITIVE - TINY).to_bits()),
        (0, -1023, (1 << 53) - 2)
    );
}

#[test]
fn recompose_values() {
    assert_eq!(from_sign_exp_mant_f64(0, 0, 1 << 52), 1.0f64.to_bits());
    assert_eq!(from_sign_exp_mant_f64(1 << 63, 1, 3 << 51), (-3.0f64).to_bits());
    assert_eq!(from_sign_exp_mant_f64(0, 1023, (1 << 53) - 1), f64::MAX.to_bits());
    assert_eq!(from_sign_exp_mant_f64(0, -1022, 1 << 52), f64::MIN_POSITIVE.to_bits());
    // Below the normal range the exponent field is clamped to zero.
    assert_eq!(from_sign_exp_mant_f64(0, -1050, (1 << 52) + 5), 5);
    for x in [1.0f64, -0.1, 3.5e200, -f64::MAX, f64::MIN_POSITIVE, 7.25e-300] {
        let (s, e, m) = sign_exp_mant_f64(x.to_bits());
        assert_eq!(from_sign_exp_mant_f64(s, e, m), x.to_bits());
    }
}

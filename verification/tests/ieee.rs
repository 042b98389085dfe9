use et_radiosity::ieee::{
    abs, is_finite, less, less_or_equal, normalise3, sqrt_f32, Vec3, INFINITY, MIN_LENGTH, ONE,
    SIGN_BIT, ZERO,
};

fn samples() -> Vec<f32> {
    vec![
        0.0,
        -0.0,
        1.0,
        -1.0,
        0.5,
        1.5,
        1.0e-40,
        -1.0e-40,
        1.0e-7,
        3.4e38,
        -3.4e38,
        f32::INFINITY,
        f32::NEG_INFINITY,
        f32::NAN,
        -f32::NAN,
        f32::MIN_POSITIVE,
    ]
}

fn refine(s: u32, x: u32) -> u32 {
    let (s, x) = (f32::from_bits(s), f32::from_bits(x));
    (0.5 * (s + x / s)).to_bits()
}

#[test]
fn constants_are_the_documented_numbers() {
    assert_eq!(ZERO, 0.0f32.to_bits());
    assert_eq!(ONE, 1.0f32.to_bits());
    assert_eq!(INFINITY, f32::INFINITY.to_bits());
    assert_eq!(SIGN_BIT, (-0.0f32).to_bits());
    assert_eq!(MIN_LENGTH, 1.0e-12f32.to_bits());
}

#[test]
fn comparisons_agree_with_floats() {
    for x in samples() {
        for y in samples() {
            assert_eq!(less(x.to_bits(), y.to_bits()), x < y, "{x} < {y}");
            assert_eq!(less_or_equal(x.to_bits(), y.to_bits()), x <= y, "{x} <= {y}");
        }
    }
}

#[test]
fn classification_agrees_with_floats() {
    for x in samples() {
        assert_eq!(is_finite(x.to_bits()), x.is_finite(), "{x}");
        assert_eq!(abs(x.to_bits()), x.abs().to_bits(), "{x}");
    }
}

#[test]
fn sqrt_of_zero_and_below_is_zero() {
    assert_eq!(sqrt_f32(0.0f32.to_bits(), refine), ZERO);
    assert_eq!(sqrt_f32((-0.0f32).to_bits(), refine), ZERO);
    assert_eq!(sqrt_f32((-4.0f32).to_bits(), refine), ZERO);
}

#[test]
fn sqrt_takes_three_steps_from_the_estimate() {
    let x = 2.0f32;
    let mut s = f32::from_bits((x.to_bits() >> 1).wrapping_add(0x1FBB_4F2E));
    s = 0.5 * (s + x / s);
    s = 0.5 * (s + x / s);
    s = 0.5 * (s + x / s);
    assert_eq!(sqrt_f32(x.to_bits(), refine), s.to_bits());
    assert!((s - 2.0f32.sqrt()).abs() < 1.0e-6);
    assert_eq!(sqrt_f32(4.0f32.to_bits(), refine), 2.0f32.to_bits());
}

#[test]
fn short_vectors_keep_their_fallback() {
    let a = Vec3 { x: 3.0f32.to_bits(), y: 0.0f32.to_bits(), z: 4.0f32.to_bits() };
    let zero = Vec3 { x: ZERO, y: ZERO, z: ZERO };
    let divide = |x: u32, l: u32| (f32::from_bits(x) / f32::from_bits(l)).to_bits();
    assert_eq!(normalise3(a, 1.0e-13f32.to_bits(), zero, divide), zero);
    let unit = normalise3(a, 5.0f32.to_bits(), zero, divide);
    assert_eq!(unit.x, 0.6f32.to_bits());
    assert_eq!(unit.y, ZERO);
    assert_eq!(unit.z, 0.8f32.to_bits());
}

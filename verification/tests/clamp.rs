use pathtracer::scalar::Scalar;
use pathtracer::utils::clamp as clamp_scalar;

fn clamp(value: f32) -> u8 {
    clamp_scalar(Scalar::from_bits(value.to_bits()))
}

#[test]
fn check_float_inside_u8_range() {
    assert_eq!(42, clamp(42.9999_f32));
}

#[test]
fn check_float_on_border_u8_range() {
    assert_eq!(0, clamp(0_f32));
    assert_eq!(255, clamp(255_f32));
}

#[test]
fn check_float_outside_u8_range() {
    assert_eq!(0, clamp(-42.9999_f32));
    assert_eq!(255, clamp(256_f32));
}

#[test]
fn check_float_nan() {
    assert_eq!(0, clamp(f32::NAN));
}

#[test]
fn clamp_truncates_toward_zero_in_range() {
    assert_eq!(0, clamp(0.9999_f32));
    assert_eq!(1, clamp(1.0_f32));
    assert_eq!(1, clamp(1.5_f32));
    assert_eq!(254, clamp(254.9999_f32));
    assert_eq!(255, clamp(255.0001_f32));
    assert_eq!(0, clamp(-0.0_f32));
    assert_eq!(0, clamp(f32::MIN_POSITIVE));
}

#[test]
fn clamp_of_infinities() {
    assert_eq!(255, clamp(f32::INFINITY));
    assert_eq!(0, clamp(f32::NEG_INFINITY));
    assert_eq!(255, clamp(f32::MAX));
    assert_eq!(0, clamp(f32::MIN));
}

#[test]
fn clamp_matches_the_saturating_cast() {
    let mut state: u64 = 99;
    for _ in 0..100000 {
        state = state.wrapping_mul(6364136223846793005).wrapping_add(1442695040888963407);
        let bits = (state >> 32) as u32;
        let x = f32::from_bits(bits);
        let want = x.max(u8::MIN as f32).min(u8::MAX as f32) as u8;
        assert_eq!(clamp_scalar(Scalar::from_bits(bits)), want, "{:#x}", bits);
    }
}

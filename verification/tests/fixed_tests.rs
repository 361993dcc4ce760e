use karang_lestari::fixed::{isqrt_u64, Fx, FX_SCALE};

fn fx(x: f64) -> Fx {
    Fx { raw: (x * FX_SCALE as f64).round() as i64 }
}

#[test]
fn add_sub_are_exact() {
    assert_eq!(fx(1.5).add(fx(2.25)).raw, fx(3.75).raw);
    assert_eq!(fx(1.5).sub(fx(2.25)).raw, fx(-0.75).raw);
    assert_eq!(fx(-1.0).neg().raw, fx(1.0).raw);
}

#[test]
fn mul_matches_scaled_product() {
    assert_eq!(fx(1.5).mul(fx(2.0)).raw, fx(3.0).raw);
    assert_eq!(fx(-1.5).mul(fx(2.0)).raw, fx(-3.0).raw);
    // rounding is toward negative infinity on the raw scale
    assert_eq!(Fx { raw: 1 }.mul(Fx { raw: 1 }).raw, 0);
    assert_eq!(Fx { raw: -1 }.mul(Fx { raw: 1 }).raw, -1);
}

#[test]
fn div_matches_scaled_quotient() {
    assert_eq!(fx(3.0).div(fx(2.0)).raw, fx(1.5).raw);
    assert_eq!(fx(-3.0).div(fx(2.0)).raw, fx(-1.5).raw);
    // 1 / 3 rounds down on the raw scale
    assert_eq!(fx(1.0).div(fx(3.0)).raw, 349525);
}

#[test]
fn floor_rounds_toward_negative_infinity() {
    assert_eq!(fx(1.75).floor(), 1);
    assert_eq!(fx(-0.25).floor(), -1);
    assert_eq!(fx(-2.0).floor(), -2);
    assert_eq!(fx(2.0).floor_fx().raw, fx(2.0).raw);
    assert_eq!(fx(-1.25).floor_fx().raw, fx(-2.0).raw);
}

#[test]
fn min_max_clamp() {
    assert_eq!(fx(1.0).min(fx(2.0)).raw, fx(1.0).raw);
    assert_eq!(fx(1.0).max(fx(2.0)).raw, fx(2.0).raw);
    assert_eq!(fx(3.0).clamp(fx(0.0), fx(1.0)).raw, fx(1.0).raw);
    assert_eq!(fx(-3.0).clamp(fx(0.0), fx(1.0)).raw, fx(0.0).raw);
    assert_eq!(fx(0.5).clamp(fx(0.0), fx(1.0)).raw, fx(0.5).raw);
}

#[test]
fn integer_square_roots_are_exact() {
    assert_eq!(isqrt_u64(0), 0);
    assert_eq!(isqrt_u64(1), 1);
    assert_eq!(isqrt_u64(3), 1);
    assert_eq!(isqrt_u64(4), 2);
    assert_eq!(isqrt_u64(15), 3);
    assert_eq!(isqrt_u64(16), 4);
    assert_eq!(isqrt_u64(u64::MAX), 4294967295);
}

#[test]
fn fx_sqrt_matches_reals_on_perfect_squares() {
    assert_eq!(Fx::from_int(4).sqrt().raw, Fx::from_int(2).raw);
    assert_eq!(fx(2.25).sqrt().raw, fx(1.5).raw);
    assert_eq!(fx(0.0).sqrt().raw, 0);
}

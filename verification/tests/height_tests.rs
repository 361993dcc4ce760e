use karang_lestari::fixed::{Fx, FX_SCALE};
use karang_lestari::height::{smooth_terrace, HeightNoise};

fn fx(x: f64) -> Fx {
    Fx { raw: (x * FX_SCALE as f64).round() as i64 }
}

#[test]
fn terrace_with_zero_ramp_is_the_hard_step() {
    // terrace(x, 0) == floor(x), including above the half step.
    for &x in &[0.0, 0.25, 0.5, 0.75, 1.75, 2.5, -0.25, -1.9] {
        let t = smooth_terrace(fx(x), fx(0.0));
        assert_eq!(t.raw, fx(x).floor_fx().raw, "x = {x}");
    }
}

#[test]
fn terrace_with_full_ramp_stays_within_the_step() {
    // terrace(x, 1) lies in [floor(x), floor(x) + 1] everywhere.
    let mut raw: i64 = -3 * FX_SCALE;
    while raw < 3 * FX_SCALE {
        let t = smooth_terrace(Fx { raw }, fx(1.0));
        let base = Fx { raw }.floor_fx().raw;
        assert!(base <= t.raw && t.raw <= base + FX_SCALE, "raw = {raw}");
        raw += 37321;
    }
}

#[test]
fn terrace_is_monotonic_in_its_input() {
    // Non-decreasing across a sweep, at several ramp widths — including
    // around raw 1047552 near the top of a full ramp, where a smoothstep
    // computed with two separate floors would dip.
    for &w in &[0.0, 0.37, 1.0] {
        let mut prev = smooth_terrace(Fx { raw: -2 * FX_SCALE }, fx(w)).raw;
        let mut raw: i64 = -2 * FX_SCALE + 1;
        while raw < 2 * FX_SCALE {
            let cur = smooth_terrace(Fx { raw }, fx(w)).raw;
            assert!(prev <= cur, "dip at raw = {raw}, w = {w}");
            prev = cur;
            raw += 997;
        }
    }
    let a = smooth_terrace(Fx { raw: 1047552 }, fx(1.0));
    let b = smooth_terrace(Fx { raw: 1047553 }, fx(1.0));
    assert!(a.raw <= b.raw);
}

#[test]
fn terrace_with_full_ramp_is_continuous_across_step_boundaries() {
    // Just below and just above a whole step the values are close.
    for step in [-2i64, 0, 1, 5] {
        let below = smooth_terrace(Fx { raw: step * FX_SCALE - 1 }, fx(1.0));
        let above = smooth_terrace(Fx { raw: step * FX_SCALE + 1 }, fx(1.0));
        assert!((above.raw - below.raw).abs() < 64, "step = {step}");
    }
}

#[test]
fn terrace_midpoint_of_the_ramp_meets_the_half_step() {
    // At the exact half step the smoothstep yields exactly one half.
    assert_eq!(smooth_terrace(fx(1.5), fx(1.0)).raw, fx(1.5).raw);
    assert_eq!(smooth_terrace(fx(1.5), fx(0.5)).raw, fx(1.5).raw);
    // Below the ramp window nothing has risen yet.
    assert_eq!(smooth_terrace(fx(1.25), fx(0.5)).raw, fx(1.0).raw);
}

fn field(ph: f64, th: f64, steps: f64, w: f64, offset: f64) -> HeightNoise {
    HeightNoise {
        perlin_height: fx(ph),
        perlin_scale: fx(0.1),
        perlin_seed: 1,
        terrace_height: fx(th),
        terrace_steps: fx(steps),
        terrace_scale: fx(0.02),
        terrace_seed: 2,
        terrace_smooth_width: fx(w),
        offset: fx(offset),
    }
}

#[test]
fn flat_field_always_reads_its_offset() {
    // Zero amplitudes: the height is the vertical offset whatever the
    // noise sources read.
    let flat = field(0.0, 0.0, 4.0, 0.1, 3.25);
    for &(n1, n2) in &[(0.0, 0.0), (1.0, -1.0), (-0.5, 0.7), (0.99, 0.99)] {
        assert_eq!(flat.sample(fx(n1), fx(n2)).raw, fx(3.25).raw);
    }
}

#[test]
fn sample_combines_noise_terrace_and_offset() {
    // ph=2, n1=0.5 gives 1.0; n2=0.9 across 2 hard steps terraces to 1,
    // scaled back by steps and up by amplitude 4 gives 2.0.
    let f = field(2.0, 4.0, 2.0, 0.0, 0.0);
    let h = f.sample(fx(0.5), fx(0.9));
    assert_eq!(h.raw, fx(3.0).raw);
}

#[test]
fn noise_input_points_scale_by_each_frequency() {
    // Frequencies chosen exactly representable on the fixed-point scale.
    let mut f = field(1.0, 2.0, 4.0, 0.1, 0.0);
    f.perlin_scale = fx(0.125);
    f.terrace_scale = fx(0.25);
    let ((px, py), (tx, ty)) = f.noise_input_points(fx(10.0), fx(-20.0));
    assert_eq!(px.raw, fx(1.25).raw);
    assert_eq!(py.raw, fx(-2.5).raw);
    assert_eq!(tx.raw, fx(2.5).raw);
    assert_eq!(ty.raw, fx(-5.0).raw);
}

use karang_lestari::fixed::{Fx, FX_SCALE};
use karang_lestari::placement::{
    decoration_offset, random_yaw, sink_height, slope_accepts, slope_gradient, surface_normal,
    FX_PI,
};

fn fx(x: f64) -> Fx {
    Fx { raw: (x * FX_SCALE as f64).round() as i64 }
}

#[test]
fn decoration_offsets_stay_in_their_range() {
    let lo = fx(-1.0);
    let hi = fx(1.0);
    for draw in [0u64, 1, 7, 1 << 21, u64::MAX] {
        let r = decoration_offset(draw, lo, hi);
        assert!(lo.raw <= r.raw && r.raw < hi.raw, "draw = {draw}");
    }
    assert_eq!(decoration_offset(0, lo, hi).raw, lo.raw);
    assert_eq!(decoration_offset(3, lo, hi).raw, lo.raw + 3);
}

#[test]
fn yaw_draws_cover_minus_pi_to_pi() {
    for draw in [0u64, 1, 3294198, 6588395, 6588396, u64::MAX] {
        let y = random_yaw(draw);
        assert!(-FX_PI <= y.raw && y.raw < FX_PI, "draw = {draw}");
    }
    assert_eq!(random_yaw(0).raw, -FX_PI);
    assert_eq!(random_yaw(3294198).raw, 0);
}

#[test]
fn flat_ground_is_always_accepted() {
    let h = fx(4.0);
    let (gx, gz) = slope_gradient(h, h, h, h, fx(0.5), fx(1.0));
    assert_eq!(gx.raw, 0);
    assert_eq!(gz.raw, 0);
    assert!(slope_accepts(gx, gz));
}

#[test]
fn a_gentle_slope_is_accepted_and_a_cliff_is_not() {
    // Rise of 0.3 over a footprint of half-width 0.5 on each side: slope
    // 0.3, well under the 0.88-dot threshold.
    let (gx, gz) = slope_gradient(fx(0.0), fx(0.3), fx(0.0), fx(0.0), fx(0.5), fx(0.5));
    assert!(slope_accepts(gx, gz));
    // Rise of 2.0 over the same footprint: slope 2, clearly rejected.
    let (sx, sz) = slope_gradient(fx(0.0), fx(2.0), fx(0.0), fx(0.0), fx(0.5), fx(0.5));
    assert!(!slope_accepts(sx, sz));
}

#[test]
fn steep_spot_rejects_every_attempt() {
    // A synthetic height field with a cliff: the east edge of the footprint
    // reads 3.0 higher than the west edge wherever the attempt lands. The
    // slope is far past acos(0.88), so every attempt is turned away.
    for attempt in 0..200u64 {
        let wobble = (attempt % 7) as f64 * 0.01;
        let hl = fx(wobble);
        let hr = fx(3.0 + wobble);
        let hd = fx(1.5 + wobble);
        let hu = fx(1.5 + wobble);
        let (gx, gz) = slope_gradient(hl, hr, hd, hu, fx(0.5), fx(1.0));
        assert!(!slope_accepts(gx, gz), "attempt {attempt} was not rejected");
    }
}

#[test]
fn the_acceptance_threshold_sits_at_dot_088() {
    // dot(normal, up) = 1/sqrt(1 + g^2). For g = 0.5 the dot is ~0.894
    // (accepted); for g = 0.55 it is ~0.876 (rejected).
    let accept = slope_gradient(fx(0.0), fx(0.5), fx(0.0), fx(0.0), fx(0.5), fx(0.5));
    assert!(slope_accepts(accept.0, accept.1));
    let reject = slope_gradient(fx(0.0), fx(0.55), fx(0.0), fx(0.0), fx(0.5), fx(0.5));
    assert!(!slope_accepts(reject.0, reject.1));
}

#[test]
fn the_normal_of_flat_ground_points_straight_up() {
    let (nx, ny, nz) = surface_normal(fx(0.0), fx(0.0));
    assert_eq!(nx.raw, 0);
    assert_eq!(ny.raw, FX_SCALE);
    assert_eq!(nz.raw, 0);
}

#[test]
fn the_normal_leans_away_from_the_rise() {
    let (gx, _) = slope_gradient(fx(0.0), fx(1.0), fx(0.0), fx(0.0), fx(0.5), fx(0.5));
    let (nx, ny, _) = surface_normal(gx, fx(0.0));
    assert!(nx.raw < 0);
    assert!(ny.raw > 0);
}

#[test]
fn sinking_on_flat_ground_keeps_the_centre_height() {
    // Flat field: every anchor equals the centre and the oriented axes are
    // horizontal, so the placed height is exactly the flat height.
    let h = fx(1.25);
    let y = sink_height(h, h, h, h, h, fx(0.0), fx(0.0));
    assert_eq!(y.raw, h.raw);
}

#[test]
fn sinking_takes_the_lowest_corrected_anchor() {
    let y = sink_height(fx(1.0), fx(0.5), fx(2.0), fx(1.5), fx(1.5), fx(0.0), fx(0.0));
    assert_eq!(y.raw, fx(0.5).raw);
    // The vertical component of the oriented axis corrects the anchors.
    let y2 = sink_height(fx(1.0), fx(0.9), fx(2.0), fx(1.5), fx(1.5), fx(-0.25), fx(0.0));
    assert_eq!(y2.raw, fx(0.65).raw);
}

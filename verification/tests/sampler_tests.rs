use karang_lestari::fixed::{Fx, FX_SCALE};
use karang_lestari::height::HeightNoise;
use karang_lestari::region::{ObjectSelection, Region};
use karang_lestari::sampler::RegionSampler;

fn fx(x: f64) -> Fx {
    Fx { raw: (x * FX_SCALE as f64).round() as i64 }
}

fn field(offset: f64) -> HeightNoise {
    HeightNoise {
        perlin_height: fx(1.0),
        perlin_scale: fx(0.1),
        perlin_seed: 1,
        terrace_height: fx(2.0),
        terrace_steps: fx(4.0),
        terrace_scale: fx(0.02),
        terrace_seed: 2,
        terrace_smooth_width: fx(0.1),
        offset: fx(offset),
    }
}

fn region(name: &str, weight: u32, offset: f64) -> Region {
    Region::new(
        name.to_string(),
        weight,
        field(offset),
        vec![ObjectSelection { name: "tendrils".to_string(), selection_weight: 1 }],
    )
    .unwrap()
}

fn sampler() -> RegionSampler {
    RegionSampler::new(
        vec![region("sandbanks", 4, 0.0), region("lil cliffs", 3, 1.0), region("big cliffs", 2, -2.0)],
        fx(100.0),
        fx(0.3),
        fx(10.0),
        42,
    )
    .unwrap()
}

#[test]
fn new_fails_fast_on_zero_region_weight() {
    let s = RegionSampler::new(vec![region("a", 0, 0.0)], fx(100.0), fx(0.3), fx(10.0), 42);
    assert!(s.is_none());
}

#[test]
fn new_fails_fast_on_bad_grid_parameters() {
    assert!(RegionSampler::new(vec![region("a", 1, 0.0)], fx(0.0), fx(0.3), fx(10.0), 42).is_none());
    assert!(RegionSampler::new(vec![region("a", 1, 0.0)], fx(100.0), fx(2.0), fx(10.0), 42).is_none());
    assert!(RegionSampler::new(vec![region("a", 1, 0.0)], fx(100.0), fx(0.3), fx(0.0), 42).is_none());
}

#[test]
fn sample_region_weights_sum_to_one_and_are_nonnegative() {
    let s = sampler();
    for &(x, y) in &[(0.0, 0.0), (13.5, -210.25), (999.0, 501.5), (-47.0, 1330.0), (50.0, 50.0)] {
        let (ids, ws) = s.sample_region(fx(x), fx(y));
        let sum: i64 = ws.iter().map(|w| w.raw).sum();
        assert!(FX_SCALE - 3 < sum && sum <= FX_SCALE, "sum = {sum} at ({x},{y})");
        for w in &ws {
            assert!(0 <= w.raw && w.raw <= FX_SCALE);
        }
        for id in &ids {
            assert!(*id < 3);
        }
    }
}

#[test]
fn sample_region_is_deterministic() {
    let s = sampler();
    let a = s.sample_region(fx(123.25), fx(-77.5));
    let b = s.sample_region(fx(123.25), fx(-77.5));
    assert_eq!(a.0, b.0);
    assert_eq!(a.1.map(|w| w.raw), b.1.map(|w| w.raw));
}

#[test]
fn sample_region_leads_with_the_nearest_site() {
    let s = sampler();
    for &(x, y) in &[(12.0, 34.0), (-250.5, 75.25), (205.0, -199.0)] {
        let px = fx(x);
        let py = fx(y);
        let (ids, _) = s.sample_region(px, py);
        let cx0 = px.div(fx(100.0)).floor() as i32;
        let cy0 = py.div(fx(100.0)).floor() as i32;
        let mut best: Option<(i64, usize)> = None;
        for dy in -1..=1i32 {
            for dx in -1..=1i32 {
                let d = s.dist2_to_site(px, py, cx0, cy0, cx0 + dx, cy0 + dy);
                let rid = s.region_for_cell(cx0 + dx, cy0 + dy);
                match best {
                    Some((bd, _)) if bd <= d.raw => {},
                    _ => best = Some((d.raw, rid)),
                }
            }
        }
        let (_, nearest_region) = best.unwrap();
        assert_eq!(ids[0], nearest_region, "at ({x},{y})");
    }
}

#[test]
fn surface_height_blends_by_the_given_weights() {
    let s = sampler();
    let heights = [fx(1.0), fx(3.0), fx(5.0)];
    let only_first = s.sample_surface_height([fx(1.0), fx(0.0), fx(0.0)], heights);
    assert_eq!(only_first.raw, fx(1.0).raw);
    let halves = s.sample_surface_height([fx(0.5), fx(0.5), fx(0.0)], heights);
    assert_eq!(halves.raw, fx(2.0).raw);
}

#[test]
fn surface_orientation_on_flat_ground_is_straight_up() {
    let s = sampler();
    let h = fx(2.5);
    let (nx, ny, nz) = s.sample_surface_orientation(h, h, h, h, fx(0.1));
    assert_eq!(nx.raw, 0);
    assert_eq!(ny.raw, FX_SCALE);
    assert_eq!(nz.raw, 0);
}

#[test]
fn surface_orientation_guards_a_zero_epsilon() {
    let s = sampler();
    // eps == 0 is clamped, not divided by: the call returns a unit-ish
    // normal with positive up-component.
    let (_, ny, _) = s.sample_surface_orientation(fx(0.0), fx(0.5), fx(0.0), fx(0.0), fx(0.0));
    assert!(ny.raw > 0);
}

#[test]
fn cell_hash_matches_between_calls() {
    let s = sampler();
    assert_eq!(s.hash(5, -9, 42), s.hash(5, -9, 42));
    assert_ne!(s.hash(5, -9, 42), s.hash(5, -8, 42));
}

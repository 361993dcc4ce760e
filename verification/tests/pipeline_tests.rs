use karang_lestari::fixed::{Fx, FX_SCALE};
use karang_lestari::height::HeightNoise;
use karang_lestari::placement::sink_height;
use karang_lestari::region::{ObjectSelection, Region};
use karang_lestari::sampler::RegionSampler;
use noise::{NoiseFn, Perlin};

fn fx(x: f64) -> Fx {
    Fx { raw: (x * FX_SCALE as f64).round() as i64 }
}

fn to_f64(v: Fx) -> f64 {
    v.raw as f64 / FX_SCALE as f64
}

/// Read one region's two noise sources at the points the field prescribes.
fn noise_pair(field: &HeightNoise, px: Fx, py: Fx) -> (Fx, Fx) {
    let ((ax, ay), (bx, by)) = field.noise_input_points(px, py);
    let p1 = Perlin::new(field.perlin_seed);
    let p2 = Perlin::new(field.terrace_seed);
    let n1 = p1.get([to_f64(ax), to_f64(ay)]);
    let n2 = p2.get([to_f64(bx), to_f64(by)]);
    (fx(n1.clamp(-1.0, 1.0)), fx(n2.clamp(-1.0, 1.0)))
}

/// The blended surface height at a point, through the whole pipeline.
fn surface_height(s: &RegionSampler, px: Fx, py: Fx) -> Fx {
    let (ids, ws) = s.sample_region(px, py);
    let mut hs = [fx(0.0); 3];
    for i in 0..3 {
        let field = &s.regions[ids[i]].height_sampler;
        let (n1, n2) = noise_pair(field, px, py);
        hs[i] = field.sample(n1, n2);
    }
    s.sample_surface_height(ws, hs)
}

fn region(name: &str, weight: u32, field: HeightNoise) -> Region {
    Region::new(
        name.to_string(),
        weight,
        field,
        vec![ObjectSelection { name: "tendrils".to_string(), selection_weight: 1 }],
    )
    .unwrap()
}

fn bumpy_field(seed: u32) -> HeightNoise {
    HeightNoise {
        perlin_height: fx(1.0),
        perlin_scale: fx(0.1),
        perlin_seed: seed,
        terrace_height: fx(15.0),
        terrace_steps: fx(3.0),
        terrace_scale: fx(0.01),
        terrace_seed: seed + 1,
        terrace_smooth_width: fx(0.2),
        offset: fx(0.0),
    }
}

fn flat_field(offset: f64) -> HeightNoise {
    HeightNoise {
        perlin_height: fx(0.0),
        perlin_scale: fx(0.1),
        perlin_seed: 9,
        terrace_height: fx(0.0),
        terrace_steps: fx(4.0),
        terrace_scale: fx(0.02),
        terrace_seed: 10,
        terrace_smooth_width: fx(0.1),
        offset: fx(offset),
    }
}

#[test]
fn the_surface_height_is_a_pure_function_of_point_and_seed() {
    let s = RegionSampler::new(
        vec![region("a", 4, bumpy_field(1)), region("b", 3, bumpy_field(7))],
        fx(100.0),
        fx(0.3),
        fx(10.0),
        42,
    )
    .unwrap();
    for &(x, y) in &[(0.0, 0.0), (37.5, -120.25), (411.0, 233.0)] {
        let h1 = surface_height(&s, fx(x), fx(y));
        let h2 = surface_height(&s, fx(x), fx(y));
        assert_eq!(h1.raw, h2.raw, "at ({x},{y})");
    }
}

#[test]
fn a_flat_world_at_zero_never_sinks_a_decoration() {
    // One region, zero amplitudes, zero offset: the surface is exactly zero
    // everywhere, so the centre height and all four footprint anchors agree
    // and the sink phase places the decoration exactly on the surface.
    let s = RegionSampler::new(
        vec![region("flat", 1, flat_field(0.0))],
        fx(100.0),
        fx(0.3),
        fx(10.0),
        42,
    )
    .unwrap();
    for &(x, y) in &[(3.0, 4.0), (-91.25, 17.5), (250.0, -250.0)] {
        let centre = surface_height(&s, fx(x), fx(y));
        assert_eq!(centre.raw, 0, "surface not flat at ({x},{y})");
        let hl = surface_height(&s, fx(x - 0.5), fx(y));
        let hr = surface_height(&s, fx(x + 0.5), fx(y));
        let hd = surface_height(&s, fx(x), fx(y - 1.0));
        let hu = surface_height(&s, fx(x), fx(y + 1.0));
        let placed = sink_height(centre, hl, hr, hd, hu, fx(0.0), fx(0.0));
        assert_eq!(placed.raw, centre.raw, "sank at ({x},{y})");
    }
}

#[test]
fn a_raised_flat_world_never_floats_a_decoration() {
    let s = RegionSampler::new(
        vec![region("flat", 1, flat_field(2.0))],
        fx(100.0),
        fx(0.3),
        fx(10.0),
        42,
    )
    .unwrap();
    let (x, y) = (12.0, -8.0);
    let centre = surface_height(&s, fx(x), fx(y));
    let hl = surface_height(&s, fx(x - 0.5), fx(y));
    let hr = surface_height(&s, fx(x + 0.5), fx(y));
    let hd = surface_height(&s, fx(x), fx(y - 1.0));
    let hu = surface_height(&s, fx(x), fx(y + 1.0));
    let placed = sink_height(centre, hl, hr, hd, hu, fx(0.0), fx(0.0));
    // Never above any anchor, and within normalization rounding of the
    // flat height.
    assert!(placed.raw <= centre.raw);
    for h in [hl, hr, hd, hu] {
        assert!(placed.raw <= h.raw);
    }
    assert!(centre.raw - placed.raw <= 8);
}

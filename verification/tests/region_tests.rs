use karang_lestari::fixed::{Fx, FX_SCALE};
use karang_lestari::height::HeightNoise;
use karang_lestari::region::{ObjectSelection, Region};
use karang_lestari::weights::build_prefix;

fn fx(x: f64) -> Fx {
    Fx { raw: (x * FX_SCALE as f64).round() as i64 }
}

fn plain_field() -> HeightNoise {
    HeightNoise {
        perlin_height: fx(1.0),
        perlin_scale: fx(0.1),
        perlin_seed: 1,
        terrace_height: fx(2.0),
        terrace_steps: fx(4.0),
        terrace_scale: fx(0.02),
        terrace_seed: 2,
        terrace_smooth_width: fx(0.1),
        offset: fx(0.0),
    }
}

fn palette(entries: &[(&str, u32)]) -> Vec<ObjectSelection> {
    entries
        .iter()
        .map(|(n, w)| ObjectSelection { name: (*n).to_string(), selection_weight: *w })
        .collect()
}

#[test]
fn build_prefix_is_cumulative() {
    let (prefix, total) = build_prefix(&vec![3u32, 1, 2]).unwrap();
    assert_eq!(prefix, vec![3u32, 4, 6]);
    assert_eq!(total, 6);
}

#[test]
fn build_prefix_fails_fast_on_zero_total() {
    assert!(build_prefix(&vec![]).is_none());
    assert!(build_prefix(&vec![0u32, 0]).is_none());
}

#[test]
fn build_prefix_rejects_any_zero_entry() {
    // A zero weight would break the strictly increasing cumulative table.
    assert!(build_prefix(&vec![3u32, 0, 2]).is_none());
}

#[test]
fn build_prefix_fails_fast_on_overflow() {
    assert!(build_prefix(&vec![u32::MAX, 1]).is_none());
}

#[test]
fn region_new_rejects_zero_weight_palette() {
    let r = Region::new("r".to_string(), 1, plain_field(), palette(&[("a", 0)]));
    assert!(r.is_none());
}

#[test]
fn region_new_rejects_out_of_range_height_field() {
    let mut bad = plain_field();
    bad.terrace_steps = fx(0.0);
    let r = Region::new("r".to_string(), 1, bad, palette(&[("a", 1)]));
    assert!(r.is_none());
}

#[test]
fn pick_object_at_walks_the_cumulative_intervals() {
    let region =
        Region::new("r".to_string(), 1, plain_field(), palette(&[("a", 3), ("b", 1), ("c", 2)]))
            .unwrap();
    let expect = [0usize, 0, 0, 1, 2, 2];
    for (draw, want) in expect.iter().enumerate() {
        assert_eq!(region.pick_object_at(draw as u32), *want);
    }
}

#[test]
fn region_new_rejects_a_zero_weight_entry() {
    // The cumulative palette table must be strictly increasing, so an
    // unselectable zero-weight entry is a configuration error.
    let r = Region::new("r".to_string(), 1, plain_field(), palette(&[("never", 0), ("always", 5)]));
    assert!(r.is_none());
}

#[test]
fn pick_object_with_one_entry_always_returns_it() {
    let region =
        Region::new("r".to_string(), 1, plain_field(), palette(&[("always", 5)])).unwrap();
    for _ in 0..64 {
        assert_eq!(region.pick_object(), "always");
    }
}

#[test]
fn pick_object_frequencies_follow_the_weights() {
    // Entry weights 1 and 3: over many draws the shares converge to 1/4
    // and 3/4 of the total.
    let region =
        Region::new("r".to_string(), 1, plain_field(), palette(&[("rare", 1), ("common", 3)]))
            .unwrap();
    let draws = 4000usize;
    let mut rare = 0usize;
    for _ in 0..draws {
        if region.pick_object() == "rare" {
            rare += 1;
        }
    }
    let share = rare as f64 / draws as f64;
    assert!((share - 0.25).abs() < 0.06, "rare share was {share}");
}

#[test]
fn default_region_is_empty() {
    let region = Region::default();
    assert_eq!(region.name, "");
    assert_eq!(region.weight, 0);
    assert_eq!(region.objects.len(), 0);
}

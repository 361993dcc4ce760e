use karang_lestari::fixed::{Fx, FX_SCALE};
use karang_lestari::streamer::{ChunkCoord, ChunkManager, ChunkRecord, ChunkSettings};

fn fx(x: f64) -> Fx {
    Fx { raw: (x * FX_SCALE as f64).round() as i64 }
}

fn settings() -> ChunkSettings {
    ChunkSettings { radius: 1, chunk_size: fx(2.0) }
}

fn records(coords: &[ChunkCoord], from: u64) -> Vec<ChunkRecord> {
    (0..coords.len())
        .map(|i| ChunkRecord { mesh: from + i as u64, decorations: vec![] })
        .collect()
}

#[test]
fn first_tick_loads_exactly_the_wanted_square() {
    // chunk_size = 2.0, radius 1, focus at (0, 0): the loaded set after the
    // tick is exactly the nine coordinates around the origin chunk.
    let mut manager = ChunkManager::default();
    let plan = manager.plan_tick(&settings(), fx(0.0), fx(0.0), true);
    assert_eq!(plan.focus_chunk, ChunkCoord { x: 0, y: 0 });
    assert_eq!(plan.to_create.len(), 9);
    assert_eq!(plan.to_evict.len(), 0);
    let recs = records(&plan.to_create, 100);
    let evicted = manager.apply_tick(&plan, recs);
    assert_eq!(evicted.len(), 0);
    assert_eq!(manager.loaded.len(), 9);
    for x in -1..=1i64 {
        for y in -1..=1i64 {
            assert!(manager.contains_coord(ChunkCoord { x, y }), "missing ({x},{y})");
        }
    }
    assert!(!manager.contains_coord(ChunkCoord { x: 2, y: 0 }));
}

#[test]
fn second_tick_at_the_same_focus_plans_nothing() {
    let mut manager = ChunkManager::default();
    let plan = manager.plan_tick(&settings(), fx(0.0), fx(0.0), true);
    let recs = records(&plan.to_create, 0);
    manager.apply_tick(&plan, recs);
    let again = manager.plan_tick(&settings(), fx(0.0), fx(0.0), true);
    assert_eq!(again.to_create.len(), 0);
    assert_eq!(again.to_evict.len(), 0);
}

#[test]
fn moving_far_away_swaps_the_whole_square() {
    let mut manager = ChunkManager::default();
    let plan = manager.plan_tick(&settings(), fx(0.0), fx(0.0), true);
    let recs = records(&plan.to_create, 0);
    manager.apply_tick(&plan, recs);

    let plan2 = manager.plan_tick(&settings(), fx(20.5), fx(20.5), true);
    assert_eq!(plan2.focus_chunk, ChunkCoord { x: 10, y: 10 });
    assert_eq!(plan2.to_create.len(), 9);
    assert_eq!(plan2.to_evict.len(), 9);
    let evicted = manager.apply_tick(&plan2, records(&plan2.to_create, 50));
    assert_eq!(evicted.len(), 9);
    assert_eq!(manager.loaded.len(), 9);
    assert!(manager.contains_coord(ChunkCoord { x: 10, y: 10 }));
    assert!(!manager.contains_coord(ChunkCoord { x: 0, y: 0 }));
}

#[test]
fn a_small_move_keeps_the_overlap() {
    let mut manager = ChunkManager::default();
    let plan = manager.plan_tick(&settings(), fx(0.0), fx(0.0), true);
    manager.apply_tick(&plan, records(&plan.to_create, 0));
    // One chunk to the right: three new columns come in, three go out.
    let origin_mesh = manager
        .loaded
        .iter()
        .find(|(c, _)| *c == ChunkCoord { x: 0, y: 0 })
        .map(|(_, r)| r.mesh)
        .unwrap();
    let plan2 = manager.plan_tick(&settings(), fx(2.5), fx(0.0), true);
    assert_eq!(plan2.focus_chunk, ChunkCoord { x: 1, y: 0 });
    assert_eq!(plan2.to_create.len(), 3);
    assert_eq!(plan2.to_evict.len(), 3);
    for c in &plan2.to_create {
        assert_eq!(c.x, 2);
    }
    for c in &plan2.to_evict {
        assert_eq!(c.x, -1);
    }
    manager.apply_tick(&plan2, records(&plan2.to_create, 30));
    // The surviving chunk kept its own record untouched.
    let still = manager
        .loaded
        .iter()
        .find(|(c, _)| *c == ChunkCoord { x: 0, y: 0 })
        .map(|(_, r)| r.mesh)
        .unwrap();
    assert_eq!(still, origin_mesh);
}

#[test]
fn before_the_readiness_gate_nothing_is_planned() {
    let manager = ChunkManager::default();
    let plan = manager.plan_tick(&settings(), fx(0.0), fx(0.0), false);
    assert_eq!(plan.to_create.len(), 0);
    assert_eq!(plan.to_evict.len(), 0);
}

#[test]
fn the_focus_chunk_is_the_floor_of_the_position() {
    let manager = ChunkManager::default();
    let plan = manager.plan_tick(&settings(), fx(-0.5), fx(3.9), true);
    assert_eq!(plan.focus_chunk, ChunkCoord { x: -1, y: 1 });
}

#[test]
fn eviction_returns_the_owned_records() {
    let mut manager = ChunkManager::default();
    let small = ChunkSettings { radius: 0, chunk_size: fx(2.0) };
    let plan = manager.plan_tick(&small, fx(0.0), fx(0.0), true);
    assert_eq!(plan.to_create.len(), 1);
    let rec = ChunkRecord { mesh: 777, decorations: vec![1, 2, 3] };
    manager.apply_tick(&plan, vec![rec]);
    let plan2 = manager.plan_tick(&small, fx(10.0), fx(0.0), true);
    let evicted = manager.apply_tick(&plan2, records(&plan2.to_create, 9));
    assert_eq!(evicted.len(), 1);
    assert_eq!(evicted[0].mesh, 777);
    assert_eq!(evicted[0].decorations, vec![1, 2, 3]);
}

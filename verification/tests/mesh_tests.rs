use karang_lestari::fixed::{Fx, FX_SCALE};
use karang_lestari::mesh::{generate_heightmap_mesh, mesh_sample_points};

fn fx(x: f64) -> Fx {
    Fx { raw: (x * FX_SCALE as f64).round() as i64 }
}

#[test]
fn the_grid_has_one_vertex_per_sample_point_and_two_triangles_per_quad() {
    let heights: Vec<Fx> = (0..9).map(|i| fx(i as f64)).collect();
    let m = generate_heightmap_mesh(fx(2.0), 2, &heights);
    assert_eq!(m.positions.len(), 9);
    assert_eq!(m.normals.len(), 9);
    assert_eq!(m.uvs.len(), 9);
    assert_eq!(m.indices.len(), 24);
    for n in &m.normals {
        assert_eq!((n.0.raw, n.1.raw, n.2.raw), (0, FX_SCALE, 0));
    }
    for &i in &m.indices {
        assert!((i as usize) < 9);
    }
}

#[test]
fn vertex_positions_span_the_chunk_and_carry_their_heights() {
    let heights: Vec<Fx> = (0..9).map(|i| fx(i as f64 * 0.125)).collect();
    let m = generate_heightmap_mesh(fx(2.0), 2, &heights);
    // Row-major: vertex 0 is the (-1, -1) corner, vertex 4 the centre,
    // vertex 8 the (+1, +1) corner of a 2.0-sized chunk.
    assert_eq!(m.positions[0].0.raw, fx(-1.0).raw);
    assert_eq!(m.positions[0].2.raw, fx(-1.0).raw);
    assert_eq!(m.positions[4].0.raw, fx(0.0).raw);
    assert_eq!(m.positions[4].2.raw, fx(0.0).raw);
    assert_eq!(m.positions[8].0.raw, fx(1.0).raw);
    assert_eq!(m.positions[8].2.raw, fx(1.0).raw);
    for k in 0..9 {
        assert_eq!(m.positions[k].1.raw, heights[k].raw, "height at vertex {k}");
    }
    assert_eq!(m.uvs[0].0.raw, 0);
    assert_eq!(m.uvs[8].0.raw, FX_SCALE);
    assert_eq!(m.uvs[4].0.raw, FX_SCALE / 2);
}

#[test]
fn quads_triangulate_with_consistent_winding() {
    let heights: Vec<Fx> = (0..9).map(|_| fx(0.0)).collect();
    let m = generate_heightmap_mesh(fx(2.0), 2, &heights);
    // First quad of a 2-subdivision grid: corners 0, 1, 3, 4.
    assert_eq!(&m.indices[0..6], &[0, 3, 1, 1, 3, 4]);
    // Second quad, one step right.
    assert_eq!(&m.indices[6..12], &[1, 4, 2, 2, 4, 5]);
}

#[test]
fn sample_points_are_the_grid_translated_to_the_chunk_centre() {
    let pts = mesh_sample_points(fx(2.0), 2, fx(100.0), fx(-40.0));
    assert_eq!(pts.len(), 9);
    assert_eq!(pts[0].0.raw, fx(99.0).raw);
    assert_eq!(pts[0].1.raw, fx(-41.0).raw);
    assert_eq!(pts[4].0.raw, fx(100.0).raw);
    assert_eq!(pts[4].1.raw, fx(-40.0).raw);
    assert_eq!(pts[8].0.raw, fx(101.0).raw);
    assert_eq!(pts[8].1.raw, fx(-39.0).raw);
}

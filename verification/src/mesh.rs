//! Terrain chunk meshes: a regular grid of sampled heights, triangulated.
//!
//! The grid spans the chunk's footprint, `(subdivisions + 1)` vertices per
//! side. The world points at which heights must be sampled are prescribed by
//! `mesh_sample_points`; `generate_heightmap_mesh` then builds positions,
//! texture coordinates and a triangle list with consistent winding. Vertex
//! normals are the fixed up vector by design, not recomputed from slope.

use crate::fixed::{Fx, FX_SCALE};
use crate::sampler::{CELL_MAX, CELL_MIN, POS_LIMIT};
use vstd::prelude::*;

verus! {

/// Local offset of grid line `i` of `n` from the chunk centre:
/// `(i / n - 1/2) * size` on the raw scale.
pub open spec fn grid_local(i: int, n: int, size: int) -> int {
    let s = FX_SCALE as int;
    (((i * s) / n - s / 2) * size) / s
}

/// Texture coordinate of grid line `i` of `n`: `i / n` on the raw scale.
pub open spec fn grid_uv(i: int, n: int) -> int {
    (i * (FX_SCALE as int)) / n
}

/// Vertex index of grid point `(ix, iz)` on a grid of `n` subdivisions.
pub open spec fn vert_index(ix: int, iz: int, n: int) -> int {
    iz * (n + 1) + ix
}

/// A chunk floor mesh: vertex positions and texture coordinates in grid
/// row-major order, and a triangle list over them.
pub struct MeshData {
    /// Vertex positions, local to the chunk centre: `(x, height, z)`.
    pub positions: Vec<(Fx, Fx, Fx)>,
    /// Per-vertex normals: the fixed up vector, by design not recomputed
    /// from slope.
    pub normals: Vec<(Fx, Fx, Fx)>,
    /// Per-vertex texture coordinates in `[0, 1]`.
    pub uvs: Vec<(Fx, Fx)>,
    /// Triangle list: six indices per grid quad, consistent winding.
    pub indices: Vec<u32>,
}

/// The world points at which the surface height must be sampled for a chunk
/// mesh: one per grid vertex, in row-major order.
///
/// The subdivision bound comes from the `u32` triangle index space: with
/// `n = 26754`, the six indices per quad still fit (`6 * n * n <= u32::MAX`),
/// while `n = 26755` would not.
pub fn mesh_sample_points(chunk_size: Fx, subdivisions: usize, wx: Fx, wz: Fx) -> (pts: Vec<
    (Fx, Fx),
>)
    requires
        1 <= subdivisions <= 26754,
        CELL_MIN as int <= chunk_size.v() <= CELL_MAX as int,
        -POS_LIMIT + CELL_MAX <= wx.raw <= POS_LIMIT - CELL_MAX,
        -POS_LIMIT + CELL_MAX <= wz.raw <= POS_LIMIT - CELL_MAX,
    ensures
        pts@.len() == (subdivisions + 1) * (subdivisions + 1),
        forall|k: int|
            0 <= k < pts@.len() ==> (#[trigger] pts@[k]).0.v() == grid_local(
                k % (subdivisions + 1) as int,
                subdivisions as int,
                chunk_size.v(),
            ) + wx.v() && pts@[k].1.v() == grid_local(
                k / (subdivisions + 1) as int,
                subdivisions as int,
                chunk_size.v(),
            ) + wz.v(),
        forall|k: int|
            0 <= k < pts@.len() ==> -POS_LIMIT <= (#[trigger] pts@[k]).0.v() <= POS_LIMIT
                && -POS_LIMIT <= pts@[k].1.v() <= POS_LIMIT,
{
    let n: usize = subdivisions;
    proof {
        assert((n as int + 1) * (n as int + 1) <= 715830025 && (n as int) * (n as int)
            <= 715776516) by (nonlinear_arith)
            requires
                1 <= n as int <= 26754,
        ;
    }
    let count: usize = (n + 1) * (n + 1);
    let mut pts: Vec<(Fx, Fx)> = Vec::new();
    let mut k: usize = 0;
    while k < count
        invariant
            1 <= n <= 26754,
            count == (n + 1) * (n + 1),
            CELL_MIN as int <= chunk_size.v() <= CELL_MAX as int,
            -POS_LIMIT + CELL_MAX <= wx.raw <= POS_LIMIT - CELL_MAX,
            -POS_LIMIT + CELL_MAX <= wz.raw <= POS_LIMIT - CELL_MAX,
            0 <= k <= count,
            pts@.len() == k,
            forall|j: int|
                0 <= j < k ==> (#[trigger] pts@[j]).0.v() == grid_local(
                    j % (n + 1) as int,
                    n as int,
                    chunk_size.v(),
                ) + wx.v() && pts@[j].1.v() == grid_local(
                    j / (n + 1) as int,
                    n as int,
                    chunk_size.v(),
                ) + wz.v(),
            forall|j: int|
                0 <= j < k ==> -POS_LIMIT <= (#[trigger] pts@[j]).0.v() <= POS_LIMIT
                    && -POS_LIMIT <= pts@[j].1.v() <= POS_LIMIT,
        decreases count - k,
    {
        let ix: usize = k % (n + 1);
        let iz: usize = k / (n + 1);
        proof {
            assert((n as int + 1) * (n as int + 1) - 1 == (n as int) * (n as int + 1) + n as int)
                by (nonlinear_arith);
            vstd::arithmetic::div_mod::lemma_fundamental_div_mod_converse(
                (n as int + 1) * (n as int + 1) - 1,
                n as int + 1,
                n as int,
                n as int,
            );
            vstd::arithmetic::div_mod::lemma_div_is_ordered(
                k as int,
                (n as int + 1) * (n as int + 1) - 1,
                n as int + 1,
            );
        }
        let lx: Fx = grid_local_fx(ix, n, chunk_size);
        let lz: Fx = grid_local_fx(iz, n, chunk_size);
        pts.push((lx.add(wx), lz.add(wz)));
        k = k + 1;
    }
    pts
}

/// The local offset of grid line `i`, as an executable value.
fn grid_local_fx(i: usize, n: usize, size: Fx) -> (r: Fx)
    requires
        1 <= n <= 26754,
        i <= n,
        CELL_MIN as int <= size.v() <= CELL_MAX as int,
    ensures
        r.v() == grid_local(i as int, n as int, size.v()),
        -CELL_MAX as int <= r.v() <= CELL_MAX as int,
{
    let u_raw: u64 = (i as u64 * 1048576) / (n as u64);
    proof {
        vstd::arithmetic::div_mod::lemma_div_is_ordered(
            i as int * 1048576,
            n as int * 1048576,
            n as int,
        );
        vstd::arithmetic::div_mod::lemma_div_multiples_vanish(1048576, n as int);
        assert(i as int * 1048576 >= 0) by (nonlinear_arith)
            requires
                i >= 0,
        ;
        crate::fixed::lemma_div_shrinks(i as int * 1048576, n as int);
        assert(n as int * 1048576 == 1048576 * n as int) by (nonlinear_arith);
    }
    let u: Fx = Fx::from_raw(u_raw as i64);
    let centred: Fx = u.sub(Fx::from_raw(524288));
    proof {
        assert((-524288) * CELL_MAX as int <= centred.v() * size.v() <= 524288 * CELL_MAX as int)
            by (nonlinear_arith)
            requires
                -524288 <= centred.v() <= 524288,
                CELL_MIN as int <= size.v() <= CELL_MAX as int,
                CELL_MIN == 65536i64,
                CELL_MAX == 536870912i64,
        ;
        crate::fixed::lemma_scaled_quotient_bound(
            centred.v() * size.v(),
            FX_SCALE as int,
            268435456,
        );
    }
    centred.mul(size)
}

/// Build a chunk floor mesh from the heights sampled at this chunk's grid
/// points (`heights[k]` belongs to the `k`-th point of
/// `mesh_sample_points`).
///
/// Every vertex carries its sampled height; each grid quad becomes two
/// triangles with consistent winding, and every index is in range.
pub fn generate_heightmap_mesh(chunk_size: Fx, subdivisions: usize, heights: &Vec<Fx>) -> (m:
    MeshData)
    requires
        1 <= subdivisions <= 26754,
        CELL_MIN as int <= chunk_size.v() <= CELL_MAX as int,
        heights@.len() == (subdivisions + 1) * (subdivisions + 1),
    ensures
        m.positions@.len() == (subdivisions + 1) * (subdivisions + 1),
        m.normals@.len() == (subdivisions + 1) * (subdivisions + 1),
        m.uvs@.len() == (subdivisions + 1) * (subdivisions + 1),
        m.indices@.len() == 6 * subdivisions * subdivisions,
        forall|k: int|
            0 <= k < m.normals@.len() ==> (#[trigger] m.normals@[k]) == (
                Fx { raw: 0 },
                Fx { raw: FX_SCALE },
                Fx { raw: 0 },
            ),
        forall|k: int|
            0 <= k < m.positions@.len() ==> (#[trigger] m.positions@[k]).0.v() == grid_local(
                k % (subdivisions + 1) as int,
                subdivisions as int,
                chunk_size.v(),
            ) && m.positions@[k].1 == heights@[k] && m.positions@[k].2.v() == grid_local(
                k / (subdivisions + 1) as int,
                subdivisions as int,
                chunk_size.v(),
            ),
        forall|k: int|
            0 <= k < m.uvs@.len() ==> (#[trigger] m.uvs@[k]).0.v() == grid_uv(
                k % (subdivisions + 1) as int,
                subdivisions as int,
            ) && m.uvs@[k].1.v() == grid_uv(k / (subdivisions + 1) as int, subdivisions as int),
        forall|q: int|
            0 <= q < subdivisions * subdivisions ==> {
                let ix = q % subdivisions as int;
                let iz = q / subdivisions as int;
                let n = subdivisions as int;
                &&& (#[trigger] m.indices@[6 * q]) as int == vert_index(ix, iz, n)
                &&& m.indices@[6 * q + 1] as int == vert_index(ix, iz + 1, n)
                &&& m.indices@[6 * q + 2] as int == vert_index(ix + 1, iz, n)
                &&& m.indices@[6 * q + 3] as int == vert_index(ix + 1, iz, n)
                &&& m.indices@[6 * q + 4] as int == vert_index(ix, iz + 1, n)
                &&& m.indices@[6 * q + 5] as int == vert_index(ix + 1, iz + 1, n)
            },
        forall|j: int|
            0 <= j < m.indices@.len() ==> (#[trigger] m.indices@[j]) < (subdivisions + 1) * (
            subdivisions + 1),
{
    let n: usize = subdivisions;
    proof {
        assert((n as int + 1) * (n as int + 1) <= 715830025 && (n as int) * (n as int)
            <= 715776516) by (nonlinear_arith)
            requires
                1 <= n as int <= 26754,
        ;
    }
    let count: usize = (n + 1) * (n + 1);
    let mut positions: Vec<(Fx, Fx, Fx)> = Vec::new();
    let mut normals: Vec<(Fx, Fx, Fx)> = Vec::new();
    let mut uvs: Vec<(Fx, Fx)> = Vec::new();
    let mut k: usize = 0;
    while k < count
        invariant
            1 <= n <= 26754,
            count == (n + 1) * (n + 1),
            CELL_MIN as int <= chunk_size.v() <= CELL_MAX as int,
            heights@.len() == count,
            0 <= k <= count,
            positions@.len() == k,
            normals@.len() == k,
            uvs@.len() == k,
            forall|j: int|
                0 <= j < k ==> (#[trigger] normals@[j]) == (
                    Fx { raw: 0 },
                    Fx { raw: FX_SCALE },
                    Fx { raw: 0 },
                ),
            forall|j: int|
                0 <= j < k ==> (#[trigger] positions@[j]).0.v() == grid_local(
                    j % (n + 1) as int,
                    n as int,
                    chunk_size.v(),
                ) && positions@[j].1 == heights@[j] && positions@[j].2.v() == grid_local(
                    j / (n + 1) as int,
                    n as int,
                    chunk_size.v(),
                ),
            forall|j: int|
                0 <= j < k ==> (#[trigger] uvs@[j]).0.v() == grid_uv(j % (n + 1) as int, n as int)
                    && uvs@[j].1.v() == grid_uv(j / (n + 1) as int, n as int),
        decreases count - k,
    {
        let ix: usize = k % (n + 1);
        let iz: usize = k / (n + 1);
        proof {
            assert((n as int + 1) * (n as int + 1) - 1 == (n as int) * (n as int + 1) + n as int)
                by (nonlinear_arith);
            vstd::arithmetic::div_mod::lemma_fundamental_div_mod_converse(
                (n as int + 1) * (n as int + 1) - 1,
                n as int + 1,
                n as int,
                n as int,
            );
            vstd::arithmetic::div_mod::lemma_div_is_ordered(
                k as int,
                (n as int + 1) * (n as int + 1) - 1,
                n as int + 1,
            );
        }
        let lx: Fx = grid_local_fx(ix, n, chunk_size);
        let lz: Fx = grid_local_fx(iz, n, chunk_size);
        let u: Fx = grid_uv_fx(ix, n);
        let v: Fx = grid_uv_fx(iz, n);
        positions.push((lx, heights[k], lz));
        normals.push((Fx { raw: 0 }, Fx { raw: FX_SCALE }, Fx { raw: 0 }));
        uvs.push((u, v));
        k = k + 1;
    }
    let mut indices: Vec<u32> = Vec::new();
    let nn: usize = n * n;
    let mut q: usize = 0;
    while q < nn
        invariant
            1 <= n <= 26754,
            nn == n * n,
            0 <= q <= n * n,
            indices@.len() == 6 * q,
            forall|p: int|
                0 <= p < q ==> {
                    let ix = p % n as int;
                    let iz = p / n as int;
                    &&& (#[trigger] indices@[6 * p]) as int == vert_index(ix, iz, n as int)
                    &&& indices@[6 * p + 1] as int == vert_index(ix, iz + 1, n as int)
                    &&& indices@[6 * p + 2] as int == vert_index(ix + 1, iz, n as int)
                    &&& indices@[6 * p + 3] as int == vert_index(ix + 1, iz, n as int)
                    &&& indices@[6 * p + 4] as int == vert_index(ix, iz + 1, n as int)
                    &&& indices@[6 * p + 5] as int == vert_index(ix + 1, iz + 1, n as int)
                },
            forall|j: int| 0 <= j < indices@.len() ==> (#[trigger] indices@[j]) < (n + 1) * (n + 1),
        decreases n * n - q,
    {
        let ix: usize = q % n;
        let iz: usize = q / n;
        proof {
            assert(q as int == (q as int / n as int) * n as int + q as int % n as int) by {
                vstd::arithmetic::div_mod::lemma_fundamental_div_mod(q as int, n as int);
                assert(n as int * (q as int / n as int) == (q as int / n as int) * n as int)
                    by (nonlinear_arith);
            }
            assert((q as int) < (n as int) * (n as int));
            assert((iz as int) < n as int) by (nonlinear_arith)
                requires
                    q as int == iz as int * n as int + ix as int,
                    (q as int) < (n as int) * (n as int),
                    0 <= ix as int && (ix as int) < n as int,
                    n as int >= 1,
            ;
            assert((iz as int + 1) * (n as int + 1) + ix as int + 1 < (n as int + 1) * (n as int + 1)) by (nonlinear_arith)
                requires
                    0 <= ix as int && (ix as int) < n as int,
                    0 <= iz as int && (iz as int) < n as int,
            ;
        }
        proof {
            assert((iz as int + 1) * (n as int + 1) + ix as int + 1 <= 715830025)
                by (nonlinear_arith)
                requires
                    0 <= ix as int && (ix as int) < n as int,
                    0 <= iz as int && (iz as int) < n as int,
                    n as int <= 26754,
            ;
            assert((iz as int) * (n as int + 1) <= (iz as int + 1) * (n as int + 1))
                by (nonlinear_arith)
                requires
                    0 <= iz as int,
                    n as int >= 1,
            ;
        }
        let i0: u32 = (iz * (n + 1) + ix) as u32;
        let i1: u32 = (iz * (n + 1) + ix + 1) as u32;
        let i2: u32 = ((iz + 1) * (n + 1) + ix) as u32;
        let i3: u32 = ((iz + 1) * (n + 1) + ix + 1) as u32;
        let ghost pre = indices@;
        indices.push(i0);
        indices.push(i2);
        indices.push(i1);
        indices.push(i1);
        indices.push(i2);
        indices.push(i3);
        proof {
            assert(indices@ =~= pre + seq![i0, i2, i1, i1, i2, i3]);
            assert(forall|j: int| 0 <= j < pre.len() ==> #[trigger] indices@[j] == pre[j]);
            assert(indices@[6 * q as int] == i0);
            assert(indices@[6 * q as int + 1] == i2);
            assert(indices@[6 * q as int + 2] == i1);
            assert(indices@[6 * q as int + 3] == i1);
            assert(indices@[6 * q as int + 4] == i2);
            assert(indices@[6 * q as int + 5] == i3);
        }
        q = q + 1;
    }
    proof {
        assert(6 * ((n as int) * (n as int)) == 6 * (n as int) * (n as int)) by (nonlinear_arith);
    }
    MeshData { positions, normals, uvs, indices }
}

/// The texture coordinate of grid line `i`, as an executable value.
fn grid_uv_fx(i: usize, n: usize) -> (r: Fx)
    requires
        1 <= n <= 26754,
        i <= n,
    ensures
        r.v() == grid_uv(i as int, n as int),
        0 <= r.v() <= FX_SCALE,
{
    let u_raw: u64 = (i as u64 * 1048576) / (n as u64);
    proof {
        vstd::arithmetic::div_mod::lemma_div_is_ordered(
            i as int * 1048576,
            n as int * 1048576,
            n as int,
        );
        vstd::arithmetic::div_mod::lemma_div_multiples_vanish(1048576, n as int);
        assert(i as int * 1048576 >= 0) by (nonlinear_arith)
            requires
                i >= 0,
        ;
        crate::fixed::lemma_div_shrinks(i as int * 1048576, n as int);
        assert(n as int * 1048576 == 1048576 * n as int) by (nonlinear_arith);
    }
    Fx::from_raw(u_raw as i64)
}

} // verus!

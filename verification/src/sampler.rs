//! The biome sampler: jittered-grid nearest-site region blending.
//!
//! The plane is cut into square cells of `cell_size`. Each cell owns one
//! "site", jittered off the cell centre by a hash of the cell coordinates,
//! and one region, drawn by weighted hash from the region palette. A query
//! point is blended between the regions of the three nearest sites among the
//! nine cells around it. Everything here is a pure function of the sampler's
//! configuration and the query point.

use crate::fixed::{
    lemma_div_shrinks, lemma_fx_mul_fits, lemma_product_bound, lemma_sqrt_floor_monotonic,
    sqrt_floor, Fx, FX_SCALE,
};
use crate::hash::{mix, mix_spec, REGION_SALT};
use crate::height::clamp_spec;
use crate::placement::{
    gradient_spec, slope_gradient, slope_sq_spec, surface_normal, HEIGHT_LIMIT, SLOPE_EPS_MIN,
};
use crate::region::Region;
use crate::weights::{
    build_prefix, lemma_selected_index_is, pick_index, prefix_ok, prefix_sum, selected_index,
    strictly_increasing,
};
use vstd::arithmetic::div_mod::{
    lemma_div_is_ordered, lemma_div_multiples_vanish, lemma_fundamental_div_mod, lemma_mod_bound,
};
use vstd::arithmetic::mul::{lemma_mul_inequality, lemma_mul_is_commutative};
use vstd::prelude::*;

verus! {

/// Greatest magnitude of a query-point coordinate the sampler accepts.
pub const POS_LIMIT: i64 = 2199023255552;

/// Smallest accepted cell size (one sixteenth of a unit).
pub const CELL_MIN: i64 = 65536;

/// Largest accepted cell size (512 units).
pub const CELL_MAX: i64 = 536870912;

/// Largest accepted blend distance (1024 units).
pub const BLEND_MAX: i64 = 1073741824;

/// The selection weights of a region list, in order.
pub open spec fn region_weights(rs: Seq<Region>) -> Seq<u32> {
    rs.map(|i: int, r: Region| r.weight)
}

/// Jittered-grid sampler over a weighted region palette.
pub struct RegionSampler {
    /// The regions, in palette order.
    pub regions: Vec<Region>,
    /// Cumulative region weights; `prefix[i]` sums weights of regions `0..=i`.
    pub prefix: Vec<u32>,
    /// Sum of all region weights.
    pub total_weight: u32,
    /// Side length of a grid cell.
    pub cell_size: Fx,
    /// How far a site may wander from its cell centre, as a fraction of the
    /// cell size, in `[0, 1]`.
    pub jitter: Fx,
    /// Distance over which the influence of a farther site fades in.
    pub blend_dist: Fx,
    /// Seed of the cell hash.
    pub seed: u64,
}

/// One of the two halves of a cell hash, mapped onto `[0, 2)` on the
/// fixed-point scale; subtracting one unit gives a jitter offset in `[-1, 1)`.
pub open spec fn jitter_part(h: u64, upper: bool) -> int {
    let part = if upper {
        (h >> 32u64) as int
    } else {
        (h & 0xffffffffu64) as int
    };
    (part * 2 * (FX_SCALE as int)) / 0x100000000
}

impl RegionSampler {
    /// Cumulative region weights exact and strictly increasing with a
    /// positive total, every region well-formed, and grid parameters in
    /// range.
    pub open spec fn wf(self) -> bool {
        &&& prefix_ok(region_weights(self.regions@), self.prefix@, self.total_weight as int)
        &&& self.total_weight > 0
        &&& (forall|i: int| 0 <= i < self.regions@.len() ==> (#[trigger] self.regions@[i]).weight > 0)
        &&& strictly_increasing(self.prefix@)
        &&& (forall|i: int| 0 <= i < self.regions@.len() ==> (#[trigger] self.regions@[i]).wf())
        &&& CELL_MIN as int <= self.cell_size.v() <= CELL_MAX as int
        &&& 0 <= self.jitter.v() <= FX_SCALE as int
        &&& 0 < self.blend_dist.v() <= BLEND_MAX as int
    }

    /// The grid cell that a coordinate falls in.
    pub open spec fn cell_of(self, p: int) -> int {
        p / self.cell_size.v()
    }

    /// A site coordinate: cell centre plus the jitter offset carried by
    /// `h_part`, all scaled by the cell size.
    pub open spec fn site_coord(self, c: int, h_part: int) -> int {
        let s = FX_SCALE as int;
        ((c * s + s / 2 + ((h_part - s) * self.jitter.v()) / s) * self.cell_size.v()) / s
    }

    /// The x coordinate of cell `(cx, cy)`'s site.
    pub open spec fn site_x(self, cx: int, cy: int) -> int {
        self.site_coord(cx, jitter_part(mix_spec(cx as i32, cy as i32, self.seed), false))
    }

    /// The y coordinate of cell `(cx, cy)`'s site.
    pub open spec fn site_y(self, cx: int, cy: int) -> int {
        self.site_coord(cy, jitter_part(mix_spec(cx as i32, cy as i32, self.seed), true))
    }

    /// The region assigned to cell `(cx, cy)`: an independent weighted draw
    /// from the region palette, salted so it is uncorrelated with the jitter.
    pub open spec fn region_at(self, cx: int, cy: int) -> int {
        let h = mix_spec(cx as i32, cy as i32, self.seed ^ REGION_SALT);
        selected_index(region_weights(self.regions@), (h % (self.total_weight as u64)) as int)
    }

    /// Squared distance, on the fixed-point scale, from `(px, py)` to the
    /// site of cell `(cx, cy)`.
    pub open spec fn dist2_at(self, px: int, py: int, cx: int, cy: int) -> int {
        let s = FX_SCALE as int;
        let dx = px - self.site_x(cx, cy);
        let dy = py - self.site_y(cx, cy);
        (dx * dx) / s + (dy * dy) / s
    }

    /// Build a sampler from a region palette, computing the cumulative
    /// region-weight table.
    ///
    /// Fails fast — returns `None` — when the region list is empty, when any
    /// region's selection weight is zero (the cumulative table must be
    /// strictly increasing), when the total overflows, or when a grid
    /// parameter is out of range.
    pub fn new(
        regions: Vec<Region>,
        cell_size: Fx,
        jitter: Fx,
        blend_dist: Fx,
        seed: u64,
    ) -> (r: Option<RegionSampler>)
        requires
            forall|i: int| 0 <= i < regions@.len() ==> (#[trigger] regions@[i]).wf(),
        ensures
            match r {
                Some(sampler) => {
                    &&& sampler.wf()
                    &&& sampler.regions@ == regions@
                    &&& sampler.cell_size == cell_size
                    &&& sampler.jitter == jitter
                    &&& sampler.blend_dist == blend_dist
                    &&& sampler.seed == seed
                },
                None => {
                    ||| regions@.len() == 0
                    ||| exists|i: int|
                        0 <= i < regions@.len() && (#[trigger] regions@[i]).weight == 0
                    ||| prefix_sum(region_weights(regions@), regions@.len() as int) > u32::MAX
                    ||| !(CELL_MIN <= cell_size.raw <= CELL_MAX)
                    ||| !(0 <= jitter.raw <= FX_SCALE)
                    ||| !(0 < blend_dist.raw <= BLEND_MAX)
                },
            },
    {
        if !(CELL_MIN <= cell_size.raw && cell_size.raw <= CELL_MAX) {
            return None;
        }
        if !(0 <= jitter.raw && jitter.raw <= FX_SCALE) {
            return None;
        }
        if !(0 < blend_dist.raw && blend_dist.raw <= BLEND_MAX) {
            return None;
        }
        let mut ws: Vec<u32> = Vec::new();
        let mut k: usize = 0;
        while k < regions.len()
            invariant
                0 <= k <= regions@.len(),
                ws@ == region_weights(regions@).take(k as int),
            decreases regions@.len() - k,
        {
            ws.push(regions[k].weight);
            proof {
                assert(ws@ =~= region_weights(regions@).take(k as int + 1));
            }
            k = k + 1;
        }
        proof {
            assert(ws@ =~= region_weights(regions@));
        }
        match build_prefix(&ws) {
            Some((prefix, total)) => {
                proof {
                    assert forall|i: int|
                        0 <= i < regions@.len() implies (#[trigger] regions@[i]).weight > 0 by {
                        assert(region_weights(regions@)[i] > 0);
                    }
                }
                Some(
                    RegionSampler {
                        regions,
                        prefix,
                        total_weight: total,
                        cell_size,
                        jitter,
                        blend_dist,
                        seed,
                    },
                )
            },
            None => {
                proof {
                    let vs = region_weights(regions@);
                    if exists|i: int| 0 <= i < vs.len() && #[trigger] vs[i] == 0 {
                        let i = choose|i: int| 0 <= i < vs.len() && #[trigger] vs[i] == 0;
                        assert(regions@[i].weight == 0);
                    }
                }
                None
            },
        }
    }

    /// The mixer, exposed as the sampler's cell hash.
    pub fn hash(&self, x: i32, y: i32, seed: u64) -> (r: u64)
        ensures
            r == mix_spec(x, y, seed),
    {
        mix(x, y, seed)
    }

    /// The jittered site of cell `(cx, cy)`.
    pub fn site_for_cell(&self, cx: i32, cy: i32) -> (r: (Fx, Fx))
        requires
            self.wf(),
            -33554434 <= cx <= 33554434,
            -33554434 <= cy <= 33554434,
        ensures
            r.0.v() == self.site_x(cx as int, cy as int),
            r.1.v() == self.site_y(cx as int, cy as int),
    {
        let h: u64 = mix(cx, cy, self.seed);
        let lo: u64 = h & 0xffffffff;
        let hi: u64 = h >> 32;
        proof {
            assert(h & 0xffffffff <= 0xffffffff) by (bit_vector);
            assert(h >> 32 <= 0xffffffff) by (bit_vector);
        }
        let jx: i64 = ((lo * 2097152) / 4294967296) as i64;
        let jy: i64 = ((hi * 2097152) / 4294967296) as i64;
        let sx: Fx = self.site_part(cx, jx);
        let sy: Fx = self.site_part(cy, jy);
        (sx, sy)
    }

    /// One coordinate of a site: cell index `c`, jitter half `j` in `[0, 2)`.
    fn site_part(&self, c: i32, j: i64) -> (r: Fx)
        requires
            self.wf(),
            -33554434 <= c <= 33554434,
            0 <= j < 2097152,
        ensures
            r.v() == self.site_coord(c as int, j as int),
    {
        let ghost s = FX_SCALE as int;
        proof {
            lemma_fx_mul_fits(j - FX_SCALE, self.jitter.v(), FX_SCALE as int, FX_SCALE as int, FX_SCALE as int);
        }
        let off: Fx = Fx::from_raw(j - FX_SCALE).mul(self.jitter);
        let centre: Fx = Fx::from_int(c as i64).add(Fx::from_raw(524288)).add(off);
        proof {
            assert(-0x200000400000 <= centre.v() <= 0x200000400000);
            assert(0x200000400000 * 0x20000000 <= 0x80000000000000int * 0x100000);
            lemma_fx_mul_fits(centre.v(), self.cell_size.v(), 0x200000400000, 0x20000000, 0x80000000000000);
        }
        centre.mul(self.cell_size)
    }

    /// Cell x of the `k`-th candidate in scan order (row-major around the
    /// containing cell).
    pub open spec fn cand_cell_x(self, px: int, k: int) -> int {
        self.cell_of(px) + k % 3 - 1
    }

    /// Cell y of the `k`-th candidate in scan order.
    pub open spec fn cand_cell_y(self, py: int, k: int) -> int {
        self.cell_of(py) + k / 3 - 1
    }

    /// Squared distance from the query point to the `k`-th candidate site.
    pub open spec fn cand_dist(self, px: int, py: int, k: int) -> int {
        self.dist2_at(px, py, self.cand_cell_x(px, k), self.cand_cell_y(py, k))
    }

    /// Region of the `k`-th candidate cell.
    pub open spec fn cand_region(self, px: int, py: int, k: int) -> int {
        self.region_at(self.cand_cell_x(px, k), self.cand_cell_y(py, k))
    }

    /// The three nearest sites after scanning the first `k` candidates.
    pub open spec fn top3_scan(self, px: int, py: int, k: int) -> Top3
        decreases k,
    {
        if k <= 0 {
            top3_empty()
        } else {
            top3_insert(
                self.top3_scan(px, py, k - 1),
                self.cand_dist(px, py, k - 1),
                self.cand_region(px, py, k - 1),
            )
        }
    }

    /// The region ids returned for a query at `(px, py)`: nearest site first.
    pub open spec fn sample_region_ids(self, px: int, py: int) -> (int, int, int) {
        let t = self.top3_scan(px, py, 9);
        (t.i1, t.i2, t.i3)
    }

    /// The normalized blend weights returned for a query at `(px, py)`.
    pub open spec fn sample_region_weights(self, px: int, py: int) -> (int, int, int) {
        let s = FX_SCALE as int;
        let b = self.blend_dist.v();
        let t = self.top3_scan(px, py, 9);
        let sd1 = sqrt_floor(t.d1 * s);
        let sd2 = sqrt_floor(t.d2 * s);
        let sd3 = sqrt_floor(t.d3 * s);
        let w1 = clamp_spec(b - (sd1 - sd1), 0, b);
        let w2 = clamp_spec(b - (sd2 - sd1), 0, b);
        let w3 = clamp_spec(b - (sd3 - sd1), 0, b);
        let sum = w1 + w2 + w3;
        ((w1 * s) / sum, (w2 * s) / sum, (w3 * s) / sum)
    }

    /// A well-formed sampler has at least one region.
    pub proof fn lemma_regions_nonempty(self)
        requires
            self.wf(),
        ensures
            self.regions@.len() >= 1,
    {
        if self.regions@.len() == 0 {
            assert(prefix_sum(region_weights(self.regions@), 0) == 0);
        }
    }

    /// Jitter keeps a cell's site within the band from one cell before it to
    /// two cells after it.
    proof fn lemma_site_band(self, c: int, hp: int)
        requires
            self.wf(),
            0 <= hp <= 2 * (FX_SCALE as int),
        ensures
            (c - 1) * self.cell_size.v() <= self.site_coord(c, hp) <= (c + 2) * self.cell_size.v(),
    {
        let s = FX_SCALE as int;
        let cs = self.cell_size.v();
        let prod = (hp - s) * self.jitter.v();
        lemma_product_bound(hp - s, self.jitter.v(), s, s);
        let off = prod / s;
        lemma_div_is_ordered(-(s * s), prod, s);
        lemma_div_is_ordered(prod, s * s, s);
        assert(s * s / s == s) by (nonlinear_arith)
            requires
                s >= 1,
        ;
        assert((-(s * s)) / s == -s) by (nonlinear_arith)
            requires
                s >= 1,
        ;
        let inner = c * s + s / 2 + off;
        assert((c - 1) * s <= inner <= (c + 2) * s) by (nonlinear_arith)
            requires
                inner == c * s + s / 2 + off,
                -s <= off <= s,
                s == 1048576,
        ;
        lemma_mul_inequality((c - 1) * s, inner, cs);
        lemma_mul_inequality(inner, (c + 2) * s, cs);
        lemma_div_is_ordered((c - 1) * s * cs, inner * cs, s);
        lemma_div_is_ordered(inner * cs, (c + 2) * s * cs, s);
        assert((c - 1) * s * cs / s == (c - 1) * cs) by (nonlinear_arith)
            requires
                s >= 1,
        ;
        assert((c + 2) * s * cs / s == (c + 2) * cs) by (nonlinear_arith)
            requires
                s >= 1,
        ;
    }

    /// A candidate's squared distance is nonnegative and bounded: the site
    /// lies within three cells of the query point.
    proof fn lemma_cand_dist_bound(self, px: int, py: int, k: int)
        requires
            self.wf(),
            -POS_LIMIT as int <= px <= POS_LIMIT as int,
            -POS_LIMIT as int <= py <= POS_LIMIT as int,
            0 <= k < 9,
        ensures
            0 <= self.cand_dist(px, py, k) <= 0x48000000000,
    {
        let s = FX_SCALE as int;
        let cs = self.cell_size.v();
        let cx = self.cand_cell_x(px, k);
        let cy = self.cand_cell_y(py, k);
        let h = mix_spec(cx as i32, cy as i32, self.seed);
        lemma_jitter_part_range(h, false);
        lemma_jitter_part_range(h, true);
        self.lemma_site_band(cx, jitter_part(h, false));
        self.lemma_site_band(cy, jitter_part(h, true));
        lemma_point_site_gap(px, self.site_x(cx, cy), self.cell_of(px), cx, cs);
        lemma_point_site_gap(py, self.site_y(cx, cy), self.cell_of(py), cy, cs);
        let dx = px - self.site_x(cx, cy);
        let dy = py - self.site_y(cx, cy);
        lemma_dist_term_bound(dx, cs);
        lemma_dist_term_bound(dy, cs);
    }

    /// Whether scan entry `(dd, ii)` is one of the first `k` candidates.
    pub open spec fn is_cand(self, px: int, py: int, k: int, dd: int, ii: int) -> bool {
        exists|j: int|
            0 <= j < k && dd == self.cand_dist(px, py, j) && ii == #[trigger] self.cand_region(
                px,
                py,
                j,
            )
    }

    /// Ordering and witness properties of the scan: the three kept distances
    /// are ordered, the first is minimal among all candidates seen, and each
    /// kept entry is a real candidate once enough have been seen.
    #[verifier::rlimit(50)]
    proof fn lemma_top3_props(self, px: int, py: int, k: int)
        requires
            self.wf(),
            -POS_LIMIT as int <= px <= POS_LIMIT as int,
            -POS_LIMIT as int <= py <= POS_LIMIT as int,
            0 <= k <= 9,
        ensures
            ({
                let t = self.top3_scan(px, py, k);
                &&& t.d1 <= t.d2 <= t.d3 <= 0x7fffffffffffffff
                &&& (forall|j: int| 0 <= j < k ==> #[trigger] self.cand_dist(px, py, j) >= t.d1)
                &&& (k >= 1 ==> self.is_cand(px, py, k, t.d1, t.i1))
                &&& (k >= 2 ==> self.is_cand(px, py, k, t.d2, t.i2))
                &&& (k >= 3 ==> self.is_cand(px, py, k, t.d3, t.i3))
                &&& (k < 1 ==> t.d1 == 0x7fffffffffffffff)
                &&& (k < 2 ==> t.d2 == 0x7fffffffffffffff)
                &&& (k < 3 ==> t.d3 == 0x7fffffffffffffff)
            }),
        decreases k,
    {
        if k > 0 {
            self.lemma_top3_props(px, py, k - 1);
            self.lemma_cand_dist_bound(px, py, k - 1);
            let t0 = self.top3_scan(px, py, k - 1);
            let d = self.cand_dist(px, py, k - 1);
            let id = self.cand_region(px, py, k - 1);
            let t = self.top3_scan(px, py, k);
            assert(t == top3_insert(t0, d, id));
            assert(d < 0x7fffffffffffffff);
            assert(self.is_cand(px, py, k, d, id)) by {
                assert(d == self.cand_dist(px, py, k - 1) && id == self.cand_region(
                    px,
                    py,
                    k - 1,
                ));
            }
            assert forall|dd: int, ii: int|
                self.is_cand(px, py, k - 1, dd, ii) implies self.is_cand(
                px,
                py,
                k,
                dd,
                ii,
            ) by {
                let j0 = choose|j: int|
                    0 <= j < k - 1 && dd == self.cand_dist(px, py, j) && ii
                        == #[trigger] self.cand_region(px, py, j);
                assert(0 <= j0 < k && dd == self.cand_dist(px, py, j0) && ii == self.cand_region(
                    px,
                    py,
                    j0,
                ));
            }
            assert forall|j: int| 0 <= j < k implies #[trigger] self.cand_dist(px, py, j)
                >= t.d1 by {
                if j < k - 1 {
                    assert(self.cand_dist(px, py, j) >= t0.d1);
                }
            }
            if d < t0.d1 {
                assert(k >= 2 ==> self.is_cand(px, py, k, t.d2, t.i2));
                assert(k >= 3 ==> self.is_cand(px, py, k, t.d3, t.i3));
            } else if d < t0.d2 {
                assert(k >= 1 ==> self.is_cand(px, py, k, t.d1, t.i1));
                assert(k >= 3 ==> self.is_cand(px, py, k, t.d3, t.i3));
            } else if d < t0.d3 {
                assert(k >= 1 ==> self.is_cand(px, py, k, t.d1, t.i1));
                assert(k >= 2 ==> self.is_cand(px, py, k, t.d2, t.i2));
            } else {
                assert(t0.d3 < 0x7fffffffffffffff);
                assert(k - 1 >= 3);
            }
        }
    }
}

/// One squared-distance term `(dx * dx) / FX_SCALE` is nonnegative and
/// bounded when `|dx|` is at most three cells.
proof fn lemma_dist_term_bound(dx: int, cs: int)
    requires
        -3 * cs <= dx <= 3 * cs,
        1 <= cs <= CELL_MAX as int,
    ensures
        0 <= (dx * dx) / (FX_SCALE as int) <= 0x24000000000,
{
    let s = FX_SCALE as int;
    assert(0 <= dx * dx <= 0x60000000int * 0x60000000) by (nonlinear_arith)
        requires
            -3 * cs <= dx <= 3 * cs,
            1 <= cs <= 0x20000000,
    ;
    lemma_div_shrinks(dx * dx, s);
    lemma_div_is_ordered(dx * dx, 0x60000000int * 0x60000000, s);
    assert(0x60000000int * 0x60000000 / 0x100000 == 0x24000000000);
}

/// A point is within three cells of any site of its own or a neighboring
/// cell.
proof fn lemma_point_site_gap(p: int, site: int, c0: int, c: int, cs: int)
    requires
        cs >= 1,
        c0 == p / cs,
        c0 - 1 <= c <= c0 + 1,
        (c - 1) * cs <= site <= (c + 2) * cs,
    ensures
        -3 * cs <= p - site <= 3 * cs,
{
    vstd::arithmetic::div_mod::lemma_fundamental_div_mod(p, cs);
    lemma_mod_bound(p, cs);
    assert(p - site <= 3 * cs) by (nonlinear_arith)
        requires
            p < cs * c0 + cs,
            site >= (c - 1) * cs,
            c >= c0 - 1,
            cs >= 1,
    ;
    assert(p - site >= -3 * cs) by (nonlinear_arith)
        requires
            p >= cs * c0,
            site <= (c + 2) * cs,
            c <= c0 + 1,
            cs >= 1,
    ;
}

/// Each hash half maps into `[0, 2)` on the fixed-point scale.
proof fn lemma_jitter_part_range(h: u64, upper: bool)
    ensures
        0 <= jitter_part(h, upper) < 2 * (FX_SCALE as int),
{
    assert(h >> 32u64 <= 0xffffffffu64) by (bit_vector);
    assert(h & 0xffffffffu64 <= 0xffffffffu64) by (bit_vector);
    let part = if upper {
        (h >> 32u64) as int
    } else {
        (h & 0xffffffffu64) as int
    };
    lemma_div_is_ordered(0, part * 2 * (FX_SCALE as int), 0x100000000);
    lemma_div_is_ordered(part * 2 * (FX_SCALE as int), 0xffffffffint * 2 * (FX_SCALE as int), 0x100000000);
    assert(0xffffffffint * 2 * (FX_SCALE as int) / 0x100000000 == 2097151);
}

/// The running three nearest sites during a scan, with their region ids.
pub ghost struct Top3 {
    /// Smallest squared distance seen.
    pub d1: int,
    /// Region id at the nearest site.
    pub i1: int,
    /// Second smallest squared distance.
    pub d2: int,
    /// Region id at the second nearest site.
    pub i2: int,
    /// Third smallest squared distance.
    pub d3: int,
    /// Region id at the third nearest site.
    pub i3: int,
}

/// Scan state before any candidate: three unreachably far placeholders.
pub open spec fn top3_empty() -> Top3 {
    Top3 {
        d1: 0x7fffffffffffffff,
        i1: 0,
        d2: 0x7fffffffffffffff,
        i2: 0,
        d3: 0x7fffffffffffffff,
        i3: 0,
    }
}

/// Insert one candidate, keeping the three smallest distances in order.
/// Ties keep the earlier candidate.
pub open spec fn top3_insert(t: Top3, d: int, id: int) -> Top3 {
    if d < t.d1 {
        Top3 { d1: d, i1: id, d2: t.d1, i2: t.i1, d3: t.d2, i3: t.i2 }
    } else if d < t.d2 {
        Top3 { d1: t.d1, i1: t.i1, d2: d, i2: id, d3: t.d2, i3: t.i2 }
    } else if d < t.d3 {
        Top3 { d1: t.d1, i1: t.i1, d2: t.d2, i2: t.i2, d3: d, i3: id }
    } else {
        t
    }
}

impl RegionSampler {
    /// The region of cell `(cx, cy)`, by weighted hash.
    pub fn region_for_cell(&self, cx: i32, cy: i32) -> (id: usize)
        requires
            self.wf(),
        ensures
            id as int == self.region_at(cx as int, cy as int),
            id < self.regions@.len(),
    {
        let h: u64 = mix(cx, cy, self.seed ^ REGION_SALT);
        let r64: u64 = h % (self.total_weight as u64);
        let r: u32 = r64 as u32;
        let id: usize = pick_index(
            Ghost(region_weights(self.regions@)),
            &self.prefix,
            self.total_weight,
            r,
        );
        proof {
            lemma_selected_index_is(region_weights(self.regions@), r as int, id as int);
        }
        id
    }

    /// Squared distance from the query point to a neighboring cell's site.
    pub fn dist2_to_site(&self, px: Fx, py: Fx, cx0: i32, cy0: i32, cellx: i32, celly: i32) -> (d: Fx)
        requires
            self.wf(),
            -POS_LIMIT <= px.raw <= POS_LIMIT,
            -POS_LIMIT <= py.raw <= POS_LIMIT,
            cx0 as int == self.cell_of(px.v()),
            cy0 as int == self.cell_of(py.v()),
            -33554433 <= cx0 <= 33554432,
            -33554433 <= cy0 <= 33554432,
            cx0 - 1 <= cellx <= cx0 + 1,
            cy0 - 1 <= celly <= cy0 + 1,
        ensures
            d.v() == self.dist2_at(px.v(), py.v(), cellx as int, celly as int),
            0 <= d.v() <= 0x48000000000,
    {
        let (sx, sy) = self.site_for_cell(cellx, celly);
        proof {
            let h = mix_spec(cellx, celly, self.seed);
            lemma_jitter_part_range(h, false);
            lemma_jitter_part_range(h, true);
            self.lemma_site_band(cellx as int, jitter_part(h, false));
            self.lemma_site_band(celly as int, jitter_part(h, true));
            lemma_point_site_gap(
                px.v(),
                sx.v(),
                cx0 as int,
                cellx as int,
                self.cell_size.v(),
            );
            lemma_point_site_gap(
                py.v(),
                sy.v(),
                cy0 as int,
                celly as int,
                self.cell_size.v(),
            );
        }
        let dx: Fx = px.sub(sx);
        let dy: Fx = py.sub(sy);
        proof {
            assert(0x60000000int * 0x60000000 == 0x24000000000int * 0x100000);
            lemma_fx_mul_fits(dx.v(), dx.v(), 0x60000000, 0x60000000, 0x24000000000);
            lemma_fx_mul_fits(dy.v(), dy.v(), 0x60000000, 0x60000000, 0x24000000000);
            lemma_dist_term_bound(dx.v(), self.cell_size.v());
            lemma_dist_term_bound(dy.v(), self.cell_size.v());
        }
        let dx2: Fx = dx.mul(dx);
        let dy2: Fx = dy.mul(dy);
        dx2.add(dy2)
    }

    /// The three region ids and blend weights at `(px, py)`.
    ///
    /// Among the nine cells around the query point, the three spatially
    /// nearest sites win, nearest first; each site's raw weight fades
    /// linearly from `blend_dist` to zero with its extra distance over the
    /// nearest, and the weights are then normalized. The whole result is a
    /// pure function of the sampler and the point. The normalized weights
    /// are each in `[0, 1]` and sum to 1, up to three units of rounding on
    /// the fixed-point scale.
    pub fn sample_region(&self, px: Fx, py: Fx) -> (r: ([usize; 3], [Fx; 3]))
        requires
            self.wf(),
            -POS_LIMIT <= px.raw <= POS_LIMIT,
            -POS_LIMIT <= py.raw <= POS_LIMIT,
        ensures
            ({
                let t = self.top3_scan(px.v(), py.v(), 9);
                let (w1, w2, w3) = self.sample_region_weights(px.v(), py.v());
                &&& r.0@[0] as int == t.i1 && r.0@[1] as int == t.i2 && r.0@[2] as int == t.i3
                &&& r.1@[0].v() == w1 && r.1@[1].v() == w2 && r.1@[2].v() == w3
                &&& (forall|j: int| 0 <= j < 3 ==> (#[trigger] r.0@[j]) < self.regions@.len())
                &&& 0 <= r.1@[0].v() <= FX_SCALE
                &&& 0 <= r.1@[1].v() <= FX_SCALE
                &&& 0 <= r.1@[2].v() <= FX_SCALE
                &&& FX_SCALE - 3 < r.1@[0].v() + r.1@[1].v() + r.1@[2].v() <= FX_SCALE
                &&& (forall|j: int|
                    0 <= j < 9 ==> #[trigger] self.cand_dist(px.v(), py.v(), j) >= t.d1)
                &&& self.is_cand(px.v(), py.v(), 9, t.d1, r.0@[0] as int)
            }),
    {
        proof {
            assert(33554432int * 65536 == POS_LIMIT as int);
            crate::fixed::lemma_div_bound_by(px.v(), self.cell_size.v(), CELL_MIN as int, 33554432);
            crate::fixed::lemma_div_bound_by(py.v(), self.cell_size.v(), CELL_MIN as int, 33554432);
            self.lemma_regions_nonempty();
        }
        let cx128: i128 = crate::fixed::floor_div_i128(px.raw as i128, self.cell_size.raw as i128);
        let cy128: i128 = crate::fixed::floor_div_i128(py.raw as i128, self.cell_size.raw as i128);
        let cx0: i32 = cx128 as i32;
        let cy0: i32 = cy128 as i32;
        let mut best1: i64 = i64::MAX;
        let mut best2: i64 = i64::MAX;
        let mut best3: i64 = i64::MAX;
        let mut id1: usize = 0;
        let mut id2: usize = 0;
        let mut id3: usize = 0;
        let mut k: usize = 0;
        while k < 9
            invariant
                self.wf(),
                -POS_LIMIT <= px.raw <= POS_LIMIT,
                -POS_LIMIT <= py.raw <= POS_LIMIT,
                cx0 as int == self.cell_of(px.v()),
                cy0 as int == self.cell_of(py.v()),
                -33554433 <= cx0 <= 33554432,
                -33554433 <= cy0 <= 33554432,
                0 <= k <= 9,
                self.regions@.len() >= 1,
                id1 < self.regions@.len(),
                id2 < self.regions@.len(),
                id3 < self.regions@.len(),
                ({
                    let t = self.top3_scan(px.v(), py.v(), k as int);
                    best1 as int == t.d1 && best2 as int == t.d2 && best3 as int == t.d3
                        && id1 as int == t.i1 && id2 as int == t.i2 && id3 as int == t.i3
                }),
            decreases 9 - k,
        {
            let dxi: i32 = (k % 3) as i32 - 1;
            let dyi: i32 = (k / 3) as i32 - 1;
            let cellx: i32 = cx0 + dxi;
            let celly: i32 = cy0 + dyi;
            let d2: Fx = self.dist2_to_site(px, py, cx0, cy0, cellx, celly);
            let rid: usize = self.region_for_cell(cellx, celly);
            proof {
                assert(cellx as int == self.cand_cell_x(px.v(), k as int));
                assert(celly as int == self.cand_cell_y(py.v(), k as int));
                assert(d2.v() == self.cand_dist(px.v(), py.v(), k as int));
                assert(rid as int == self.cand_region(px.v(), py.v(), k as int));
            }
            if d2.raw < best1 {
                best3 = best2;
                id3 = id2;
                best2 = best1;
                id2 = id1;
                best1 = d2.raw;
                id1 = rid;
            } else if d2.raw < best2 {
                best3 = best2;
                id3 = id2;
                best2 = d2.raw;
                id2 = rid;
            } else if d2.raw < best3 {
                best3 = d2.raw;
                id3 = rid;
            }
            k = k + 1;
        }
        proof {
            self.lemma_top3_props(px.v(), py.v(), 9);
            assert forall|j: int| 0 <= j < 9 implies 0 <= #[trigger] self.cand_dist(
                px.v(),
                py.v(),
                j,
            ) <= 0x48000000000 by {
                self.lemma_cand_dist_bound(px.v(), py.v(), j);
            }
        }
        let sd1: Fx = Fx::from_raw(best1).sqrt();
        let sd2: Fx = Fx::from_raw(best2).sqrt();
        let sd3: Fx = Fx::from_raw(best3).sqrt();
        proof {
            lemma_mul_inequality(best1 as int, best2 as int, FX_SCALE as int);
            lemma_mul_inequality(best2 as int, best3 as int, FX_SCALE as int);
            lemma_sqrt_floor_monotonic(best1 as int * FX_SCALE as int, best2 as int * FX_SCALE as int);
            lemma_sqrt_floor_monotonic(best2 as int * FX_SCALE as int, best3 as int * FX_SCALE as int);
        }
        let b: Fx = self.blend_dist;
        let w1: Fx = b;
        let w2: Fx = b.sub(sd2.sub(sd1)).clamp(Fx::from_raw(0), b);
        let w3: Fx = b.sub(sd3.sub(sd1)).clamp(Fx::from_raw(0), b);
        let sum: Fx = w1.add(w2).add(w3);
        proof {
            lemma_norm_weight(w1.v(), sum.v());
            lemma_norm_weight(w2.v(), sum.v());
            lemma_norm_weight(w3.v(), sum.v());
            lemma_normalized_sum(w1.v(), w2.v(), w3.v());
        }
        let n1: Fx = w1.div(sum);
        let n2: Fx = w2.div(sum);
        let n3: Fx = w3.div(sum);
        ([id1, id2, id3], [n1, n2, n3])
    }

    /// The surface height at a point: the three regions' own heights at that
    /// point, blended by the normalized weights that `sample_region`
    /// returned — never just the nearest region's height, which is what
    /// keeps biome boundaries smooth.
    pub fn sample_surface_height(&self, weights: [Fx; 3], heights: [Fx; 3]) -> (h: Fx)
        requires
            forall|j: int| 0 <= j < 3 ==> 0 <= (#[trigger] weights@[j]).v() <= FX_SCALE,
            forall|j: int|
                0 <= j < 3 ==> -35184372088832 <= (#[trigger] heights@[j]).v()
                    <= 35184372088832,
        ensures
            h.v() == (heights@[0].v() * weights@[0].v()) / (FX_SCALE as int) + (heights@[1].v()
                * weights@[1].v()) / (FX_SCALE as int) + (heights@[2].v() * weights@[2].v()) / (
            FX_SCALE as int),
    {
        proof {
            assert(35184372088832int * 1048576 <= 35184372088832int * 0x100000);
            lemma_fx_mul_fits(
                heights@[0].v(),
                weights@[0].v(),
                35184372088832,
                FX_SCALE as int,
                35184372088832,
            );
            lemma_fx_mul_fits(
                heights@[1].v(),
                weights@[1].v(),
                35184372088832,
                FX_SCALE as int,
                35184372088832,
            );
            lemma_fx_mul_fits(
                heights@[2].v(),
                weights@[2].v(),
                35184372088832,
                FX_SCALE as int,
                35184372088832,
            );
        }
        let a: Fx = heights[0].mul(weights[0]);
        let b: Fx = heights[1].mul(weights[1]);
        let c: Fx = heights[2].mul(weights[2]);
        a.add(b).add(c)
    }

    /// The surface orientation at a point, from four surface heights sampled
    /// at `±eps` along each axis: the unit surface normal of the
    /// central-difference slope estimate, up-component positive. A
    /// degenerate `eps` is clamped up to the minimum slope epsilon rather
    /// than dividing by zero.
    pub fn sample_surface_orientation(&self, hl: Fx, hr: Fx, hd: Fx, hu: Fx, eps: Fx) -> (n: (
        Fx,
        Fx,
        Fx,
    ))
        requires
            -HEIGHT_LIMIT <= hl.v() <= HEIGHT_LIMIT,
            -HEIGHT_LIMIT <= hr.v() <= HEIGHT_LIMIT,
            -HEIGHT_LIMIT <= hd.v() <= HEIGHT_LIMIT,
            -HEIGHT_LIMIT <= hu.v() <= HEIGHT_LIMIT,
            eps.v() <= HEIGHT_LIMIT,
        ensures
            ({
                let s = FX_SCALE as int;
                let e = if eps.v() < SLOPE_EPS_MIN as int {
                    SLOPE_EPS_MIN as int
                } else {
                    eps.v()
                };
                let gx = gradient_spec(hr.v(), hl.v(), e);
                let gz = gradient_spec(hu.v(), hd.v(), e);
                let len = sqrt_floor((s + slope_sq_spec(gx, gz)) * s);
                &&& n.0.v() == (-gx * s) / len
                &&& n.1.v() == (s * s) / len
                &&& n.2.v() == (-gz * s) / len
                &&& n.1.v() > 0
            }),
    {
        let e: Fx = if eps.raw < SLOPE_EPS_MIN {
            Fx { raw: SLOPE_EPS_MIN }
        } else {
            eps
        };
        let g: (Fx, Fx) = slope_gradient(hl, hr, hd, hu, e, e);
        surface_normal(g.0, g.1)
    }
}

/// A weight no greater than the total normalizes into `[0, 1]`.
proof fn lemma_norm_weight(w: int, sum: int)
    requires
        0 <= w <= sum,
        0 < sum,
    ensures
        0 <= (w * (FX_SCALE as int)) / sum <= FX_SCALE as int,
{
    let s = FX_SCALE as int;
    lemma_mul_inequality(w, sum, s);
    lemma_div_is_ordered(w * s, sum * s, sum);
    assert(sum * s / sum == s) by {
        lemma_mul_is_commutative(sum, s);
        lemma_div_multiples_vanish(s, sum);
    }
    assert(w * s >= 0) by (nonlinear_arith)
        requires
            w >= 0,
            s >= 0,
    ;
    lemma_div_shrinks(w * s, sum);
}

/// Normalizing three nonnegative weights by their sum yields parts that sum
/// to one, up to three units of rounding loss on the fixed-point scale.
proof fn lemma_normalized_sum(w1: int, w2: int, w3: int)
    requires
        0 <= w1,
        0 <= w2,
        0 <= w3,
        0 < w1 + w2 + w3,
    ensures
        ({
            let s = FX_SCALE as int;
            let sum = w1 + w2 + w3;
            s - 3 < (w1 * s) / sum + (w2 * s) / sum + (w3 * s) / sum <= s
        }),
{
    let s = FX_SCALE as int;
    let sum = w1 + w2 + w3;
    let q1 = (w1 * s) / sum;
    let q2 = (w2 * s) / sum;
    let q3 = (w3 * s) / sum;
    let r1 = (w1 * s) % sum;
    let r2 = (w2 * s) % sum;
    let r3 = (w3 * s) % sum;
    lemma_fundamental_div_mod(w1 * s, sum);
    lemma_fundamental_div_mod(w2 * s, sum);
    lemma_fundamental_div_mod(w3 * s, sum);
    lemma_mod_bound(w1 * s, sum);
    lemma_mod_bound(w2 * s, sum);
    lemma_mod_bound(w3 * s, sum);
    assert(w1 * s + w2 * s + w3 * s == sum * s) by (nonlinear_arith)
        requires
            sum == w1 + w2 + w3,
    ;
    assert(sum * (q1 + q2 + q3) == sum * s - (r1 + r2 + r3)) by (nonlinear_arith)
        requires
            w1 * s == sum * q1 + r1,
            w2 * s == sum * q2 + r2,
            w3 * s == sum * q3 + r3,
            w1 * s + w2 * s + w3 * s == sum * s,
    ;
    assert(q1 + q2 + q3 <= s) by (nonlinear_arith)
        requires
            sum * (q1 + q2 + q3) == sum * s - (r1 + r2 + r3),
            r1 + r2 + r3 >= 0,
            sum > 0,
    ;
    assert(q1 + q2 + q3 > s - 3) by (nonlinear_arith)
        requires
            sum * (q1 + q2 + q3) == sum * s - (r1 + r2 + r3),
            r1 + r2 + r3 < 3 * sum,
            sum > 0,
    ;
}

} // verus!

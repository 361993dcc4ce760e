//! Regions: named terrain styles.
//!
//! A region bundles a height field, a weighted palette of decoration names,
//! and the relative weight with which the sampler assigns the region itself
//! to grid cells. The palette's cumulative weight table is built once at
//! construction; `pick_object` draws from it in logarithmic time.

use crate::fixed::Fx;
use crate::height::HeightNoise;
use crate::rng::random_below;
use crate::weights::{
    build_prefix, lemma_selection_frequency, pick_index, prefix_ok, prefix_sum, selects,
    strictly_increasing,
};
use vstd::prelude::*;

verus! {

/// One palette entry: a decoration name and its selection weight.
#[derive(Clone, Debug)]
pub struct ObjectSelection {
    /// Name of the decoration object.
    pub name: String,
    /// Relative weight of this entry within its palette.
    pub selection_weight: u32,
}

/// The selection weights of a palette, in order.
pub open spec fn object_weights(objs: Seq<ObjectSelection>) -> Seq<u32> {
    objs.map(|i: int, o: ObjectSelection| o.selection_weight)
}

/// A named terrain style: height field, decoration palette, selection weight.
#[derive(Clone, Debug)]
pub struct Region {
    /// Region name.
    pub name: String,
    /// Relative weight with which cells are assigned this region.
    pub weight: u32,
    /// The region's height field.
    pub height_sampler: HeightNoise,
    /// Decoration palette.
    pub objects: Vec<ObjectSelection>,
    /// Cumulative palette weights; `objects_prefix[i]` sums entries `0..=i`.
    pub objects_prefix: Vec<u32>,
    /// Sum of all palette weights.
    pub objects_total_weight: u32,
}

impl Region {
    /// The palette's cumulative weight table is exact, strictly increasing
    /// with a positive total, and the height field parameters are in range.
    pub open spec fn wf(self) -> bool {
        &&& prefix_ok(
            object_weights(self.objects@),
            self.objects_prefix@,
            self.objects_total_weight as int,
        )
        &&& self.objects_total_weight > 0
        &&& (forall|i: int|
            0 <= i < self.objects@.len() ==> (#[trigger] self.objects@[i]).selection_weight > 0)
        &&& strictly_increasing(self.objects_prefix@)
        &&& self.height_sampler.wf()
    }

    /// A well-formed region's palette sums to a positive weight that fits in
    /// `u32`, and its height field is in range.
    pub proof fn lemma_wf_consequences(self)
        requires
            self.wf(),
        ensures
            0 < prefix_sum(object_weights(self.objects@), self.objects@.len() as int) <= u32::MAX,
            self.height_sampler.wf(),
    {
    }

    /// Total weight of the decoration palette.
    pub fn total_palette_weight(&self) -> (t: u32)
        ensures
            self.wf() ==> t as int == prefix_sum(
                object_weights(self.objects@),
                self.objects@.len() as int,
            ),
    {
        self.objects_total_weight
    }

    /// Build a region over `objects`, computing the palette's cumulative
    /// weight table.
    ///
    /// Fails fast — returns `None` — when the palette is empty, when any
    /// entry has weight zero (the cumulative table must be strictly
    /// increasing), when the total overflows, or when the height field
    /// parameters are out of range.
    pub fn new(
        name: String,
        weight: u32,
        height_sampler: HeightNoise,
        objects: Vec<ObjectSelection>,
    ) -> (r: Option<Region>)
        ensures
            match r {
                Some(region) => {
                    &&& region.wf()
                    &&& region.name@ == name@
                    &&& region.weight == weight
                    &&& region.height_sampler == height_sampler
                    &&& region.objects@ == objects@
                },
                None => {
                    ||| objects@.len() == 0
                    ||| exists|i: int|
                        0 <= i < objects@.len() && (#[trigger] objects@[i]).selection_weight == 0
                    ||| prefix_sum(object_weights(objects@), objects@.len() as int) > u32::MAX
                    ||| !height_sampler.wf()
                },
            },
    {
        if !height_params_in_range(&height_sampler) {
            return None;
        }
        let mut ws: Vec<u32> = Vec::new();
        let mut k: usize = 0;
        while k < objects.len()
            invariant
                0 <= k <= objects@.len(),
                ws@ == object_weights(objects@).take(k as int),
            decreases objects@.len() - k,
        {
            ws.push(objects[k].selection_weight);
            proof {
                assert(ws@ =~= object_weights(objects@).take(k as int + 1));
            }
            k = k + 1;
        }
        proof {
            assert(ws@ =~= object_weights(objects@));
        }
        match build_prefix(&ws) {
            Some((prefix, total)) => {
                proof {
                    assert forall|i: int|
                        0 <= i < objects@.len() implies (#[trigger] objects@[i]).selection_weight
                        > 0 by {
                        assert(object_weights(objects@)[i] > 0);
                    }
                }
                Some(
                    Region {
                        name,
                        weight,
                        height_sampler,
                        objects,
                        objects_prefix: prefix,
                        objects_total_weight: total,
                    },
                )
            },
            None => {
                proof {
                    let vs = object_weights(objects@);
                    if exists|i: int| 0 <= i < vs.len() && #[trigger] vs[i] == 0 {
                        let i = choose|i: int| 0 <= i < vs.len() && #[trigger] vs[i] == 0;
                        assert(objects@[i].selection_weight == 0);
                    }
                }
                None
            },
        }
    }

    /// The palette entry hit by draw `r`: the unique index whose cumulative
    /// weight interval contains `r`.
    pub fn pick_object_at(&self, r: u32) -> (i: usize)
        requires
            self.wf(),
            r < prefix_sum(object_weights(self.objects@), self.objects@.len() as int),
        ensures
            selects(object_weights(self.objects@), r as int, i as int),
            i < self.objects@.len(),
    {
        pick_index(
            Ghost(object_weights(self.objects@)),
            &self.objects_prefix,
            self.objects_total_weight,
            r,
        )
    }

    /// Law: the palette pick is exactly weighted. Among the
    /// `total_palette_weight` equally likely draws, the ones that select
    /// entry `i` form precisely entry `i`'s cumulative interval, so entry
    /// `i` wins exactly `selection_weight` of the draws.
    pub proof fn lemma_pick_frequency(self, i: int)
        requires
            self.wf(),
            0 <= i < self.objects@.len(),
        ensures
            Set::new(
                |r: int|
                    0 <= r < prefix_sum(object_weights(self.objects@), self.objects@.len() as int)
                        && selects(object_weights(self.objects@), r, i),
            ).len() == self.objects@[i].selection_weight,
    {
        lemma_selection_frequency(object_weights(self.objects@), i);
    }

    /// Draw a decoration name from the palette, weighted by the entries'
    /// selection weights. Only entries of positive weight can be returned.
    pub fn pick_object(&self) -> (name: String)
        requires
            self.wf(),
        ensures
            exists|i: int|
                0 <= i < self.objects@.len() && name@ == self.objects@[i].name@
                    && self.objects@[i].selection_weight > 0,
    {
        let draw: u64 = random_below(self.objects_total_weight as u64);
        let r: u32 = draw as u32;
        let i: usize = self.pick_object_at(r);
        proof {
            let ws = object_weights(self.objects@);
            assert(prefix_sum(ws, i as int) <= r < prefix_sum(ws, i as int + 1));
            assert(self.objects@[i as int].selection_weight > 0);
        }
        self.objects[i].name.clone()
    }
}

impl Default for Region {
    /// The empty region: no name, zero weight, a zeroed height field and an
    /// empty palette. It is not well-formed, so nothing can be picked from it.
    fn default() -> (r: Self)
        ensures
            r.name@ == Seq::<char>::empty(),
            r.weight == 0,
            r.objects@.len() == 0,
            r.height_sampler.perlin_height.v() == 0,
            r.height_sampler.offset.v() == 0,
            !r.wf(),
    {
        Region {
            name: String::new(),
            weight: 0,
            height_sampler: HeightNoise {
                perlin_height: Fx { raw: 0 },
                perlin_scale: Fx { raw: 0 },
                perlin_seed: 0,
                terrace_height: Fx { raw: 0 },
                terrace_steps: Fx { raw: 0 },
                terrace_scale: Fx { raw: 0 },
                terrace_seed: 0,
                terrace_smooth_width: Fx { raw: 0 },
                offset: Fx { raw: 0 },
            },
            objects: Vec::new(),
            objects_prefix: Vec::new(),
            objects_total_weight: 0,
        }
    }
}

/// Runtime check that height field parameters lie in the well-formed range.
pub fn height_params_in_range(h: &HeightNoise) -> (b: bool)
    ensures
        b == h.wf(),
{
    1048576 <= h.terrace_steps.raw && h.terrace_steps.raw <= 1073741824
        && 0 <= h.terrace_smooth_width.raw && h.terrace_smooth_width.raw <= 1048576
        && -1073741824 <= h.perlin_height.raw && h.perlin_height.raw <= 1073741824
        && -1073741824 <= h.terrace_height.raw && h.terrace_height.raw <= 1073741824
        && -1073741824 <= h.perlin_scale.raw && h.perlin_scale.raw <= 1073741824
        && -1073741824 <= h.terrace_scale.raw && h.terrace_scale.raw <= 1073741824
        && -35184372088832 <= h.offset.raw && h.offset.raw <= 35184372088832
}

} // verus!

//! The chunk streamer: which terrain tiles exist, and when.
//!
//! A tick looks at the focus position, derives the square of chunk
//! coordinates wanted around it, and plans the difference against what is
//! loaded: coordinates to create and coordinates to evict. Applying the plan
//! with the freshly synthesized records leaves the loaded set exactly equal
//! to the wanted square — never a superset, never a subset — and hands back
//! the evicted records so their resources can be released. Planning is
//! held back by a readiness flag: until loading reports done, a tick plans
//! nothing.

use crate::fixed::{floor_div_i128, lemma_div_bound_by, Fx};
use crate::sampler::{CELL_MIN, POS_LIMIT};
use vstd::prelude::*;
use vstd::seq_lib::lemma_seq_contains_after_push;

verus! {

broadcast use lemma_seq_contains_after_push;

/// Largest accepted streaming radius, in chunks.
pub const RADIUS_MAX: i64 = 64;

/// A chunk coordinate: integer grid units of `chunk_size`.
#[derive(Clone, Copy, PartialEq, Eq, Structural, Debug, Hash)]
pub struct ChunkCoord {
    /// Grid x.
    pub x: i64,
    /// Grid y (the world z axis).
    pub y: i64,
}

/// Everything one chunk owns: its floor mesh and its decorations, as opaque
/// resource handles. Eviction releases all of them together.
#[derive(Debug)]
pub struct ChunkRecord {
    /// Handle of the chunk's floor mesh.
    pub mesh: u64,
    /// Handles of the decoration instances placed on this chunk.
    pub decorations: Vec<u64>,
}

/// How many chunks to keep loaded around the focus, and how large each is.
pub struct ChunkSettings {
    /// Chebyshev radius of the loaded square, in chunks.
    pub radius: i64,
    /// Side length of one chunk.
    pub chunk_size: Fx,
}

impl ChunkSettings {
    /// Positive chunk size and a bounded radius.
    pub open spec fn wf(self) -> bool {
        &&& CELL_MIN as int <= self.chunk_size.v()
        &&& 0 <= self.radius <= RADIUS_MAX
    }
}

/// Whether `c` lies in the square of Chebyshev radius `radius` around `f`.
pub open spec fn in_square(c: ChunkCoord, f: ChunkCoord, radius: int) -> bool {
    &&& f.x - radius <= c.x <= f.x + radius
    &&& f.y - radius <= c.y <= f.y + radius
}

/// One tick's decisions: the focus chunk, and the exact set differences
/// between the wanted square and the loaded set.
pub struct TickPlan {
    /// The chunk the focus position falls in.
    pub focus_chunk: ChunkCoord,
    /// The radius the plan was made for.
    pub radius: i64,
    /// Wanted but not loaded: to synthesize and insert, in scan order.
    pub to_create: Vec<ChunkCoord>,
    /// Loaded but no longer wanted: to evict.
    pub to_evict: Vec<ChunkCoord>,
}

/// `plan` is the exact difference between `m`'s loaded set and the wanted
/// square: a coordinate is created iff wanted and missing, evicted iff
/// loaded and unwanted.
pub open spec fn plan_matches(plan: TickPlan, m: ChunkManager) -> bool {
    &&& (forall|c: ChunkCoord| #[trigger]
        plan.to_create@.contains(c) <==> (in_square(c, plan.focus_chunk, plan.radius as int)
            && !m.has_coord(c)))
    &&& (forall|c: ChunkCoord| #[trigger]
        plan.to_evict@.contains(c) <==> (m.has_coord(c) && !in_square(
            c,
            plan.focus_chunk,
            plan.radius as int,
        )))
}

/// No coordinate appears twice in `s`.
pub open spec fn distinct_coords(s: Seq<ChunkCoord>) -> bool {
    forall|i: int, j: int| 0 <= i < j < s.len() ==> s[i] != s[j]
}

/// The map from chunk coordinates to loaded chunk records.
pub struct ChunkManager {
    /// The loaded chunks, keyed by coordinate; coordinates are unique.
    pub loaded: Vec<(ChunkCoord, ChunkRecord)>,
}

impl Default for ChunkManager {
    /// A manager with nothing loaded.
    fn default() -> (r: Self)
        ensures
            r.loaded@.len() == 0,
            r.wf(),
    {
        ChunkManager { loaded: Vec::new() }
    }
}

impl ChunkManager {
    /// `c` is a loaded coordinate.
    pub open spec fn has_coord(self, c: ChunkCoord) -> bool {
        exists|i: int| 0 <= i < self.loaded@.len() && (#[trigger] self.loaded@[i]).0 == c
    }

    /// Each coordinate is loaded at most once.
    pub open spec fn wf(self) -> bool {
        forall|i: int, j: int|
            0 <= i < j < self.loaded@.len() ==> (#[trigger] self.loaded@[i]).0 != (
            #[trigger] self.loaded@[j]).0
    }

    /// Whether `c` is currently loaded.
    pub fn contains_coord(&self, c: ChunkCoord) -> (b: bool)
        ensures
            b == self.has_coord(c),
    {
        let mut i: usize = 0;
        while i < self.loaded.len()
            invariant
                0 <= i <= self.loaded@.len(),
                forall|j: int| 0 <= j < i ==> (#[trigger] self.loaded@[j]).0 != c,
            decreases self.loaded@.len() - i,
        {
            if self.loaded[i].0 == c {
                return true;
            }
            i = i + 1;
        }
        false
    }

    /// Index of the loaded entry for `c`, if any.
    fn find_coord(&self, c: ChunkCoord) -> (r: Option<usize>)
        ensures
            match r {
                Some(i) => i < self.loaded@.len() && self.loaded@[i as int].0 == c,
                None => !self.has_coord(c),
            },
    {
        let mut i: usize = 0;
        while i < self.loaded.len()
            invariant
                0 <= i <= self.loaded@.len(),
                forall|j: int| 0 <= j < i ==> (#[trigger] self.loaded@[j]).0 != c,
            decreases self.loaded@.len() - i,
        {
            if self.loaded[i].0 == c {
                return Some(i);
            }
            i = i + 1;
        }
        None
    }

    /// Decide one tick: the focus chunk from the focus position, and the
    /// exact differences between the wanted square and the loaded set.
    ///
    /// When `ready` is false — the external readiness gate has not opened —
    /// nothing is planned: no synthesis may start and nothing is evicted.
    pub fn plan_tick(&self, settings: &ChunkSettings, fx: Fx, fy: Fx, ready: bool) -> (plan:
        TickPlan)
        requires
            self.wf(),
            settings.wf(),
            -POS_LIMIT <= fx.raw <= POS_LIMIT,
            -POS_LIMIT <= fy.raw <= POS_LIMIT,
        ensures
            plan.focus_chunk.x as int == fx.v() / settings.chunk_size.v(),
            plan.focus_chunk.y as int == fy.v() / settings.chunk_size.v(),
            plan.radius == settings.radius,
            distinct_coords(plan.to_create@),
            distinct_coords(plan.to_evict@),
            forall|c: ChunkCoord| plan.to_create@.contains(c) ==> !self.has_coord(c),
            forall|c: ChunkCoord| plan.to_evict@.contains(c) ==> self.has_coord(c),
            ready ==> plan_matches(plan, *self),
            !ready ==> plan.to_create@.len() == 0 && plan.to_evict@.len() == 0,
    {
        proof {
            assert(33554432int * 65536 == POS_LIMIT as int);
            lemma_div_bound_by(fx.v(), settings.chunk_size.v(), CELL_MIN as int, 33554432);
            lemma_div_bound_by(fy.v(), settings.chunk_size.v(), CELL_MIN as int, 33554432);
        }
        let fcx: i64 = floor_div_i128(fx.raw as i128, settings.chunk_size.raw as i128) as i64;
        let fcy: i64 = floor_div_i128(fy.raw as i128, settings.chunk_size.raw as i128) as i64;
        let focus_chunk = ChunkCoord { x: fcx, y: fcy };
        let mut to_create: Vec<ChunkCoord> = Vec::new();
        let mut to_evict: Vec<ChunkCoord> = Vec::new();
        if !ready {
            return TickPlan { focus_chunk, radius: settings.radius, to_create, to_evict };
        }
        let r: i64 = settings.radius;
        let mut dx: i64 = 0;
        while dx < 2 * r + 1
            invariant
                self.wf(),
                0 <= dx <= 2 * r + 1,
                0 <= r <= RADIUS_MAX,
                -33554433 <= fcx <= 33554432,
                -33554433 <= fcy <= 33554432,
                forall|c: ChunkCoord| #[trigger]
                    to_create@.contains(c) <==> (fcx - r <= c.x < fcx - r + dx && fcy - r <= c.y
                        <= fcy + r && !self.has_coord(c)),
                distinct_coords(to_create@),
            decreases 2 * r + 1 - dx,
        {
            let cx: i64 = fcx - r + dx;
            let mut dy: i64 = 0;
            while dy < 2 * r + 1
                invariant
                    self.wf(),
                    0 <= dy <= 2 * r + 1,
                    0 <= dx < 2 * r + 1,
                    0 <= r <= RADIUS_MAX,
                    -33554433 <= fcx <= 33554432,
                    -33554433 <= fcy <= 33554432,
                    cx == fcx - r + dx,
                    forall|c: ChunkCoord| #[trigger]
                        to_create@.contains(c) <==> ((fcx - r <= c.x < cx && fcy - r <= c.y <= fcy
                            + r && !self.has_coord(c)) || (c.x == cx && fcy - r <= c.y < fcy - r
                            + dy && !self.has_coord(c))),
                    distinct_coords(to_create@),
                decreases 2 * r + 1 - dy,
            {
                let c = ChunkCoord { x: cx, y: fcy - r + dy };
                if !self.contains_coord(c) {
                    let ghost prev = to_create@;
                    proof {
                        assert(!prev.contains(c));
                    }
                    to_create.push(c);
                    proof {
                        assert(to_create@ == prev.push(c));
                        assert(prev.push(c).contains(c));
                        assert forall|a: int, b: int|
                            0 <= a < b < to_create@.len() implies to_create@[a] != to_create@[b] by {
                            if b == to_create@.len() - 1 {
                                assert(prev.contains(prev[a]));
                            }
                        }
                    }
                }
                dy = dy + 1;
            }
            dx = dx + 1;
        }
        let mut i: usize = 0;
        while i < self.loaded.len()
            invariant
                self.wf(),
                0 <= i <= self.loaded@.len(),
                0 <= r <= RADIUS_MAX,
                -33554433 <= fcx <= 33554432,
                -33554433 <= fcy <= 33554432,
                focus_chunk == (ChunkCoord { x: fcx, y: fcy }),
                forall|c: ChunkCoord| #[trigger]
                    to_evict@.contains(c) <==> (exists|j: int|
                        0 <= j < i && (#[trigger] self.loaded@[j]).0 == c && !in_square(
                            c,
                            focus_chunk,
                            r as int,
                        )),
                distinct_coords(to_evict@),
            decreases self.loaded@.len() - i,
        {
            let c: ChunkCoord = self.loaded[i].0;
            let inside: bool = focus_chunk.x - r <= c.x && c.x <= focus_chunk.x + r
                && focus_chunk.y - r <= c.y && c.y <= focus_chunk.y + r;
            if !inside {
                let ghost prev = to_evict@;
                proof {
                    assert(!prev.contains(c));
                }
                to_evict.push(c);
                proof {
                    assert(to_evict@ == prev.push(c));
                    assert forall|cc: ChunkCoord| #[trigger]
                        to_evict@.contains(cc) <==> (exists|j: int|
                            0 <= j < i + 1 && (#[trigger] self.loaded@[j]).0 == cc && !in_square(
                                cc,
                                focus_chunk,
                                r as int,
                            )) by {
                        if cc == c {
                            assert(self.loaded@[i as int].0 == c);
                        } else {
                            if exists|j: int|
                                0 <= j < i + 1 && (#[trigger] self.loaded@[j]).0 == cc
                                    && !in_square(cc, focus_chunk, r as int) {
                                let j = choose|j: int|
                                    0 <= j < i + 1 && (#[trigger] self.loaded@[j]).0 == cc
                                        && !in_square(cc, focus_chunk, r as int);
                                assert(j != i);
                                assert(0 <= j < i && self.loaded@[j].0 == cc && !in_square(
                                    cc,
                                    focus_chunk,
                                    r as int,
                                ));
                            }
                        }
                    }
                    assert forall|a: int, b: int|
                        0 <= a < b < to_evict@.len() implies to_evict@[a] != to_evict@[b] by {
                        if b == to_evict@.len() - 1 {
                            assert(prev.contains(prev[a]));
                        }
                    }
                }
            } else {
                proof {
                    assert forall|cc: ChunkCoord| #[trigger]
                        to_evict@.contains(cc) <==> (exists|j: int|
                            0 <= j < i + 1 && (#[trigger] self.loaded@[j]).0 == cc && !in_square(
                                cc,
                                focus_chunk,
                                r as int,
                            )) by {
                        if cc != c {
                            if exists|j: int|
                                0 <= j < i + 1 && (#[trigger] self.loaded@[j]).0 == cc
                                    && !in_square(cc, focus_chunk, r as int) {
                                let j = choose|j: int|
                                    0 <= j < i + 1 && (#[trigger] self.loaded@[j]).0 == cc
                                        && !in_square(cc, focus_chunk, r as int);
                                assert(j != i);
                            }
                        }
                    }
                }
            }
            i = i + 1;
        }
        TickPlan { focus_chunk, radius: settings.radius, to_create, to_evict }
    }

    /// Apply one tick's plan: insert a freshly synthesized record for each
    /// coordinate to create, remove each coordinate to evict, and return the
    /// evicted records so their resources can be released.
    pub fn apply_tick(&mut self, plan: &TickPlan, new_records: Vec<ChunkRecord>) -> (evicted: Vec<
        ChunkRecord,
    >)
        requires
            old(self).wf(),
            new_records@.len() == plan.to_create@.len(),
            distinct_coords(plan.to_create@),
            distinct_coords(plan.to_evict@),
            forall|c: ChunkCoord| plan.to_create@.contains(c) ==> !old(self).has_coord(c),
            forall|c: ChunkCoord| plan.to_evict@.contains(c) ==> old(self).has_coord(c),
        ensures
            final(self).wf(),
            forall|c: ChunkCoord| #[trigger]
                final(self).has_coord(c) <==> ((old(self).has_coord(c)
                    && !plan.to_evict@.contains(c)) || plan.to_create@.contains(c)),
            evicted@.len() == plan.to_evict@.len(),
            forall|i: int|
                0 <= i < plan.to_evict@.len() ==> old(self).loaded@.contains(
                    ((#[trigger] plan.to_evict@[i]), evicted@[i]),
                ),
            forall|e: (ChunkCoord, ChunkRecord)|
                (#[trigger] old(self).loaded@.contains(e)) && !plan.to_evict@.contains(e.0)
                    ==> final(self).loaded@.contains(e),
            forall|i: int|
                0 <= i < plan.to_create@.len() ==> final(self).loaded@.contains(
                    ((#[trigger] plan.to_create@[i]), new_records@[i]),
                ),
    {
        let mut evicted: Vec<ChunkRecord> = Vec::new();
        let mut j: usize = 0;
        while j < plan.to_evict.len()
            invariant
                self.wf(),
                0 <= j <= plan.to_evict@.len(),
                distinct_coords(plan.to_evict@),
                forall|c: ChunkCoord| plan.to_evict@.contains(c) ==> old(self).has_coord(c),
                evicted@.len() == j,
                forall|c: ChunkCoord| #[trigger]
                    self.has_coord(c) <==> (old(self).has_coord(c) && !plan.to_evict@.subrange(
                        0,
                        j as int,
                    ).contains(c)),
                forall|i: int|
                    0 <= i < j ==> old(self).loaded@.contains(
                        ((#[trigger] plan.to_evict@[i]), evicted@[i]),
                    ),
                forall|e: (ChunkCoord, ChunkRecord)| #[trigger]
                    self.loaded@.contains(e) ==> old(self).loaded@.contains(e),
                forall|e: (ChunkCoord, ChunkRecord)| #[trigger]
                    old(self).loaded@.contains(e) && !plan.to_evict@.subrange(
                        0,
                        j as int,
                    ).contains(e.0) ==> self.loaded@.contains(e),
            decreases plan.to_evict@.len() - j,
        {
            let c: ChunkCoord = plan.to_evict[j];
            proof {
                assert(plan.to_evict@.contains(c));
                assert(!plan.to_evict@.subrange(0, j as int).contains(c)) by {
                    if plan.to_evict@.subrange(0, j as int).contains(c) {
                        let idx = choose|idx: int|
                            0 <= idx < j && plan.to_evict@.subrange(0, j as int)[idx] == c;
                        assert(plan.to_evict@[idx] == c);
                        assert(plan.to_evict@[j as int] == c);
                    }
                }
                assert(self.has_coord(c));
            }
            let found: Option<usize> = self.find_coord(c);
            match found {
                Some(idx) => {
                    let ghost m0 = *self;
                    let entry: (ChunkCoord, ChunkRecord) = self.loaded.remove(idx);
                    evicted.push(entry.1);
                    proof {
                        assert forall|cc: ChunkCoord| #[trigger]
                            self.has_coord(cc) <==> (old(self).has_coord(cc)
                                && !plan.to_evict@.subrange(0, j as int + 1).contains(cc)) by {
                            lemma_remove_has_coord(m0.loaded@, self.loaded@, idx as int, cc);
                            assert(m0.has_coord(cc) <==> (old(self).has_coord(cc)
                                && !plan.to_evict@.subrange(0, j as int).contains(cc)));
                            assert(plan.to_evict@.subrange(0, j as int + 1) == plan.to_evict@
                                .subrange(0, j as int).push(c)) by {
                                assert(plan.to_evict@.subrange(0, j as int + 1) =~= plan.to_evict@
                                    .subrange(0, j as int).push(c));
                            }
                        }
                        assert(plan.to_evict@.subrange(0, j as int + 1) =~= plan.to_evict@
                            .subrange(0, j as int).push(c));
                        assert(plan.to_evict@.subrange(0, j as int + 1)[j as int] == c);
                        assert(entry == m0.loaded@[idx as int]);
                        assert(entry.0 == c);
                        assert((plan.to_evict@[j as int], evicted@[j as int]) == entry);
                        assert(old(self).loaded@.contains(entry)) by {
                            assert(m0.loaded@.contains(entry)) by {
                                assert(m0.loaded@[idx as int] == entry);
                            }
                        }
                        assert forall|e: (ChunkCoord, ChunkRecord)| #[trigger]
                            self.loaded@.contains(e) implies old(self).loaded@.contains(e) by {
                            let n = choose|n: int|
                                0 <= n < self.loaded@.len() && self.loaded@[n] == e;
                            if n < idx {
                                assert(m0.loaded@[n] == e);
                            } else {
                                assert(m0.loaded@[n + 1] == e);
                            }
                            assert(m0.loaded@.contains(e));
                        }
                        assert forall|e: (ChunkCoord, ChunkRecord)| #[trigger]
                            old(self).loaded@.contains(e) && !plan.to_evict@.subrange(
                                0,
                                j as int + 1,
                            ).contains(e.0) implies self.loaded@.contains(e) by {
                            if old(self).loaded@.contains(e) && !plan.to_evict@.subrange(
                                0,
                                j as int + 1,
                            ).contains(e.0) {
                                assert(e.0 != c) by {
                                    if e.0 == c {
                                        assert(plan.to_evict@.subrange(
                                            0,
                                            j as int + 1,
                                        ).contains(e.0));
                                    }
                                }
                                assert(!plan.to_evict@.subrange(0, j as int).contains(e.0));
                                assert(m0.loaded@.contains(e));
                                let n = choose|n: int|
                                    0 <= n < m0.loaded@.len() && m0.loaded@[n] == e;
                                assert(n != idx);
                                if n < idx {
                                    assert(self.loaded@[n] == e);
                                } else {
                                    assert(self.loaded@[n - 1] == e);
                                }
                            }
                        }
                        assert forall|a: int, b: int|
                            0 <= a < b < self.loaded@.len() implies (#[trigger] self.loaded@[a]).0
                            != (#[trigger] self.loaded@[b]).0 by {
                            if b < idx {
                                assert(m0.loaded@[a].0 != m0.loaded@[b].0);
                            } else if a < idx {
                                assert(self.loaded@[a] == m0.loaded@[a]);
                                assert(self.loaded@[b] == m0.loaded@[b + 1]);
                            } else {
                                assert(self.loaded@[a] == m0.loaded@[a + 1]);
                                assert(self.loaded@[b] == m0.loaded@[b + 1]);
                            }
                        }
                    }
                },
                None => {
                    proof {
                        assert(false);
                    }
                },
            }
            j = j + 1;
        }
        proof {
            assert(plan.to_evict@.subrange(0, plan.to_evict@.len() as int) =~= plan.to_evict@);
        }
        let ghost mid = *self;
        let mut created: Vec<ChunkRecord> = new_records;
        let mut k: usize = 0;
        while k < plan.to_create.len()
            invariant
                self.wf(),
                0 <= k <= plan.to_create@.len(),
                new_records@.len() == plan.to_create@.len(),
                created@ =~= new_records@.subrange(k as int, plan.to_create@.len() as int),
                distinct_coords(plan.to_create@),
                forall|c: ChunkCoord| plan.to_create@.contains(c) ==> !mid.has_coord(c),
                forall|c: ChunkCoord| #[trigger]
                    self.has_coord(c) <==> (mid.has_coord(c) || plan.to_create@.subrange(
                        0,
                        k as int,
                    ).contains(c)),
                forall|i: int|
                    0 <= i < k ==> self.loaded@.contains(
                        ((#[trigger] plan.to_create@[i]), new_records@[i]),
                    ),
                forall|e: (ChunkCoord, ChunkRecord)| #[trigger]
                    mid.loaded@.contains(e) ==> self.loaded@.contains(e),
            decreases plan.to_create@.len() - k,
        {
            let c: ChunkCoord = plan.to_create[k];
            proof {
                assert(plan.to_create@.contains(c));
                assert(!plan.to_create@.subrange(0, k as int).contains(c)) by {
                    if plan.to_create@.subrange(0, k as int).contains(c) {
                        let idx = choose|idx: int|
                            0 <= idx < k && plan.to_create@.subrange(0, k as int)[idx] == c;
                        assert(plan.to_create@[idx] == c);
                        assert(plan.to_create@[k as int] == c);
                    }
                }
                assert(!self.has_coord(c));
                assert(created@.len() == plan.to_create@.len() - k);
                assert(created@[0] == new_records@[k as int]);
            }
            let rec: ChunkRecord = created.remove(0);
            let ghost m0 = *self;
            self.loaded.push((c, rec));
            proof {
                assert(self.loaded@ == m0.loaded@.push((c, rec)));
                assert(self.loaded@[self.loaded@.len() - 1] == (
                    plan.to_create@[k as int],
                    new_records@[k as int],
                ));
                assert forall|cc: ChunkCoord| #[trigger]
                    self.has_coord(cc) <==> (mid.has_coord(cc) || plan.to_create@.subrange(
                        0,
                        k as int + 1,
                    ).contains(cc)) by {
                    assert(plan.to_create@.subrange(0, k as int + 1) == plan.to_create@.subrange(
                        0,
                        k as int,
                    ).push(c)) by {
                        assert(plan.to_create@.subrange(0, k as int + 1) =~= plan.to_create@
                            .subrange(0, k as int).push(c));
                    }
                    if cc == c {
                        assert(self.loaded@[self.loaded@.len() - 1].0 == c);
                        assert(self.has_coord(cc));
                    } else {
                        if self.has_coord(cc) {
                            let i = choose|i: int|
                                0 <= i < self.loaded@.len() && (#[trigger] self.loaded@[i]).0
                                    == cc;
                            assert(i < m0.loaded@.len());
                            assert(m0.loaded@[i].0 == cc);
                            assert(m0.has_coord(cc));
                        }
                        if m0.has_coord(cc) {
                            let i = choose|i: int|
                                0 <= i < m0.loaded@.len() && (#[trigger] m0.loaded@[i]).0 == cc;
                            assert(self.loaded@[i].0 == cc);
                        }
                    }
                }
                assert forall|a: int, b: int|
                    0 <= a < b < self.loaded@.len() implies (#[trigger] self.loaded@[a]).0 != (
                #[trigger] self.loaded@[b]).0 by {
                    if b == self.loaded@.len() - 1 {
                        assert(self.loaded@[a] == m0.loaded@[a]);
                        assert(m0.loaded@[a].0 == self.loaded@[a].0);
                        if self.loaded@[a].0 == c {
                            assert(m0.has_coord(c));
                        }
                    } else {
                        assert(self.loaded@[a] == m0.loaded@[a]);
                        assert(self.loaded@[b] == m0.loaded@[b]);
                    }
                }
                assert forall|e: (ChunkCoord, ChunkRecord)| #[trigger]
                    mid.loaded@.contains(e) implies self.loaded@.contains(e) by {
                    if mid.loaded@.contains(e) {
                        let n = choose|n: int|
                            0 <= n < m0.loaded@.len() && m0.loaded@[n] == e;
                        assert(self.loaded@[n] == e);
                    }
                }
                assert forall|i: int|
                    0 <= i < k + 1 implies self.loaded@.contains(
                    ((#[trigger] plan.to_create@[i]), new_records@[i]),
                ) by {
                    if i < k {
                        let n = choose|n: int|
                            0 <= n < m0.loaded@.len() && m0.loaded@[n] == (
                                plan.to_create@[i],
                                new_records@[i],
                            );
                        assert(self.loaded@[n] == (plan.to_create@[i], new_records@[i]));
                    } else {
                        assert(self.loaded@[self.loaded@.len() - 1] == (
                            plan.to_create@[i],
                            new_records@[i],
                        ));
                    }
                }
            }
            k = k + 1;
        }
        proof {
            assert(plan.to_create@.subrange(0, plan.to_create@.len() as int) =~= plan.to_create@);
        }
        evicted
    }
}

/// Law: after a ready tick is planned and applied, the loaded set equals the
/// wanted square exactly — not a superset, not a subset.
pub proof fn lemma_tick_exact_set(m0: ChunkManager, m1: ChunkManager, plan: TickPlan)
    requires
        plan_matches(plan, m0),
        forall|c: ChunkCoord| #[trigger]
            m1.has_coord(c) <==> ((m0.has_coord(c) && !plan.to_evict@.contains(c))
                || plan.to_create@.contains(c)),
    ensures
        forall|c: ChunkCoord| #[trigger]
            m1.has_coord(c) <==> in_square(c, plan.focus_chunk, plan.radius as int),
{
}

/// Law: a second tick at an unchanged focus plans nothing. If the loaded set
/// already equals the wanted square, the exact-difference plan is empty:
/// zero creations and zero evictions.
pub proof fn lemma_tick_idempotent(m: ChunkManager, plan: TickPlan)
    requires
        plan_matches(plan, m),
        forall|c: ChunkCoord| #[trigger]
            m.has_coord(c) <==> in_square(c, plan.focus_chunk, plan.radius as int),
    ensures
        plan.to_create@.len() == 0,
        plan.to_evict@.len() == 0,
{
    if plan.to_create@.len() > 0 {
        assert(plan.to_create@.contains(plan.to_create@[0]));
    }
    if plan.to_evict@.len() > 0 {
        assert(plan.to_evict@.contains(plan.to_evict@[0]));
    }
}

/// Removing one entry removes exactly its coordinate from the loaded set,
/// when coordinates are unique.
proof fn lemma_remove_has_coord(
    pre: Seq<(ChunkCoord, ChunkRecord)>,
    post: Seq<(ChunkCoord, ChunkRecord)>,
    idx: int,
    c: ChunkCoord,
)
    requires
        0 <= idx < pre.len(),
        post == pre.remove(idx),
        forall|i: int, j: int|
            0 <= i < j < pre.len() ==> (#[trigger] pre[i]).0 != (#[trigger] pre[j]).0,
    ensures
        (exists|i: int| 0 <= i < post.len() && (#[trigger] post[i]).0 == c) <==> ((exists|i: int|
            0 <= i < pre.len() && (#[trigger] pre[i]).0 == c) && pre[idx].0 != c),
{
    if exists|i: int| 0 <= i < post.len() && (#[trigger] post[i]).0 == c {
        let i = choose|i: int| 0 <= i < post.len() && (#[trigger] post[i]).0 == c;
        if i < idx {
            assert(pre[i].0 == c);
        } else {
            assert(pre[i + 1].0 == c);
        }
    }
    if (exists|i: int| 0 <= i < pre.len() && (#[trigger] pre[i]).0 == c) && pre[idx].0 != c {
        let i = choose|i: int| 0 <= i < pre.len() && (#[trigger] pre[i]).0 == c;
        if i < idx {
            assert(post[i].0 == c);
        } else {
            assert(i != idx);
            assert(post[i - 1].0 == c);
        }
    }
}

} // verus!

//! Weighted tables: prefix sums over `u32` weights and lower-bound selection.
//!
//! Both the region palette of the sampler and the decoration palette of each
//! region pick entries by drawing `r` uniformly below the total weight and
//! taking the first entry whose cumulative weight exceeds `r`. Entry `i` is
//! selected for exactly the draws in `[prefix_sum(i), prefix_sum(i + 1))`,
//! so each entry wins exactly its own weight's share of the draws.

use vstd::prelude::*;
use vstd::set_lib::{lemma_int_range, set_int_range};

verus! {

/// Sum of the first `i` weights.
pub open spec fn prefix_sum(ws: Seq<u32>, i: int) -> int
    decreases i,
{
    if i <= 0 {
        0
    } else {
        prefix_sum(ws, i - 1) + ws[i - 1]
    }
}

/// `prefix` is the table of cumulative weights of `ws` and `total` their sum.
pub open spec fn prefix_ok(ws: Seq<u32>, prefix: Seq<u32>, total: int) -> bool {
    &&& prefix.len() == ws.len()
    &&& (forall|i: int| 0 <= i < ws.len() ==> #[trigger] prefix[i] == prefix_sum(ws, i + 1))
    &&& total == prefix_sum(ws, ws.len() as int)
}

/// Draw `r` selects entry `i`: `r` lies in entry `i`'s cumulative interval.
pub open spec fn selects(ws: Seq<u32>, r: int, i: int) -> bool {
    &&& 0 <= i < ws.len()
    &&& prefix_sum(ws, i) <= r < prefix_sum(ws, i + 1)
}

/// Prefix sums never decrease.
pub proof fn lemma_prefix_sum_monotonic(ws: Seq<u32>, i: int, j: int)
    requires
        i <= j,
    ensures
        prefix_sum(ws, i) <= prefix_sum(ws, j),
    decreases j - i,
{
    if i < j {
        lemma_prefix_sum_monotonic(ws, i, j - 1);
    }
}

/// A draw selects at most one entry.
pub proof fn lemma_selects_unique(ws: Seq<u32>, r: int, i: int, j: int)
    requires
        selects(ws, r, i),
        selects(ws, r, j),
    ensures
        i == j,
{
    if i < j {
        lemma_prefix_sum_monotonic(ws, i + 1, j);
        assert(false);
    }
    if j < i {
        lemma_prefix_sum_monotonic(ws, j + 1, i);
        assert(false);
    }
}

/// Law: weighted selection is exact. Among the draws in `[0, total)`, the ones
/// that select entry `i` form precisely the interval
/// `[prefix_sum(i), prefix_sum(i + 1))`, so entry `i` is selected by exactly
/// `ws[i]` of the `total` equally likely draws.
pub proof fn lemma_selection_frequency(ws: Seq<u32>, i: int)
    requires
        0 <= i < ws.len(),
    ensures
        Set::new(
            |r: int| 0 <= r < prefix_sum(ws, ws.len() as int) && selects(ws, r, i),
        ) =~= set_int_range(prefix_sum(ws, i), prefix_sum(ws, i + 1)),
        Set::new(
            |r: int| 0 <= r < prefix_sum(ws, ws.len() as int) && selects(ws, r, i),
        ).len() == ws[i],
{
    let total = prefix_sum(ws, ws.len() as int);
    let lo = prefix_sum(ws, i);
    let hi = prefix_sum(ws, i + 1);
    lemma_prefix_sum_monotonic(ws, 0, i);
    lemma_prefix_sum_monotonic(ws, i + 1, ws.len() as int);
    assert(Set::new(|r: int| 0 <= r < total && selects(ws, r, i)) =~= set_int_range(lo, hi));
    lemma_int_range(lo, hi);
}

/// Every draw below the total selects some entry.
pub proof fn lemma_selects_exists(ws: Seq<u32>, r: int)
    requires
        0 <= r < prefix_sum(ws, ws.len() as int),
    ensures
        exists|i: int| selects(ws, r, i),
{
    lemma_selects_exists_upto(ws, r, ws.len() as int);
}

proof fn lemma_selects_exists_upto(ws: Seq<u32>, r: int, j: int)
    requires
        0 <= j <= ws.len(),
        0 <= r < prefix_sum(ws, j),
    ensures
        exists|i: int| selects(ws, r, i),
    decreases j,
{
    assert(prefix_sum(ws, 0) == 0);
    if j > 0 {
        if r < prefix_sum(ws, j - 1) {
            lemma_selects_exists_upto(ws, r, j - 1);
        } else {
            assert(selects(ws, r, j - 1));
        }
    }
}

/// The entry selected by draw `r`, as a spec-level value.
pub open spec fn selected_index(ws: Seq<u32>, r: int) -> int {
    choose|i: int| selects(ws, r, i)
}

/// `selected_index` agrees with any index that `selects` admits.
pub proof fn lemma_selected_index_is(ws: Seq<u32>, r: int, i: int)
    requires
        selects(ws, r, i),
    ensures
        selected_index(ws, r) == i,
{
    assert(exists|j: int| selects(ws, r, j));
    lemma_selects_unique(ws, r, i, selected_index(ws, r));
}

/// Whether a sequence of cumulative weights never decreases.
pub open spec fn nondecreasing(s: Seq<u32>) -> bool {
    forall|j: int, k: int| #![trigger s[j], s[k]] 0 <= j <= k < s.len() ==> s[j] <= s[k]
}

/// Whether a sequence of cumulative weights strictly increases.
pub open spec fn strictly_increasing(s: Seq<u32>) -> bool {
    forall|j: int, k: int| #![trigger s[j], s[k]] 0 <= j < k < s.len() ==> s[j] < s[k]
}

/// A cumulative table over entirely positive weights strictly increases.
pub proof fn lemma_prefix_strictly_increasing(ws: Seq<u32>, prefix: Seq<u32>, total: int)
    requires
        prefix_ok(ws, prefix, total),
        forall|i: int| 0 <= i < ws.len() ==> #[trigger] ws[i] > 0,
    ensures
        strictly_increasing(prefix),
{
    assert forall|j: int, k: int| 0 <= j < k < prefix.len() implies prefix[j] < prefix[k] by {
        lemma_prefix_sum_monotonic(ws, j + 1, k);
        assert(prefix_sum(ws, k + 1) == prefix_sum(ws, k) + ws[k]);
    }
}

/// Cumulative weight tables never decrease.
pub proof fn lemma_prefix_nondecreasing(ws: Seq<u32>, prefix: Seq<u32>, total: int)
    requires
        prefix_ok(ws, prefix, total),
    ensures
        nondecreasing(prefix),
{
    assert forall|j: int, k: int| 0 <= j <= k < prefix.len() implies prefix[j] <= prefix[k] by {
        lemma_prefix_sum_monotonic(ws, j + 1, k + 1);
    }
}

/// Build the cumulative weight table of `ws`.
///
/// Fails fast — returns `None` — when there are no entries, when any entry
/// has weight zero (the table would not be strictly increasing, and such an
/// entry could never be selected), or when the sum does not fit in `u32`.
pub fn build_prefix(ws: &Vec<u32>) -> (r: Option<(Vec<u32>, u32)>)
    ensures
        match r {
            Some((prefix, total)) => {
                &&& prefix_ok(ws@, prefix@, total as int)
                &&& 0 < total
                &&& forall|i: int| 0 <= i < ws@.len() ==> #[trigger] ws@[i] > 0
                &&& strictly_increasing(prefix@)
            },
            None => ws@.len() == 0 || (exists|i: int|
                0 <= i < ws@.len() && #[trigger] ws@[i] == 0) || prefix_sum(
                ws@,
                ws@.len() as int,
            ) > u32::MAX,
        },
{
    let mut prefix: Vec<u32> = Vec::new();
    let mut acc: u32 = 0;
    let mut k: usize = 0;
    while k < ws.len()
        invariant
            0 <= k <= ws@.len(),
            prefix@.len() == k,
            acc as int == prefix_sum(ws@, k as int),
            forall|i: int| 0 <= i < k ==> #[trigger] prefix@[i] == prefix_sum(ws@, i + 1),
            forall|i: int| 0 <= i < k ==> #[trigger] ws@[i] > 0,
        decreases ws@.len() - k,
    {
        let w: u32 = ws[k];
        if w == 0 {
            return None;
        }
        if acc > u32::MAX - w {
            proof {
                lemma_prefix_sum_monotonic(ws@, k as int + 1, ws@.len() as int);
            }
            return None;
        }
        acc = acc + w;
        prefix.push(acc);
        k = k + 1;
    }
    if ws.len() == 0 {
        return None;
    }
    proof {
        assert(prefix_sum(ws@, 1) == ws@[0]);
        lemma_prefix_sum_monotonic(ws@, 1, ws@.len() as int);
        lemma_prefix_strictly_increasing(ws@, prefix@, acc as int);
    }
    Some((prefix, acc))
}

/// First index whose cumulative weight reaches `target`.
pub fn lower_bound(prefix: &Vec<u32>, target: u32) -> (i: usize)
    requires
        nondecreasing(prefix@),
        prefix@.len() > 0,
        target <= prefix@[prefix@.len() - 1],
    ensures
        i < prefix@.len(),
        prefix@[i as int] >= target,
        forall|j: int| 0 <= j < i ==> prefix@[j] < target,
{
    let mut lo: usize = 0;
    let mut hi: usize = prefix.len() - 1;
    while lo < hi
        invariant
            nondecreasing(prefix@),
            0 <= lo <= hi < prefix@.len(),
            prefix@[hi as int] >= target,
            forall|j: int| 0 <= j < lo ==> prefix@[j] < target,
        decreases hi - lo,
    {
        let mid: usize = lo + (hi - lo) / 2;
        if prefix[mid] >= target {
            hi = mid;
        } else {
            proof {
                assert forall|j: int| 0 <= j <= mid implies prefix@[j] < target by {
                    assert(prefix@[j] <= prefix@[mid as int]);
                }
            }
            lo = mid + 1;
        }
    }
    lo
}

/// Select the entry of a weighted table hit by draw `r`.
///
/// Returns the unique `i` with `prefix_sum(i) <= r < prefix_sum(i + 1)`.
pub fn pick_index(ws: Ghost<Seq<u32>>, prefix: &Vec<u32>, total: u32, r: u32) -> (i: usize)
    requires
        prefix_ok(ws@, prefix@, total as int),
        r < total,
    ensures
        selects(ws@, r as int, i as int),
        i < prefix@.len(),
{
    proof {
        lemma_prefix_nondecreasing(ws@, prefix@, total as int);
        if prefix@.len() == 0 {
            assert(total == 0);
        }
        assert(prefix@[prefix@.len() - 1] == prefix_sum(ws@, prefix@.len() as int));
    }
    let i: usize = lower_bound(prefix, r + 1);
    proof {
        assert(prefix@[i as int] == prefix_sum(ws@, i as int + 1));
        if i > 0 {
            assert(prefix@[i as int - 1] == prefix_sum(ws@, i as int));
            assert(prefix@[i as int - 1] < r + 1);
        }
    }
    i
}

} // verus!

//! The index pipeline of one frame: from per-primitive visibility, depth keys
//! and covered tile rectangles to the tile-sorted intersection stream and the
//! per-tile bins.
use vstd::prelude::*;
use crate::bins::{is_tile_bin, isects_sorted, sort_by_tile, tile_bin_edges};
use crate::emit::{areas, count_tiles_hit, emit_intersections, emitted, truncate};
use crate::offsets::{gather, gather_by, inclusive_prefix_sum, last_or_zero, sum};
use crate::order::{
    compact_visible, depth_argsort, is_permutation_of_range, lemma_compaction,
    lemma_permutation_entries, sorted_by_key, visible_ids,
};
use crate::tiles::{
    ceil_div, intersect_budget, lemma_tile_at_in_grid, max_intersects, tile_bounds, TileRect,
    TILE_WIDTH,
};

verus! {

broadcast use vstd::seq_lib::group_to_multiset_ensures;

/// Index tables of one frame, named after the buffers they stand for.
pub struct IntersectPlan {
    /// Tile grid `(tiles_x, tiles_y)`.
    pub tile_bounds: (u32, u32),
    /// Global index of the primitive in each compact slot.
    pub global_from_compact_gid: Vec<u32>,
    /// Compact slot of the `k`-th nearest visible primitive.
    pub compact_from_depthsort_gid: Vec<u32>,
    /// Tile counts of the visible primitives, nearest first.
    pub num_tiles_hit: Vec<u32>,
    /// Inclusive running totals of `num_tiles_hit`.
    pub cum_tiles_hit: Vec<u64>,
    /// `(tile_id, depthsort_gid)` records sorted by tile, then by depth.
    pub isects: Vec<(u32, u32)>,
    /// `[start, end)` of each tile's records in `isects`, row-major.
    pub tile_bins: Vec<(u32, u32)>,
}

/// `vals` read through `ids`.
pub open spec fn gather_rects(vals: Seq<TileRect>, ids: Seq<u32>) -> Seq<TileRect> {
    Seq::new(ids.len(), |k: int| vals[ids[k] as int])
}

fn gather_rects_exec(vals: &Vec<TileRect>, ids: &Vec<u32>) -> (r: Vec<TileRect>)
    requires
        forall|k: int| 0 <= k < ids.len() ==> ids[k] < vals.len(),
    ensures
        r@ == gather_rects(vals@, ids@),
{
    let mut r: Vec<TileRect> = Vec::new();
    let mut k: usize = 0;
    while k < ids.len()
        invariant
            k <= ids.len(),
            forall|m: int| 0 <= m < ids.len() ==> ids[m] < vals.len(),
            r.len() == k,
            forall|m: int| 0 <= m < k ==> r[m] == vals[ids[m] as int],
        decreases ids.len() - k,
    {
        r.push(vals[ids[k] as usize]);
        k += 1;
    }
    assert(r@ =~= gather_rects(vals@, ids@));
    r
}

/// Every emitted record names a tile of the grid and one of the first `d`
/// depth-sorted primitives.
proof fn lemma_emitted_entries(
    rects: Seq<TileRect>,
    order: Seq<u32>,
    tiles_x: nat,
    tiles_y: nat,
    d: nat,
)
    requires
        d <= order.len() <= u32::MAX,
        forall|k: int| 0 <= k < order.len() ==> order[k] < rects.len(),
        forall|g: int| 0 <= g < rects.len() ==> rects[g].wf(tiles_x, tiles_y),
    ensures
        forall|i: int|
            0 <= i < emitted(rects, order, tiles_x, d).len() ==> emitted(rects, order, tiles_x, d)[i].0
                < tiles_x * tiles_y && emitted(rects, order, tiles_x, d)[i].1 < d,
    decreases d,
{
    if d > 0 {
        lemma_emitted_entries(rects, order, tiles_x, tiles_y, (d - 1) as nat);
        let rect = rects[order[d - 1] as int];
        let before = emitted(rects, order, tiles_x, (d - 1) as nat);
        let all = emitted(rects, order, tiles_x, d);
        assert forall|i: int| 0 <= i < all.len() implies all[i].0 < tiles_x * tiles_y && all[i].1
            < d by {
            if i >= before.len() {
                let k = i - before.len();
                lemma_tile_at_in_grid(rect, k as nat, tiles_x, tiles_y);
            }
        }
    }
}

/// Runs the index stages of a frame on the projected primitives: compaction
/// of the visible ones, depth argsort, tile counts and their running totals,
/// intersection emission under the frame's budget, tile sort and bin edges.
///
/// `visible[g]`, `depth_keys[g]` and `rects[g]` describe primitive `g`; a depth
/// key is the bit pattern of a positive depth.
pub fn plan_intersections(
    visible: &Vec<bool>,
    depth_keys: &Vec<u32>,
    rects: &Vec<TileRect>,
    width: u32,
    height: u32,
) -> (r: IntersectPlan)
    requires
        visible.len() <= u32::MAX,
        depth_keys.len() == visible.len(),
        rects.len() == visible.len(),
        ceil_div(width as nat, TILE_WIDTH as nat) * ceil_div(height as nat, TILE_WIDTH as nat)
            <= u32::MAX,
        forall|g: int|
            0 <= g < rects.len() ==> rects[g].wf(
                ceil_div(width as nat, TILE_WIDTH as nat),
                ceil_div(height as nat, TILE_WIDTH as nat),
            ),
    ensures
        r.tile_bounds == (
            ceil_div(width as nat, TILE_WIDTH as nat) as u32,
            ceil_div(height as nat, TILE_WIDTH as nat) as u32,
        ),
        r.global_from_compact_gid@ == visible_ids(visible@),
        is_permutation_of_range(
            r.compact_from_depthsort_gid@,
            r.global_from_compact_gid.len() as nat,
        ),
        sorted_by_key(
            r.compact_from_depthsort_gid@,
            gather(depth_keys@, r.global_from_compact_gid@),
        ),
        r.num_tiles_hit@ == gather(
            areas(gather_rects(rects@, r.global_from_compact_gid@)),
            r.compact_from_depthsort_gid@,
        ),
        r.cum_tiles_hit.len() == r.num_tiles_hit.len(),
        forall|i: int|
            0 <= i < r.cum_tiles_hit.len() ==> r.cum_tiles_hit[i] == sum(
                #[trigger] r.num_tiles_hit@.subrange(0, i + 1),
            ),
        last_or_zero(r.cum_tiles_hit@) == sum(
            areas(gather_rects(rects@, r.global_from_compact_gid@)),
        ),
        r.isects@.to_multiset() == truncate(
            emitted(
                gather_rects(rects@, r.global_from_compact_gid@),
                r.compact_from_depthsort_gid@,
                r.tile_bounds.0 as nat,
                r.compact_from_depthsort_gid.len() as nat,
            ),
            intersect_budget(visible.len() as nat, r.tile_bounds.0 as nat * r.tile_bounds.1 as nat),
        ).to_multiset(),
        isects_sorted(r.isects@),
        forall|i: int|
            0 <= i < r.isects.len() ==> {
                let d = #[trigger] r.isects[i].1 as int;
                &&& r.isects[i].0 < r.tile_bins.len()
                &&& d < r.compact_from_depthsort_gid.len()
                &&& visible[r.global_from_compact_gid[r.compact_from_depthsort_gid[d] as int] as int]
            },
        r.tile_bins.len() == r.tile_bounds.0 as nat * r.tile_bounds.1 as nat,
        forall|t: int|
            0 <= t < r.tile_bins.len() ==> is_tile_bin(r.isects@, t as u32, #[trigger] r.tile_bins[t]),
{
    let (tiles_x, tiles_y) = tile_bounds(width, height);
    let num_tiles = tiles_x * tiles_y;

    let global_from_compact_gid = compact_visible(visible);
    let num_visible = global_from_compact_gid.len();
    proof {
        lemma_compaction(visible@);
    }
    let compact_keys = gather_by(depth_keys, &global_from_compact_gid);
    let compact_rects = gather_rects_exec(rects, &global_from_compact_gid);

    let compact_from_depthsort_gid = depth_argsort(&compact_keys, num_visible);
    proof {
        lemma_permutation_entries(compact_from_depthsort_gid@, num_visible as nat);
    }

    let hits = count_tiles_hit(&compact_rects, tiles_x, tiles_y);
    let num_tiles_hit = gather_by(&hits, &compact_from_depthsort_gid);
    let cum_tiles_hit = inclusive_prefix_sum(&num_tiles_hit);
    proof {
        crate::offsets::lemma_prefix_total(hits@, compact_from_depthsort_gid@, num_visible as nat, cum_tiles_hit@);
        assert(hits@.subrange(0, num_visible as int) == hits@);
    }

    let cap = max_intersects(visible.len(), num_tiles);
    let emitted_isects = emit_intersections(
        &compact_rects,
        &compact_from_depthsort_gid,
        tiles_x,
        tiles_y,
        cap,
    );
    let ghost all = emitted(
        compact_rects@,
        compact_from_depthsort_gid@,
        tiles_x as nat,
        num_visible as nat,
    );
    proof {
        lemma_emitted_entries(
            compact_rects@,
            compact_from_depthsort_gid@,
            tiles_x as nat,
            tiles_y as nat,
            num_visible as nat,
        );
        assert forall|i: int| 0 <= i < emitted_isects.len() implies emitted_isects[i].0
            < num_tiles && emitted_isects[i].1 < num_visible by {
            assert(emitted_isects[i] == all[i]);
        }
    }
    let isects = sort_by_tile(emitted_isects);
    proof {
        assert forall|i: int| 0 <= i < isects.len() implies isects[i].0 < num_tiles
            && isects[i].1 < num_visible by {
            assert(isects@.to_multiset().count(isects[i]) > 0);
            assert(emitted_isects@.contains(isects[i]));
        }
        assert forall|i: int, j: int| 0 <= i <= j < isects.len() implies isects[i].0
            <= isects[j].0 by {
            assert(crate::bins::isect_le(isects[i], isects[j]));
        }
    }
    let tile_bins = tile_bin_edges(&isects, num_tiles);
    IntersectPlan {
        tile_bounds: (tiles_x, tiles_y),
        global_from_compact_gid,
        compact_from_depthsort_gid,
        num_tiles_hit,
        cum_tiles_hit,
        isects,
        tile_bins,
    }
}

} // verus!

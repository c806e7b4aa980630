//! Emission of one `(tile_id, depthsort_gid)` record per tile that each
//! visible primitive covers, in depth order.
use vstd::prelude::*;
use crate::offsets::{gather, sum};
use crate::tiles::{lemma_tile_at_in_grid, TileRect};

verus! {

/// Records of the depth-sorted primitive `d`, whose tiles are `rect`.
pub open spec fn prim_isects(rect: TileRect, tiles_x: nat, d: u32) -> Seq<(u32, u32)> {
    Seq::new(rect.area(), |k: int| (rect.tile_at(k as nat, tiles_x) as u32, d))
}

/// Records of the first `d` depth-sorted primitives; primitive `order[k]`
/// (in compact numbering) is the `k`-th nearest.
pub open spec fn emitted(rects: Seq<TileRect>, order: Seq<u32>, tiles_x: nat, d: nat) -> Seq<
    (u32, u32),
>
    decreases d,
{
    if d == 0 {
        Seq::empty()
    } else {
        emitted(rects, order, tiles_x, (d - 1) as nat) + prim_isects(
            rects[order[d - 1] as int],
            tiles_x,
            (d - 1) as u32,
        )
    }
}

/// The first `cap` entries of `s`, or all of it when it is shorter.
pub open spec fn truncate<A>(s: Seq<A>, cap: nat) -> Seq<A> {
    if s.len() <= cap {
        s
    } else {
        s.subrange(0, cap as int)
    }
}

/// Tile counts of the rectangles, one per primitive (`num_tiles_hit`).
pub open spec fn areas(rects: Seq<TileRect>) -> Seq<u32> {
    Seq::new(rects.len(), |g: int| rects[g].area() as u32)
}

/// Number of tiles each primitive's rectangle covers.
pub fn count_tiles_hit(rects: &Vec<TileRect>, tiles_x: u32, tiles_y: u32) -> (r: Vec<u32>)
    requires
        forall|g: int| 0 <= g < rects.len() ==> rects[g].wf(tiles_x as nat, tiles_y as nat),
        tiles_x as nat * tiles_y as nat <= u32::MAX,
    ensures
        r@ == areas(rects@),
        forall|g: int| 0 <= g < rects.len() ==> r[g] == rects[g].area(),
{
    let mut r: Vec<u32> = Vec::new();
    let mut g: usize = 0;
    while g < rects.len()
        invariant
            g <= rects.len(),
            forall|h: int| 0 <= h < rects.len() ==> rects[h].wf(tiles_x as nat, tiles_y as nat),
            tiles_x as nat * tiles_y as nat <= u32::MAX,
            r.len() == g,
            forall|h: int| 0 <= h < g ==> r[h] == rects[h].area(),
        decreases rects.len() - g,
    {
        r.push(rects[g].num_tiles_hit(tiles_x, tiles_y));
        g += 1;
    }
    assert(r@ =~= areas(rects@));
    r
}

/// The records of the first `d` primitives number as many as their tile
/// counts add up to, so primitive `d`'s records start where the running total
/// of the earlier ones ends.
pub proof fn lemma_emitted_len(rects: Seq<TileRect>, order: Seq<u32>, tiles_x: nat, d: nat)
    requires
        d <= order.len(),
        forall|k: int| 0 <= k < order.len() ==> order[k] < rects.len(),
        forall|g: int| 0 <= g < rects.len() ==> rects[g].area() <= u32::MAX,
    ensures
        emitted(rects, order, tiles_x, d).len() == sum(
            gather(areas(rects), order).subrange(0, d as int),
        ),
    decreases d,
{
    if d > 0 {
        lemma_emitted_len(rects, order, tiles_x, (d - 1) as nat);
        let gs = gather(areas(rects), order);
        assert(gs.subrange(0, d as int).drop_last() == gs.subrange(0, d - 1));
    }
}

/// The records of the first `d` primitives open those of the first `e`.
proof fn lemma_emitted_prefix(rects: Seq<TileRect>, order: Seq<u32>, tiles_x: nat, d: nat, e: nat)
    requires
        d <= e,
    ensures
        emitted(rects, order, tiles_x, d).len() <= emitted(rects, order, tiles_x, e).len(),
        emitted(rects, order, tiles_x, e).subrange(
            0,
            emitted(rects, order, tiles_x, d).len() as int,
        ) == emitted(rects, order, tiles_x, d),
    decreases e - d,
{
    if d < e {
        lemma_emitted_prefix(rects, order, tiles_x, d, (e - 1) as nat);
        let a = emitted(rects, order, tiles_x, d);
        let b = emitted(rects, order, tiles_x, (e - 1) as nat);
        let c = emitted(rects, order, tiles_x, e);
        assert(c.subrange(0, b.len() as int) == b);
        assert(c.subrange(0, a.len() as int) =~= b.subrange(0, a.len() as int));
    }
}

/// Primitive `d`'s records fill the slots from the running total of the
/// earlier primitives' tile counts up to the total that includes its own.
pub proof fn lemma_emitted_slots(
    rects: Seq<TileRect>,
    order: Seq<u32>,
    tiles_x: nat,
    d: nat,
    i: int,
)
    requires
        d < order.len() <= u32::MAX,
        forall|k: int| 0 <= k < order.len() ==> order[k] < rects.len(),
        forall|g: int| 0 <= g < rects.len() ==> rects[g].area() <= u32::MAX,
        sum(gather(areas(rects), order).subrange(0, d as int)) <= i < sum(
            gather(areas(rects), order).subrange(0, d as int + 1),
        ),
    ensures
        i < emitted(rects, order, tiles_x, order.len()).len(),
        emitted(rects, order, tiles_x, order.len())[i].1 == d,
{
    lemma_emitted_len(rects, order, tiles_x, d);
    lemma_emitted_len(rects, order, tiles_x, (d + 1) as nat);
    lemma_emitted_prefix(rects, order, tiles_x, (d + 1) as nat, order.len());
    let before = emitted(rects, order, tiles_x, d);
    let upto = emitted(rects, order, tiles_x, (d + 1) as nat);
    let all = emitted(rects, order, tiles_x, order.len());
    let mine = prim_isects(rects[order[d as int] as int], tiles_x, d as u32);
    assert(upto == before + mine);
    assert(upto[i] == mine[i - before.len()]);
    assert(all[i] == upto[i]);
}

/// Slots `[start, end)` of the intersection stream that the `d`-th nearest
/// primitive writes, from the inclusive running totals of the tile counts:
/// it starts at `cum_tiles_hit[d] - num_tiles_hit[d]`.
pub fn isect_range(cum_tiles_hit: &Vec<u64>, num_tiles_hit: &Vec<u32>, d: usize) -> (r: (u64, u64))
    requires
        d < cum_tiles_hit.len(),
        cum_tiles_hit.len() == num_tiles_hit.len(),
        forall|i: int|
            0 <= i < cum_tiles_hit.len() ==> cum_tiles_hit[i] == sum(
                #[trigger] num_tiles_hit@.subrange(0, i + 1),
            ),
    ensures
        r.0 == sum(num_tiles_hit@.subrange(0, d as int)),
        r.1 == sum(num_tiles_hit@.subrange(0, d + 1)),
        r.1 - r.0 == num_tiles_hit[d as int],
{
    assert(num_tiles_hit@.subrange(0, d + 1).drop_last() == num_tiles_hit@.subrange(0, d as int));
    proof {
        crate::offsets::lemma_sum_bound(num_tiles_hit@.subrange(0, d as int));
    }
    let end = cum_tiles_hit[d];
    (end - num_tiles_hit[d] as u64, end)
}

/// One record per covered tile of each depth-sorted primitive, nearest
/// primitive first and each one's tiles row by row; records past `cap` are
/// dropped.
pub fn emit_intersections(
    rects: &Vec<TileRect>,
    order: &Vec<u32>,
    tiles_x: u32,
    tiles_y: u32,
    cap: usize,
) -> (r: Vec<(u32, u32)>)
    requires
        forall|g: int| 0 <= g < rects.len() ==> rects[g].wf(tiles_x as nat, tiles_y as nat),
        forall|k: int| 0 <= k < order.len() ==> order[k] < rects.len(),
        order.len() <= u32::MAX,
        tiles_x as nat * tiles_y as nat <= u32::MAX,
    ensures
        r@ == truncate(emitted(rects@, order@, tiles_x as nat, order.len() as nat), cap as nat),
{
    let mut out: Vec<(u32, u32)> = Vec::new();
    let mut d: usize = 0;
    while d < order.len()
        invariant
            d <= order.len() <= u32::MAX,
            forall|g: int| 0 <= g < rects.len() ==> rects[g].wf(tiles_x as nat, tiles_y as nat),
            forall|k: int| 0 <= k < order.len() ==> order[k] < rects.len(),
            tiles_x as nat * tiles_y as nat <= u32::MAX,
            out@ == truncate(emitted(rects@, order@, tiles_x as nat, d as nat), cap as nat),
        decreases order.len() - d,
    {
        let rect = rects[order[d] as usize];
        let area = rect.num_tiles_hit(tiles_x, tiles_y);
        let w = rect.max_x - rect.min_x;
        let ghost before = emitted(rects@, order@, tiles_x as nat, d as nat);
        let ghost mine = prim_isects(rect, tiles_x as nat, d as u32);
        let mut k: u32 = 0;
        while k < area
            invariant
                k <= area,
                area == rect.area(),
                w == rect.width(),
                rect.wf(tiles_x as nat, tiles_y as nat),
                tiles_x as nat * tiles_y as nat <= u32::MAX,
                d < order.len() <= u32::MAX,
                mine == prim_isects(rect, tiles_x as nat, d as u32),
                out@ == truncate(before + mine.subrange(0, k as int), cap as nat),
            decreases area - k,
        {
            proof {
                lemma_tile_at_in_grid(rect, k as nat, tiles_x as nat, tiles_y as nat);
                assert((before + mine.subrange(0, k + 1)) =~= (before + mine.subrange(
                    0,
                    k as int,
                )).push(mine[k as int]));
            }
            if out.len() < cap {
                let x = rect.min_x + k % w;
                let y = rect.min_y + k / w;
                proof {
                    assert(y as nat * tiles_x as nat + x as nat <= u32::MAX);
                }
                out.push((y * tiles_x + x, d as u32));
            }
            k += 1;
        }
        proof {
            assert(mine.subrange(0, area as int) == mine);
            assert(emitted(rects@, order@, tiles_x as nat, (d + 1) as nat) == before + mine);
        }
        d += 1;
    }
    out
}

} // verus!

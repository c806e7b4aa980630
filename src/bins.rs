//! Ordering of the intersection records by tile and the per-tile ranges
//! (`tile_bins`) that the rasterizer walks.
use vstd::prelude::*;
use crate::order::lemma_swap_multiset;

verus! {

broadcast use {vstd::seq_lib::group_to_multiset_ensures, vstd::multiset::group_multiset_axioms};

/// Records ordered by tile id, then by depth-sorted id.
pub open spec fn isect_le(a: (u32, u32), b: (u32, u32)) -> bool {
    a.0 < b.0 || (a.0 == b.0 && a.1 <= b.1)
}

/// Every record precedes each later one in [`isect_le`] order.
pub open spec fn isects_sorted(s: Seq<(u32, u32)>) -> bool {
    forall|i: int, j: int| 0 <= i <= j < s.len() ==> isect_le(s[i], s[j])
}

/// Sorts the records by tile id. Within a tile they come out by ascending
/// depth-sorted id, that is front to back.
pub fn sort_by_tile(isects: Vec<(u32, u32)>) -> (r: Vec<(u32, u32)>)
    ensures
        r@.to_multiset() == isects@.to_multiset(),
        r.len() == isects.len(),
        isects_sorted(r@),
{
    let mut v = isects;
    let ghost orig = v@;
    let n = v.len();
    if n == 0 {
        return v;
    }
    let mut i: usize = 1;
    while i < n
        invariant
            v.len() == n,
            n == orig.len(),
            v@.to_multiset() == orig.to_multiset(),
            1 <= i <= n,
            forall|a: int, b: int| 0 <= a <= b < i ==> isect_le(v[a], v[b]),
        decreases n - i,
    {
        let mut j: usize = i;
        while j > 0 && (v[j - 1].0 > v[j].0 || (v[j - 1].0 == v[j].0 && v[j - 1].1 > v[j].1))
            invariant
                v.len() == n,
                n == orig.len(),
                i < n,
                j <= i,
                v@.to_multiset() == orig.to_multiset(),
                forall|a: int, b: int| 0 <= a <= b < j ==> isect_le(v[a], v[b]),
                forall|a: int, b: int| j <= a <= b <= i ==> isect_le(v[a], v[b]),
                forall|a: int, b: int| 0 <= a < j < b <= i ==> isect_le(v[a], v[b]),
            decreases j,
        {
            let x = v[j];
            let y = v[j - 1];
            proof {
                lemma_swap_multiset(v@, j - 1, j as int);
            }
            v.set(j - 1, x);
            v.set(j, y);
            j -= 1;
        }
        assert forall|a: int, b: int| 0 <= a <= b <= i implies isect_le(v[a], v[b]) by {
            if 0 < j && a < j && j <= b {
                assert(isect_le(v[a], v[j - 1]));
            }
        }
        i += 1;
    }
    assert(v@.to_multiset().len() == v.len());
    v
}

/// Tile ids of the records never decrease.
pub open spec fn tiles_sorted(s: Seq<(u32, u32)>) -> bool {
    forall|i: int, j: int| 0 <= i <= j < s.len() ==> s[i].0 <= s[j].0
}

/// `bin = (start, end)` is exactly the run of records on tile `t`: it is
/// ordered, every record in it is on `t`, and no record outside it is.
pub open spec fn is_tile_bin(s: Seq<(u32, u32)>, t: u32, bin: (u32, u32)) -> bool {
    &&& bin.0 <= bin.1 <= s.len()
    &&& forall|i: int| bin.0 <= i < bin.1 ==> s[i].0 == t
    &&& forall|i: int| 0 <= i < s.len() && s[i].0 == t ==> bin.0 <= i < bin.1
}

/// Record `i` opens the run of its tile.
pub open spec fn starts_run(s: Seq<(u32, u32)>, i: int) -> bool {
    i == 0 || s[i - 1].0 != s[i].0
}

/// Record `i` closes the run of its tile.
pub open spec fn ends_run(s: Seq<(u32, u32)>, i: int) -> bool {
    i + 1 == s.len() || s[i + 1].0 != s[i].0
}

/// Range `[start, end)` of the records on each tile `0..num_tiles`; a tile
/// without records gets an empty range.
pub fn tile_bin_edges(isects: &Vec<(u32, u32)>, num_tiles: u32) -> (r: Vec<(u32, u32)>)
    requires
        isects.len() <= u32::MAX,
        tiles_sorted(isects@),
        forall|i: int| 0 <= i < isects.len() ==> isects[i].0 < num_tiles,
    ensures
        r.len() == num_tiles,
        forall|t: int| 0 <= t < num_tiles ==> is_tile_bin(isects@, t as u32, #[trigger] r[t]),
{
    let s = isects;
    let n = isects.len();
    let mut bins: Vec<(u32, u32)> = Vec::new();
    let mut t: u32 = 0;
    while t < num_tiles
        invariant
            t <= num_tiles,
            bins.len() == t,
            forall|u: int| 0 <= u < t ==> bins[u] == (0u32, 0u32),
        decreases num_tiles - t,
    {
        bins.push((0, 0));
        t += 1;
    }
    let mut p: usize = 0;
    while p < n
        invariant
            n == s.len() <= u32::MAX,
            p <= n,
            tiles_sorted(s@),
            forall|i: int| 0 <= i < n ==> s[i].0 < num_tiles,
            bins.len() == num_tiles,
            forall|u: int|
                0 <= u < num_tiles && (forall|i: int| 0 <= i < p ==> s[i].0 != u) ==> bins[u]
                    == (0u32, 0u32),
            forall|i: int| 0 <= i < p && starts_run(s@, i) ==> bins[s[i].0 as int].0 == i,
            forall|i: int| 0 <= i < p && ends_run(s@, i) ==> bins[s[i].0 as int].1 == i + 1,
        decreases n - p,
    {
        let tile = s[p].0;
        let mut bin = bins[tile as usize];
        if p == 0 || s[p - 1].0 != tile {
            bin.0 = p as u32;
        }
        if p + 1 == n || s[p + 1].0 != tile {
            bin.1 = (p + 1) as u32;
        }
        proof {
            assert forall|i: int| 0 <= i < p && starts_run(s@, i) && s[i].0 == tile implies !starts_run(
                s@,
                p as int,
            ) by {
                assert(s[i].0 <= s[p - 1].0);
            }
            assert forall|i: int| 0 <= i < p && ends_run(s@, i) implies s[i].0 != tile by {
                assert(s[i].0 <= s[p - 1].0);
                assert(s[i + 1].0 <= s[p as int].0);
            }
        }
        bins.set(tile as usize, bin);
        p += 1;
    }
    proof {
        assert forall|t: int| 0 <= t < num_tiles implies is_tile_bin(s@, t as u32, #[trigger] bins[t]) by {
            if exists|i: int| 0 <= i < n && s[i].0 == t {
                let i = choose|i: int| 0 <= i < n && s[i].0 == t;
                lemma_run_edges(s@, i);
            }
        }
    }
    bins
}

/// In a tile-sorted sequence, the run of the tile of record `i` has a first
/// and a last record.
proof fn lemma_run_edges(s: Seq<(u32, u32)>, i: int)
    requires
        tiles_sorted(s),
        0 <= i < s.len(),
    ensures
        exists|a: int| 0 <= a <= i && starts_run(s, a) && s[a].0 == s[i].0,
        exists|b: int| i <= b < s.len() && ends_run(s, b) && s[b].0 == s[i].0,
    decreases s.len() - i,
{
    lemma_run_start(s, i);
    if !ends_run(s, i) {
        lemma_run_edges(s, i + 1);
    }
}

proof fn lemma_run_start(s: Seq<(u32, u32)>, i: int)
    requires
        tiles_sorted(s),
        0 <= i < s.len(),
    ensures
        exists|a: int| 0 <= a <= i && starts_run(s, a) && s[a].0 == s[i].0,
    decreases i,
{
    if !starts_run(s, i) {
        lemma_run_start(s, i - 1);
    }
}

} // verus!

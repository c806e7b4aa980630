//! Screen tiling: tile grid size, intersection budget, sort key width, and the
//! rectangle of tiles a primitive covers.
use vstd::prelude::*;
use vstd::std_specs::bits::axiom_u32_leading_zeros;

verus! {

/// Width and height of a square screen tile, in pixels.
pub const TILE_WIDTH: u32 = 16;

/// Upper bound on intersection records that a single frame may allocate.
pub const MAX_INTERSECTS_CAP: usize = 67107840;

/// Smallest `q` with `q * d >= n`.
pub open spec fn ceil_div(n: nat, d: nat) -> nat
    recommends
        d > 0,
{
    (n + d - 1) as nat / d
}

/// Number of tiles along an image side of `len` pixels.
fn tiles_along(len: u32) -> (r: u32)
    ensures
        r == ceil_div(len as nat, TILE_WIDTH as nat),
        (r as nat) * (TILE_WIDTH as nat) >= (len as nat),
        len > 0 ==> ((r as nat - 1) * (TILE_WIDTH as nat)) < (len as nat),
{
    let q = len / TILE_WIDTH;
    let r = if len % TILE_WIDTH == 0 { q } else { q + 1 };
    r
}

/// Tile grid `(tiles_x, tiles_y)` covering an image of `width` × `height`
/// pixels; partial tiles at the right and bottom edges count as whole tiles.
pub fn tile_bounds(width: u32, height: u32) -> (r: (u32, u32))
    ensures
        r.0 == ceil_div(width as nat, TILE_WIDTH as nat),
        r.1 == ceil_div(height as nat, TILE_WIDTH as nat),
{
    (tiles_along(width), tiles_along(height))
}

/// Intersection budget for `num_points` primitives over `num_tiles` tiles:
/// every primitive on every tile, but never more than the fixed cap.
pub open spec fn intersect_budget(num_points: nat, num_tiles: nat) -> nat {
    if num_points * num_tiles <= MAX_INTERSECTS_CAP {
        num_points * num_tiles
    } else {
        MAX_INTERSECTS_CAP as nat
    }
}

/// Number of intersection slots to allocate for a frame.
pub fn max_intersects(num_points: usize, num_tiles: u32) -> (r: usize)
    ensures
        r == intersect_budget(num_points as nat, num_tiles as nat),
        r <= MAX_INTERSECTS_CAP,
{
    if num_tiles == 0 {
        assert(num_points as nat * 0 == 0);
        0
    } else if num_points > MAX_INTERSECTS_CAP / (num_tiles as usize) {
        assert(num_points as nat * num_tiles as nat > MAX_INTERSECTS_CAP) by (nonlinear_arith)
            requires
                num_points > MAX_INTERSECTS_CAP / (num_tiles as usize),
                num_tiles > 0,
        ;
        MAX_INTERSECTS_CAP
    } else {
        assert(num_points as nat * num_tiles as nat <= MAX_INTERSECTS_CAP) by (nonlinear_arith)
            requires
                num_points <= MAX_INTERSECTS_CAP / (num_tiles as usize),
                num_tiles > 0,
        ;
        num_points * (num_tiles as usize)
    }
}

/// Number of low key bits a radix sort of tile ids below `num_tiles` must
/// examine: the bit length of `num_tiles`.
pub fn tile_sort_bits(num_tiles: u32) -> (r: u32)
    ensures
        r <= 32,
        r == 0 <==> num_tiles == 0,
        r > 0 ==> (num_tiles >> ((r - 1) as u32)) & 1 == 1,
        r < 32 ==> num_tiles >> r == 0,
        forall|t: u32| t <= num_tiles && r < 32 ==> #[trigger] (t >> r) == 0,
{
    proof {
        axiom_u32_leading_zeros(num_tiles);
    }
    let r = 32 - num_tiles.leading_zeros();
    proof {
        let lz = num_tiles.leading_zeros();
        assert(r > 0 ==> (r - 1) as u32 == vstd::prelude::sub(31u32, lz));
        assert((num_tiles >> ((r - 1) as u32)) & 1 != 0 ==> (num_tiles >> ((r - 1) as u32)) & 1
            == 1) by (bit_vector);
        assert forall|t: u32| t <= num_tiles && r < 32 implies #[trigger] (t >> r) == 0 by {
            assert(t <= num_tiles && num_tiles >> r == 0 ==> t >> r == 0) by (bit_vector);
        }
    }
    r
}

/// Half-open rectangle `[min_x, max_x) × [min_y, max_y)` of tile coordinates.
#[derive(Clone, Copy, Debug, PartialEq, Eq)]
pub struct TileRect {
    pub min_x: u32,
    pub min_y: u32,
    pub max_x: u32,
    pub max_y: u32,
}

impl TileRect {
    /// The rectangle is ordered and lies inside a `tiles_x` × `tiles_y` grid.
    pub open spec fn wf(self, tiles_x: nat, tiles_y: nat) -> bool {
        self.min_x <= self.max_x <= tiles_x && self.min_y <= self.max_y <= tiles_y
    }

    pub open spec fn width(self) -> nat {
        (self.max_x - self.min_x) as nat
    }

    pub open spec fn height(self) -> nat {
        (self.max_y - self.min_y) as nat
    }

    /// Number of tiles the rectangle covers.
    pub open spec fn area(self) -> nat {
        self.width() * self.height()
    }

    /// Row-major id of the `k`-th covered tile in a grid `tiles_x` wide.
    pub open spec fn tile_at(self, k: nat, tiles_x: nat) -> nat {
        ((self.min_y + k / self.width()) * tiles_x + (self.min_x + k % self.width())) as nat
    }

    /// Ids of the covered tiles, row by row.
    pub open spec fn tile_ids(self, tiles_x: nat) -> Seq<u32> {
        Seq::new(self.area(), |k: int| self.tile_at(k as nat, tiles_x) as u32)
    }

    /// Number of tiles the rectangle covers.
    pub fn num_tiles_hit(&self, tiles_x: u32, tiles_y: u32) -> (r: u32)
        requires
            self.wf(tiles_x as nat, tiles_y as nat),
            tiles_x as nat * tiles_y as nat <= u32::MAX,
        ensures
            r == self.area(),
    {
        let w = self.max_x - self.min_x;
        let h = self.max_y - self.min_y;
        assert(w as nat * h as nat <= tiles_x as nat * tiles_y as nat) by (nonlinear_arith)
            requires
                w <= tiles_x,
                h <= tiles_y,
        ;
        w * h
    }
}

/// The `k`-th covered tile lies in the grid, so its id is below the tile count.
pub proof fn lemma_tile_at_in_grid(rect: TileRect, k: nat, tiles_x: nat, tiles_y: nat)
    requires
        rect.wf(tiles_x, tiles_y),
        k < rect.area(),
    ensures
        rect.min_x + k % rect.width() < rect.max_x,
        rect.min_y + k / rect.width() < rect.max_y,
        rect.tile_at(k, tiles_x) < tiles_x * tiles_y,
{
    let w = rect.width();
    let h = rect.height();
    assert(w > 0) by (nonlinear_arith)
        requires
            k < w * h,
    ;
    assert(k / w < h) by (nonlinear_arith)
        requires
            k < w * h,
            w > 0,
    ;
    assert(k % w < w) by (nonlinear_arith)
        requires
            w > 0,
    ;
    let x = rect.min_x + k % w;
    let y = rect.min_y + k / w;
    assert(y * tiles_x + x < tiles_x * tiles_y) by (nonlinear_arith)
        requires
            x < tiles_x,
            y < tiles_y,
    ;
}

} // verus!

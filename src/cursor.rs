//! The packing cursor: places tiles into the atlas in raster order, one tile
//! after another, and reports where each one went.
use vstd::prelude::*;
use vstd::arithmetic::div_mod::{
    lemma_fundamental_div_mod, lemma_fundamental_div_mod_converse_div,
    lemma_fundamental_div_mod_converse_mod,
};
use crate::capacity::{dims_fit, is_atlas_side};
use crate::format::Error;
use crate::raster::{in_rect, lemma_byte_index_bounds, Raster};

verus! {

/// Pixel column of the `k`-th placement in an atlas `side` tiles wide.
pub open spec fn placement_x(k: nat, side: nat, tile_size: [usize; 2]) -> int {
    ((k % side) * tile_size[0]) as int
}

/// Pixel row of the `k`-th placement in an atlas `side` tiles wide.
pub open spec fn placement_y(k: nat, side: nat, tile_size: [usize; 2]) -> int {
    ((k / side) * tile_size[1]) as int
}

/// The tile at `tile_coordinates` lies inside `from`.
pub open spec fn source_fits(from: Raster, tile_coordinates: [usize; 2], tile_size: [usize; 2]) -> bool {
    tile_coordinates[0] * tile_size[0] + tile_size[0] <= from.width
        && tile_coordinates[1] * tile_size[1] + tile_size[1] <= from.height
}

/// A raster-scan placement pointer over an atlas `side` tiles on each axis.
pub struct TileSetCursor {
    pub img: Raster,
    pub col: usize,
    pub row: usize,
    pub side: usize,
    pub tile_size: [usize; 2],
}

impl TileSetCursor {
    /// How many tiles have been placed so far.
    pub open spec fn placed(&self) -> nat {
        (self.row * self.side + self.col) as nat
    }

    pub open spec fn wf(&self) -> bool {
        &&& self.side >= 1
        &&& self.col < self.side
        &&& (self.row < self.side || (self.row == self.side && self.col == 0))
        &&& self.img.wf()
        &&& self.img.width == self.side * self.tile_size[0]
        &&& self.img.height == self.side * self.tile_size[1]
        &&& dims_fit(self.side as nat, self.tile_size)
    }

    /// An empty, transparent atlas of `side` by `side` tiles.
    pub fn new(side: usize, tile_size: [usize; 2]) -> (r: TileSetCursor)
        requires
            side >= 1,
            dims_fit(side as nat, tile_size),
        ensures
            r.wf(),
            r.placed() == 0,
            r.side == side,
            r.tile_size == tile_size,
            forall|i: int| 0 <= i < r.img.pixels@.len() ==> r.img.pixels@[i] == 0,
    {
        let w = side * tile_size[0];
        let h = side * tile_size[1];
        let img = Raster::new(w, h);
        TileSetCursor { img, col: 0, row: 0, side, tile_size }
    }

    /// Copies the tile at `tile_coordinates` of `from` to the next free place
    /// of the atlas and returns that place's pixel coordinates. Fails with
    /// `PackingOverflow`, changing nothing, once every place is taken.
    pub fn add_tile(&mut self, from: &Raster, tile_coordinates: [usize; 2]) -> (r: Result<
        [usize; 2],
        Error,
    >)
        requires
            old(self).wf(),
            from.wf(),
            source_fits(*from, tile_coordinates, old(self).tile_size),
        ensures
            final(self).wf(),
            final(self).side == old(self).side,
            final(self).tile_size == old(self).tile_size,
            r is Err <==> old(self).placed() >= old(self).side * old(self).side,
            r matches Err(e) ==> e == Error::PackingOverflow && *final(self) == *old(self),
            r matches Ok(p) ==> {
                &&& final(self).placed() == old(self).placed() + 1
                &&& p[0] == placement_x(old(self).placed(), old(self).side as nat, old(self).tile_size)
                &&& p[1] == placement_y(old(self).placed(), old(self).side as nat, old(self).tile_size)
                &&& forall|x: int, y: int, c: int|
                    0 <= x < old(self).tile_size[0] && 0 <= y < old(self).tile_size[1] && 0 <= c < 4
                        ==> #[trigger] final(self).img.byte(p[0] + x, p[1] + y, c) == from.byte(
                        tile_coordinates[0] * old(self).tile_size[0] + x,
                        tile_coordinates[1] * old(self).tile_size[1] + y,
                        c,
                    )
                &&& forall|x: int, y: int, c: int|
                    0 <= x < old(self).img.width && 0 <= y < old(self).img.height && 0 <= c < 4
                        && !in_rect(x, y, p[0] as int, p[1] as int, old(self).tile_size[0] as int,
                        old(self).tile_size[1] as int) ==> #[trigger] final(self).img.byte(x, y, c)
                        == old(self).img.byte(x, y, c)
            },
    {
        let side = self.side;
        let tw = self.tile_size[0];
        let th = self.tile_size[1];
        proof {
            lemma_placed_mod_div(self.row as int, self.col as int, side as int);
        }
        if self.row >= side {
            assert(self.placed() == side * side);
            return Err(Error::PackingOverflow);
        }
        proof {
            assert(self.row * side + self.col < side * side) by (nonlinear_arith)
                requires self.row < side, self.col < side;
            assert((self.col + 1) * tw <= side * tw) by (nonlinear_arith)
                requires self.col < side;
            assert((self.row + 1) * th <= side * th) by (nonlinear_arith)
                requires self.row < side;
            assert(self.col * tw + tw == (self.col + 1) * tw) by (nonlinear_arith);
            assert(self.row * th + th == (self.row + 1) * th) by (nonlinear_arith);
        }
        let dx = self.col * tw;
        let dy = self.row * th;
        let sx = tile_coordinates[0] * tw;
        let sy = tile_coordinates[1] * th;
        let ok = self.img.copy_rect(from, sx, sy, tw, th, dx, dy);
        assert(ok);
        let ghost k = self.row * side + self.col;
        if self.col + 1 == side {
            self.col = 0;
            self.row = self.row + 1;
            assert(self.row * side == (self.row - 1) * side + side) by (nonlinear_arith);
        } else {
            self.col = self.col + 1;
        }
        Ok([dx, dy])
    }
}

proof fn lemma_placed_mod_div(row: int, col: int, side: int)
    requires
        side >= 1,
        0 <= col < side,
        row >= 0,
    ensures
        (row * side + col) % side == col,
        (row * side + col) / side == row,
{
    lemma_fundamental_div_mod_converse_mod(row * side + col, side, row, col);
    lemma_fundamental_div_mod_converse_div(row * side + col, side, row, col);
}

/// Distinct placements never share a pixel: the tile rectangles at the
/// `k1`-th and `k2`-th place of the raster order are disjoint.
pub proof fn lemma_placements_disjoint(side: nat, tile_size: [usize; 2], k1: nat, k2: nat, x: int, y: int)
    requires
        side >= 1,
        k1 != k2,
    ensures
        !(in_rect(x, y, placement_x(k1, side, tile_size), placement_y(k1, side, tile_size),
            tile_size[0] as int, tile_size[1] as int) && in_rect(x, y, placement_x(k2, side, tile_size),
            placement_y(k2, side, tile_size), tile_size[0] as int, tile_size[1] as int)),
{
    let tw = tile_size[0] as int;
    let th = tile_size[1] as int;
    lemma_fundamental_div_mod(k1 as int, side as int);
    lemma_fundamental_div_mod(k2 as int, side as int);
    let c1 = (k1 % side) as int;
    let c2 = (k2 % side) as int;
    let r1 = (k1 / side) as int;
    let r2 = (k2 / side) as int;
    if c1 != c2 {
        if c1 < c2 {
            assert(c1 * tw + tw <= c2 * tw) by (nonlinear_arith)
                requires c1 < c2, tw >= 0;
        } else {
            assert(c2 * tw + tw <= c1 * tw) by (nonlinear_arith)
                requires c2 < c1, tw >= 0;
        }
    } else {
        assert(r1 != r2);
        if r1 < r2 {
            assert(r1 * th + th <= r2 * th) by (nonlinear_arith)
                requires r1 < r2, th >= 0;
        } else {
            assert(r2 * th + th <= r1 * th) by (nonlinear_arith)
                requires r2 < r1, th >= 0;
        }
    }
}

/// Each of the first `side * side` placements lies inside an atlas of `side`
/// tiles per axis.
pub proof fn lemma_placement_in_atlas(side: nat, tile_size: [usize; 2], k: nat)
    requires
        side >= 1,
        k < side * side,
    ensures
        0 <= placement_x(k, side, tile_size),
        placement_x(k, side, tile_size) + tile_size[0] <= side * tile_size[0],
        0 <= placement_y(k, side, tile_size),
        placement_y(k, side, tile_size) + tile_size[1] <= side * tile_size[1],
{
    let tw = tile_size[0] as int;
    let th = tile_size[1] as int;
    lemma_fundamental_div_mod(k as int, side as int);
    let c = (k % side) as int;
    let r = (k / side) as int;
    assert(r < side) by (nonlinear_arith)
        requires k == side * r + c, 0 <= c, k < side * side, side >= 1;
    assert(c * tw + tw <= side * tw) by (nonlinear_arith)
        requires c < side, tw >= 0;
    assert(r * th + th <= side * th) by (nonlinear_arith)
        requires r < side, th >= 0;
}

/// An atlas of floor(sqrt(total)) + 1 tiles per side has room for `total`
/// tiles: each of the first `total` placements lies inside it.
pub proof fn lemma_capacity_sufficient(total: nat, side: nat, tile_size: [usize; 2], k: nat)
    requires
        is_atlas_side(total, side),
        k < total,
    ensures
        k < side * side,
        0 <= placement_x(k, side, tile_size),
        placement_x(k, side, tile_size) + tile_size[0] <= side * tile_size[0],
        0 <= placement_y(k, side, tile_size),
        placement_y(k, side, tile_size) + tile_size[1] <= side * tile_size[1],
{
    assert(k < side * side);
    lemma_placement_in_atlas(side, tile_size, k);
}

/// The tile placed `k`-th shows, pixel for pixel, the tile at `(cx, cy)` of `src`.
pub open spec fn tile_copied(
    atlas: Raster,
    src: Raster,
    k: nat,
    side: nat,
    tile_size: [usize; 2],
    cx: int,
    cy: int,
) -> bool {
    forall|x: int, y: int, c: int|
        0 <= x < tile_size[0] && 0 <= y < tile_size[1] && 0 <= c < 4 ==> #[trigger] atlas.byte(
            placement_x(k, side, tile_size) + x,
            placement_y(k, side, tile_size) + y,
            c,
        ) == src.byte(cx * tile_size[0] + x, cy * tile_size[1] + y, c)
}

/// A later placement leaves an earlier tile as it was.
pub proof fn lemma_tile_copied_kept(
    before: Raster,
    after: Raster,
    src: Raster,
    j: nat,
    k: nat,
    side: nat,
    tile_size: [usize; 2],
    cx: int,
    cy: int,
)
    requires
        side >= 1,
        j < k < side * side,
        before.width == side * tile_size[0],
        before.height == side * tile_size[1],
        tile_copied(before, src, j, side, tile_size, cx, cy),
        forall|x: int, y: int, c: int|
            0 <= x < before.width && 0 <= y < before.height && 0 <= c < 4 && !in_rect(
                x,
                y,
                placement_x(k, side, tile_size),
                placement_y(k, side, tile_size),
                tile_size[0] as int,
                tile_size[1] as int,
            ) ==> #[trigger] after.byte(x, y, c) == before.byte(x, y, c),
    ensures
        tile_copied(after, src, j, side, tile_size, cx, cy),
{
    lemma_placement_in_atlas(side, tile_size, j);
    assert forall|x: int, y: int, c: int|
        0 <= x < tile_size[0] && 0 <= y < tile_size[1] && 0 <= c < 4 implies #[trigger] after.byte(
            placement_x(j, side, tile_size) + x,
            placement_y(j, side, tile_size) + y,
            c,
        ) == src.byte(cx * tile_size[0] + x, cy * tile_size[1] + y, c) by {
        let px = placement_x(j, side, tile_size) + x;
        let py = placement_y(j, side, tile_size) + y;
        lemma_placements_disjoint(side, tile_size, j, k, px, py);
        assert(before.byte(px, py, c) == src.byte(cx * tile_size[0] + x, cy * tile_size[1] + y, c));
    }
}

/// Index, in placement order, of the atlas cell that pixel `(x, y)` falls in.
pub open spec fn cell_of(x: int, y: int, side: nat, tile_size: [usize; 2]) -> int {
    (y / tile_size[1] as int) * side + x / tile_size[0] as int
}

/// Every pixel of a cell not yet placed is still transparent black.
pub open spec fn untouched_zero(atlas: Raster, placed: nat, side: nat, tile_size: [usize; 2]) -> bool {
    forall|x: int, y: int, c: int|
        0 <= x < atlas.width && 0 <= y < atlas.height && 0 <= c < 4 && cell_of(x, y, side, tile_size)
            >= placed ==> #[trigger] atlas.byte(x, y, c) == 0
}

/// A pixel inside the `k`-th placement lies in cell `k`.
pub proof fn lemma_rect_cell(side: nat, tile_size: [usize; 2], k: nat, x: int, y: int)
    requires
        side >= 1,
        tile_size[0] > 0,
        tile_size[1] > 0,
        in_rect(x, y, placement_x(k, side, tile_size), placement_y(k, side, tile_size),
            tile_size[0] as int, tile_size[1] as int),
    ensures
        cell_of(x, y, side, tile_size) == k,
        x / tile_size[0] as int == k % side,
        y / tile_size[1] as int == k / side,
{
    let tw = tile_size[0] as int;
    let th = tile_size[1] as int;
    let col = (k % side) as int;
    let row = (k / side) as int;
    lemma_fundamental_div_mod(k as int, side as int);
    assert(x == col * tw + (x - col * tw));
    lemma_fundamental_div_mod_converse_div(x, tw, col, x - col * tw);
    lemma_fundamental_div_mod_converse_div(y, th, row, y - row * th);
    assert(row * side + col == k) by (nonlinear_arith)
        requires k == side * row + col;
}

/// A fresh atlas is untouched everywhere.
pub proof fn lemma_fresh_untouched(atlas: Raster, side: nat, tile_size: [usize; 2])
    requires
        atlas.wf(),
        forall|i: int| 0 <= i < atlas.pixels@.len() ==> atlas.pixels@[i] == 0,
    ensures
        untouched_zero(atlas, 0, side, tile_size),
{
    assert forall|x: int, y: int, c: int|
        0 <= x < atlas.width && 0 <= y < atlas.height && 0 <= c < 4 && cell_of(x, y, side, tile_size)
            >= 0 implies #[trigger] atlas.byte(x, y, c) == 0 by {
        lemma_byte_index_bounds(atlas.width as int, atlas.height as int, x, y, c);
    }
}

/// Placing the `k`-th tile touches only cell `k`.
pub proof fn lemma_untouched_kept(before: Raster, after: Raster, k: nat, side: nat, tile_size: [usize; 2])
    requires
        side >= 1,
        untouched_zero(before, k, side, tile_size),
        after.width == before.width,
        after.height == before.height,
        forall|x: int, y: int, c: int|
            0 <= x < before.width && 0 <= y < before.height && 0 <= c < 4 && !in_rect(
                x,
                y,
                placement_x(k, side, tile_size),
                placement_y(k, side, tile_size),
                tile_size[0] as int,
                tile_size[1] as int,
            ) ==> #[trigger] after.byte(x, y, c) == before.byte(x, y, c),
    ensures
        untouched_zero(after, k + 1, side, tile_size),
{
    assert forall|x: int, y: int, c: int|
        0 <= x < after.width && 0 <= y < after.height && 0 <= c < 4 && cell_of(x, y, side, tile_size)
            >= k + 1 implies #[trigger] after.byte(x, y, c) == 0 by {
        if tile_size[0] > 0 && tile_size[1] > 0 && in_rect(x, y, placement_x(k, side, tile_size),
            placement_y(k, side, tile_size), tile_size[0] as int, tile_size[1] as int) {
            lemma_rect_cell(side, tile_size, k, x, y);
        }
        assert(before.byte(x, y, c) == 0);
    }
}

} // verus!

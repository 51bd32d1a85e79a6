//! The atlas assembler: packs every tile of every item of every group into
//! one atlas, in specification order, and records where each item went.
use vstd::prelude::*;
use vstd::arithmetic::div_mod::{
    lemma_fundamental_div_mod, lemma_fundamental_div_mod_converse_div,
    lemma_fundamental_div_mod_converse_mod,
};
use crate::capacity::{
    dims_fit, is_atlas_side, plan_atlas, plan_atlas_ok, plan_error, total_tiles,
};
use crate::cursor::{
    cell_of, lemma_fresh_untouched, lemma_tile_copied_kept, lemma_untouched_kept, placement_x,
    placement_y, tile_copied, untouched_zero, TileSetCursor,
};
use crate::format::{
    count_sum, Error, GroupFormats, InputTileFormat, TileSetSource, TileSetSourceGroup,
};
use crate::raster::{byte_index, Raster};
use crate::tile_set::{entry_is, fmts_wf, has_entry, insert_item, TileSet, TileSetItems};

verus! {

/// The tile offsets of an input format, part after part, each part's in list order.
pub open spec fn flat_tiles(parts: Seq<(String, Vec<[usize; 2]>)>) -> Seq<[usize; 2]>
    decreases parts.len(),
{
    if parts.len() == 0 {
        Seq::empty()
    } else {
        flat_tiles(parts.drop_last()) + parts.last().1@
    }
}

/// Tiles that one item of group `f` places.
pub open spec fn item_len(f: GroupFormats) -> nat {
    flat_tiles(f.input.parts@).len()
}

/// Tiles that the groups below `g` place.
pub open spec fn tiles_before(fs: Seq<GroupFormats>, gs: Seq<TileSetSourceGroup>, g: int) -> nat
    decreases g,
{
    if g <= 0 {
        0
    } else {
        tiles_before(fs, gs, g - 1) + item_len(fs[g - 1]) * gs[g - 1].items@.len()
    }
}

/// Index, in packing order, of the first tile of item `i` of group `g`.
pub open spec fn item_base(fs: Seq<GroupFormats>, gs: Seq<TileSetSourceGroup>, g: int, i: int) -> nat {
    tiles_before(fs, gs, g) + (i * item_len(fs[g])) as nat
}

/// Item `i` of group `g` exists.
pub open spec fn item_at(gs: Seq<TileSetSourceGroup>, g: int, i: int) -> bool {
    0 <= g < gs.len() && 0 <= i < gs[g].items@.len()
}

/// Item `(g1, i1)` comes before item `(g, i)` in specification order.
pub open spec fn item_before(g1: int, i1: int, g: int, i: int) -> bool {
    g1 < g || (g1 == g && i1 < i)
}

/// The source tile that offset `tile` of an item at `loc` reads: its tile
/// coordinates are addressable and its pixels lie inside `img`.
pub open spec fn tile_in_source(img: Raster, loc: [usize; 2], tile: [usize; 2], tile_size: [usize; 2]) -> bool {
    loc[0] + tile[0] <= usize::MAX && loc[1] + tile[1] <= usize::MAX
        && (loc[0] + tile[0]) * tile_size[0] + tile_size[0] <= img.width
        && (loc[1] + tile[1]) * tile_size[1] + tile_size[1] <= img.height
}

/// Every tile of item `i` of group `g` lies inside its source image.
pub open spec fn item_in_source(
    fs: Seq<GroupFormats>,
    gs: Seq<TileSetSourceGroup>,
    imgs: Seq<Raster>,
    tile_size: [usize; 2],
    g: int,
    i: int,
) -> bool {
    forall|t: int|
        0 <= t < item_len(fs[g]) ==> #[trigger] tile_in_source(
            imgs[g],
            gs[g].items@[i].loc,
            flat_tiles(fs[g].input.parts@)[t],
            tile_size,
        )
}

/// Every tile of every item lies inside its source image.
pub open spec fn all_in_source(
    fs: Seq<GroupFormats>,
    gs: Seq<TileSetSourceGroup>,
    imgs: Seq<Raster>,
    tile_size: [usize; 2],
) -> bool {
    forall|g: int, i: int| item_at(gs, g, i) ==> #[trigger] item_in_source(fs, gs, imgs, tile_size, g, i)
}

/// Items `(g1, i1)` and `(g2, i2)` share a format name and an identifier.
pub open spec fn same_key(fs: Seq<GroupFormats>, gs: Seq<TileSetSourceGroup>, g1: int, i1: int, g2: int, i2: int) -> bool {
    fs[g1].input.fmt@ == fs[g2].input.fmt@ && gs[g1].items@[i1].id@ == gs[g2].items@[i2].id@
}

/// No two distinct items share a format name and an identifier.
pub open spec fn no_duplicates(fs: Seq<GroupFormats>, gs: Seq<TileSetSourceGroup>) -> bool {
    forall|g1: int, i1: int, g2: int, i2: int|
        item_at(gs, g1, i1) && item_at(gs, g2, i2) && (g1 != g2 || i1 != i2) ==> !#[trigger] same_key(
            fs,
            gs,
            g1,
            i1,
            g2,
            i2,
        )
}

/// `pxs` lists the places of the `n` placements from index `base` on.
pub open spec fn is_run(pxs: Seq<[usize; 2]>, base: nat, n: nat, side: nat, tile_size: [usize; 2]) -> bool {
    pxs.len() == n && forall|t: int|
        0 <= t < n ==> (#[trigger] pxs[t])[0] == placement_x((base + t) as nat, side, tile_size)
            && pxs[t][1] == placement_y((base + t) as nat, side, tile_size)
}

/// The map sends `(fmt, id)` to the places of `n` placements from `base` on.
pub open spec fn entry_run(
    fmts: Seq<(String, TileSetItems)>,
    fmt: Seq<char>,
    id: Seq<char>,
    base: nat,
    n: nat,
    side: nat,
    tile_size: [usize; 2],
) -> bool {
    exists|pxs: Seq<[usize; 2]>| #[trigger] entry_is(fmts, fmt, id, pxs) && is_run(pxs, base, n, side, tile_size)
}

/// The map records item `(g, i)` at the places it was packed to.
pub open spec fn item_recorded(
    fmts: Seq<(String, TileSetItems)>,
    fs: Seq<GroupFormats>,
    gs: Seq<TileSetSourceGroup>,
    side: nat,
    tile_size: [usize; 2],
    g: int,
    i: int,
) -> bool {
    entry_run(
        fmts,
        fs[g].input.fmt@,
        gs[g].items@[i].id@,
        item_base(fs, gs, g, i),
        item_len(fs[g]),
        side,
        tile_size,
    )
}

/// The map holds exactly the items before `(g, i)`, each at its places, and
/// those items are free of duplicates and lie inside their sources.
pub open spec fn packed_upto(
    fmts: Seq<(String, TileSetItems)>,
    fs: Seq<GroupFormats>,
    gs: Seq<TileSetSourceGroup>,
    imgs: Seq<Raster>,
    side: nat,
    tile_size: [usize; 2],
    g: int,
    i: int,
) -> bool {
    &&& fmts_wf(fmts)
    &&& forall|g1: int, i1: int|
        item_at(gs, g1, i1) && item_before(g1, i1, g, i) ==> #[trigger] item_recorded(
            fmts,
            fs,
            gs,
            side,
            tile_size,
            g1,
            i1,
        )
    &&& forall|f: Seq<char>, d: Seq<char>|
        #[trigger] has_entry(fmts, f, d) ==> exists|g1: int, i1: int|
            item_at(gs, g1, i1) && item_before(g1, i1, g, i) && fs[g1].input.fmt@ == f
                && (#[trigger] gs[g1].items@[i1]).id@ == d
    &&& forall|g1: int, i1: int, g2: int, i2: int|
        item_at(gs, g1, i1) && item_at(gs, g2, i2) && item_before(g1, i1, g, i) && item_before(
            g2,
            i2,
            g,
            i,
        ) && (g1 != g2 || i1 != i2) ==> !#[trigger] same_key(fs, gs, g1, i1, g2, i2)
    &&& forall|g1: int, i1: int|
        item_at(gs, g1, i1) && item_before(g1, i1, g, i) ==> #[trigger] item_in_source(
            fs,
            gs,
            imgs,
            tile_size,
            g1,
            i1,
        )
}

/// The first `n` tiles of item `i` of group `g` show, pixel for pixel, the
/// source tiles they were copied from.
pub open spec fn item_copied(
    atlas: Raster,
    fs: Seq<GroupFormats>,
    gs: Seq<TileSetSourceGroup>,
    imgs: Seq<Raster>,
    side: nat,
    tile_size: [usize; 2],
    g: int,
    i: int,
    n: int,
) -> bool {
    forall|t: int|
        0 <= t < n ==> #[trigger] tile_copied(
            atlas,
            imgs[g],
            (item_base(fs, gs, g, i) + t) as nat,
            side,
            tile_size,
            gs[g].items@[i].loc[0] + flat_tiles(fs[g].input.parts@)[t][0],
            gs[g].items@[i].loc[1] + flat_tiles(fs[g].input.parts@)[t][1],
        )
}

/// Every item before `(g, i)` shows its source tiles at its places.
pub open spec fn copied_upto(
    atlas: Raster,
    fs: Seq<GroupFormats>,
    gs: Seq<TileSetSourceGroup>,
    imgs: Seq<Raster>,
    side: nat,
    tile_size: [usize; 2],
    g: int,
    i: int,
) -> bool {
    forall|g1: int, i1: int|
        item_at(gs, g1, i1) && item_before(g1, i1, g, i) ==> #[trigger] item_copied(
            atlas,
            fs,
            gs,
            imgs,
            side,
            tile_size,
            g1,
            i1,
            item_len(fs[g1]) as int,
        )
}

/// Every tile of an earlier item comes earlier in packing order.
pub proof fn lemma_item_before_base(
    fs: Seq<GroupFormats>,
    gs: Seq<TileSetSourceGroup>,
    g1: int,
    i1: int,
    t: int,
    g: int,
    i: int,
)
    requires
        item_at(gs, g1, i1),
        item_before(g1, i1, g, i),
        0 <= t < item_len(fs[g1]),
        0 <= g,
        0 <= i,
    ensures
        item_base(fs, gs, g1, i1) + t < item_base(fs, gs, g, i),
{
    if g1 < g {
        lemma_item_tile_below(fs, gs, g1, i1, t, g);
        assert(0 <= i * item_len(fs[g])) by (nonlinear_arith)
            requires 0 <= i;
    } else {
        let len = item_len(fs[g]) as int;
        assert(i1 * len + t < i * len) by (nonlinear_arith)
            requires 0 <= i1 < i, 0 <= t < len;
    }
}

/// The errors that packing reports, and when: a tile outside its source, more
/// tiles than the atlas holds, or two items under one key.
pub open spec fn pack_error(tss: TileSetSource, fs: Seq<GroupFormats>, imgs: Seq<Raster>, side: nat, e: Error) -> bool {
    ||| (e matches Error::TileOutsideSource { group, item } && item_at(tss.groups@, group as int, item as int)
        && !item_in_source(fs, tss.groups@, imgs, tss.tile_size, group as int, item as int))
    ||| (e == Error::PackingOverflow && tiles_before(fs, tss.groups@, tss.groups@.len() as int) > side * side)
    ||| (e matches Error::DuplicateItem { fmt, id } && exists|g1: int, i1: int, g2: int, i2: int|
        item_at(tss.groups@, g1, i1) && item_at(tss.groups@, g2, i2) && (g1 != g2 || i1 != i2)
            && #[trigger] same_key(fs, tss.groups@, g1, i1, g2, i2) && fmt@ == fs[g1].input.fmt@
            && id@ == tss.groups@[g1].items@[i1].id@)
}

/// The offsets of all parts of an input format, in packing order.
pub fn flatten_parts(input: &InputTileFormat) -> (r: Vec<[usize; 2]>)
    ensures
        r@ == flat_tiles(input.parts@),
{
    let mut r: Vec<[usize; 2]> = Vec::new();
    let mut p: usize = 0;
    while p < input.parts.len()
        invariant
            p <= input.parts@.len(),
            r@ == flat_tiles(input.parts@.subrange(0, p as int)),
        decreases input.parts.len() - p,
    {
        let tiles = &input.parts[p].1;
        let mut q: usize = 0;
        while q < tiles.len()
            invariant
                p < input.parts@.len(),
                *tiles == input.parts@[p as int].1,
                q <= tiles@.len(),
                r@ == flat_tiles(input.parts@.subrange(0, p as int)) + tiles@.subrange(0, q as int),
            decreases tiles.len() - q,
        {
            r.push(tiles[q]);
            assert(tiles@.subrange(0, q + 1) == tiles@.subrange(0, q as int).push(tiles@[q as int]));
            q = q + 1;
        }
        assert(tiles@.subrange(0, q as int) == tiles@);
        assert(input.parts@.subrange(0, p + 1).drop_last() == input.parts@.subrange(0, p as int));
        p = p + 1;
    }
    assert(input.parts@.subrange(0, p as int) == input.parts@);
    r
}


/// The inputs of a pack line up: one resolved format set and one source
/// image per group, and an atlas side that can be addressed.
pub open spec fn pack_inputs(tss: TileSetSource, fs: Seq<GroupFormats>, imgs: Seq<Raster>, side: nat) -> bool {
    &&& fs.len() == tss.groups@.len()
    &&& imgs.len() == tss.groups@.len()
    &&& forall|g: int| 0 <= g < imgs.len() ==> (#[trigger] imgs[g]).wf()
    &&& side >= 1
    &&& dims_fit(side, tss.tile_size)
}

pub proof fn lemma_tiles_before_monotone(fs: Seq<GroupFormats>, gs: Seq<TileSetSourceGroup>, a: int, b: int)
    requires
        0 <= a <= b,
    ensures
        tiles_before(fs, gs, a) <= tiles_before(fs, gs, b),
    decreases b - a,
{
    if a < b {
        lemma_tiles_before_monotone(fs, gs, a, b - 1);
    }
}

/// The `t`-th tile of item `i` of group `g` comes before every tile of a later group.
pub proof fn lemma_item_tile_below(fs: Seq<GroupFormats>, gs: Seq<TileSetSourceGroup>, g: int, i: int, t: int, n: int)
    requires
        0 <= g < n,
        0 <= i < gs[g].items@.len(),
        0 <= t < item_len(fs[g]),
    ensures
        item_base(fs, gs, g, i) + t < tiles_before(fs, gs, n),
{
    let len = item_len(fs[g]) as int;
    let k = gs[g].items@.len() as int;
    assert(i * len + t < k * len) by (nonlinear_arith)
        requires 0 <= i < k, 0 <= t < len;
    assert(tiles_before(fs, gs, g + 1) == tiles_before(fs, gs, g) + len * k);
    assert(len * k == k * len) by (nonlinear_arith);
    lemma_tiles_before_monotone(fs, gs, g + 1, n);
}

proof fn lemma_entry_is_has_entry(fmts: Seq<(String, TileSetItems)>, f: Seq<char>, d: Seq<char>, p: Seq<[usize; 2]>)
    requires
        entry_is(fmts, f, d, p),
    ensures
        has_entry(fmts, f, d),
{
    let (a, b) = choose|a: int, b: int|
        0 <= a < fmts.len() && 0 <= b < fmts[a].1@.len() && (#[trigger] fmts[a]).0@ == f
            && (#[trigger] fmts[a].1@[b]).0@ == d && fmts[a].1@[b].1@ == p;
    assert(fmts[a].1@[b].0@ == d);
}

/// Recording item `(g, i)` at `pxs` extends what is packed by that item.
proof fn lemma_packed_step(
    old_fmts: Seq<(String, TileSetItems)>,
    fmts: Seq<(String, TileSetItems)>,
    fs: Seq<GroupFormats>,
    gs: Seq<TileSetSourceGroup>,
    imgs: Seq<Raster>,
    side: nat,
    tile_size: [usize; 2],
    g: int,
    i: int,
    pxs: Seq<[usize; 2]>,
)
    requires
        item_at(gs, g, i),
        packed_upto(old_fmts, fs, gs, imgs, side, tile_size, g, i),
        fmts_wf(fmts),
        !has_entry(old_fmts, fs[g].input.fmt@, gs[g].items@[i].id@),
        forall|f: Seq<char>, d: Seq<char>, p: Seq<[usize; 2]>|
            #[trigger] entry_is(fmts, f, d, p) <==> (entry_is(old_fmts, f, d, p) || (f
                == fs[g].input.fmt@ && d == gs[g].items@[i].id@ && p == pxs)),
        forall|f: Seq<char>, d: Seq<char>|
            #[trigger] has_entry(fmts, f, d) <==> (has_entry(old_fmts, f, d) || (f
                == fs[g].input.fmt@ && d == gs[g].items@[i].id@)),
        is_run(pxs, item_base(fs, gs, g, i), item_len(fs[g]), side, tile_size),
        item_in_source(fs, gs, imgs, tile_size, g, i),
    ensures
        packed_upto(fmts, fs, gs, imgs, side, tile_size, g, i + 1),
{
    let fmt = fs[g].input.fmt@;
    let id = gs[g].items@[i].id@;
    assert forall|g1: int, i1: int|
        item_at(gs, g1, i1) && item_before(g1, i1, g, i + 1) implies #[trigger] item_recorded(
            fmts,
            fs,
            gs,
            side,
            tile_size,
            g1,
            i1,
        ) by {
        if item_before(g1, i1, g, i) {
            assert(item_recorded(old_fmts, fs, gs, side, tile_size, g1, i1));
            let p = choose|p: Seq<[usize; 2]>|
                #[trigger] entry_is(old_fmts, fs[g1].input.fmt@, gs[g1].items@[i1].id@, p) && is_run(
                    p,
                    item_base(fs, gs, g1, i1),
                    item_len(fs[g1]),
                    side,
                    tile_size,
                );
            assert(entry_is(fmts, fs[g1].input.fmt@, gs[g1].items@[i1].id@, p));
        } else {
            assert(g1 == g && i1 == i);
            assert(entry_is(fmts, fmt, id, pxs));
        }
    }
    assert forall|f: Seq<char>, d: Seq<char>| #[trigger] has_entry(fmts, f, d) implies exists|g1: int, i1: int|
        item_at(gs, g1, i1) && item_before(g1, i1, g, i + 1) && fs[g1].input.fmt@ == f
            && (#[trigger] gs[g1].items@[i1]).id@ == d by {
        if has_entry(old_fmts, f, d) {
            let (g1, i1) = choose|g1: int, i1: int|
                item_at(gs, g1, i1) && item_before(g1, i1, g, i) && fs[g1].input.fmt@ == f
                    && (#[trigger] gs[g1].items@[i1]).id@ == d;
            assert(item_before(g1, i1, g, i + 1));
        } else {
            assert(item_before(g, i, g, i + 1));
            assert(gs[g].items@[i].id@ == d);
        }
    }
    assert forall|g1: int, i1: int, g2: int, i2: int|
        item_at(gs, g1, i1) && item_at(gs, g2, i2) && item_before(g1, i1, g, i + 1) && item_before(
            g2,
            i2,
            g,
            i + 1,
        ) && (g1 != g2 || i1 != i2) implies !#[trigger] same_key(fs, gs, g1, i1, g2, i2) by {
        if !item_before(g1, i1, g, i) || !item_before(g2, i2, g, i) {
            let (ga, ia) = if item_before(g1, i1, g, i) { (g1, i1) } else { (g2, i2) };
            assert(item_before(ga, ia, g, i));
            if same_key(fs, gs, g1, i1, g2, i2) {
                assert(item_recorded(old_fmts, fs, gs, side, tile_size, ga, ia));
                let p = choose|p: Seq<[usize; 2]>|
                    #[trigger] entry_is(old_fmts, fs[ga].input.fmt@, gs[ga].items@[ia].id@, p) && is_run(
                        p,
                        item_base(fs, gs, ga, ia),
                        item_len(fs[ga]),
                        side,
                        tile_size,
                    );
                lemma_entry_is_has_entry(old_fmts, fs[ga].input.fmt@, gs[ga].items@[ia].id@, p);
            }
        }
    }
    assert forall|g1: int, i1: int|
        item_at(gs, g1, i1) && item_before(g1, i1, g, i + 1) implies #[trigger] item_in_source(
            fs,
            gs,
            imgs,
            tile_size,
            g1,
            i1,
        ) by {
        if !item_before(g1, i1, g, i) {
            assert(g1 == g && i1 == i);
        }
    }
}

/// Having packed every item of group `g` is having packed up to group `g + 1`.
proof fn lemma_packed_next_group(
    fmts: Seq<(String, TileSetItems)>,
    fs: Seq<GroupFormats>,
    gs: Seq<TileSetSourceGroup>,
    imgs: Seq<Raster>,
    side: nat,
    tile_size: [usize; 2],
    g: int,
)
    requires
        0 <= g < gs.len(),
        packed_upto(fmts, fs, gs, imgs, side, tile_size, g, gs[g].items@.len() as int),
    ensures
        packed_upto(fmts, fs, gs, imgs, side, tile_size, g + 1, 0),
{
    let n = gs[g].items@.len() as int;
    assert forall|g1: int, i1: int| item_at(gs, g1, i1) implies item_before(g1, i1, g + 1, 0) == item_before(g1, i1, g, n) by {}
    assert forall|f: Seq<char>, d: Seq<char>| #[trigger] has_entry(fmts, f, d) implies exists|g1: int, i1: int|
        item_at(gs, g1, i1) && item_before(g1, i1, g + 1, 0) && fs[g1].input.fmt@ == f
            && (#[trigger] gs[g1].items@[i1]).id@ == d by {
        let (g1, i1) = choose|g1: int, i1: int|
            item_at(gs, g1, i1) && item_before(g1, i1, g, n) && fs[g1].input.fmt@ == f
                && (#[trigger] gs[g1].items@[i1]).id@ == d;
        assert(item_before(g1, i1, g + 1, 0));
    }
}

/// Packs every tile of every item into an atlas of `side` by `side` tiles, in
/// specification order, and records each item's places under its format.
pub fn pack_atlas(
    tss: &TileSetSource,
    fs: &Vec<GroupFormats>,
    images: &Vec<Raster>,
    side: usize,
    image_path: String,
) -> (r: Result<(TileSet, Raster), Error>)
    requires
        pack_inputs(*tss, fs@, images@, side as nat),
    ensures
        r is Ok <==> all_in_source(fs@, tss.groups@, images@, tss.tile_size) && no_duplicates(
            fs@,
            tss.groups@,
        ) && tiles_before(fs@, tss.groups@, tss.groups@.len() as int) <= side * side,
        r matches Ok((ts, atlas)) ==> {
            &&& ts.tile_size == tss.tile_size
            &&& ts.image_path == image_path
            &&& atlas.wf()
            &&& atlas.width == side * tss.tile_size[0]
            &&& atlas.height == side * tss.tile_size[1]
            &&& packed_upto(ts.fmts@, fs@, tss.groups@, images@, side as nat, tss.tile_size,
                tss.groups@.len() as int, 0)
            &&& copied_upto(atlas, fs@, tss.groups@, images@, side as nat, tss.tile_size,
                tss.groups@.len() as int, 0)
            &&& untouched_zero(atlas, tiles_before(fs@, tss.groups@, tss.groups@.len() as int),
                side as nat, tss.tile_size)
        },
        r matches Err(e) ==> pack_error(*tss, fs@, images@, side as nat, e),
{
    let ghost gs = tss.groups@;
    let tile_size = tss.tile_size;
    let tw = tile_size[0];
    let th = tile_size[1];
    let mut cursor = TileSetCursor::new(side, tile_size);
    proof {
        lemma_fresh_untouched(cursor.img, side as nat, tile_size);
    }
    let mut fmts: Vec<(String, TileSetItems)> = Vec::new();
    let n = tss.groups.len();
    let mut g: usize = 0;
    while g < n
        invariant
            pack_inputs(*tss, fs@, images@, side as nat),
            gs == tss.groups@,
            n == gs.len(),
            tile_size == tss.tile_size,
            tw == tile_size[0],
            th == tile_size[1],
            g <= n,
            cursor.wf(),
            cursor.side == side,
            cursor.tile_size == tile_size,
            cursor.placed() == tiles_before(fs@, gs, g as int),
            packed_upto(fmts@, fs@, gs, images@, side as nat, tile_size, g as int, 0),
            copied_upto(cursor.img, fs@, gs, images@, side as nat, tile_size, g as int, 0),
            untouched_zero(cursor.img, cursor.placed(), side as nat, tile_size),
        decreases n - g,
    {
        let group = &tss.groups[g];
        let f = &fs[g];
        let img = &images[g];
        let flat = flatten_parts(&f.input);
        let n_items = group.items.len();
        let mut i: usize = 0;
        while i < n_items
            invariant
                pack_inputs(*tss, fs@, images@, side as nat),
                gs == tss.groups@,
                n == gs.len(),
                tile_size == tss.tile_size,
                tw == tile_size[0],
                th == tile_size[1],
                g < n,
                *group == gs[g as int],
                *f == fs@[g as int],
                *img == images@[g as int],
                flat@ == flat_tiles(f.input.parts@),
                n_items == group.items@.len(),
                i <= n_items,
                cursor.wf(),
                cursor.side == side,
                cursor.tile_size == tile_size,
                cursor.placed() == item_base(fs@, gs, g as int, i as int),
                packed_upto(fmts@, fs@, gs, images@, side as nat, tile_size, g as int, i as int),
                copied_upto(cursor.img, fs@, gs, images@, side as nat, tile_size, g as int, i as int),
                untouched_zero(cursor.img, cursor.placed(), side as nat, tile_size),
            decreases n_items - i,
        {
            let item = &group.items[i];
            let ghost base = item_base(fs@, gs, g as int, i as int);
            let mut pxs: Vec<[usize; 2]> = Vec::new();
            let mut t: usize = 0;
            while t < flat.len()
                invariant
                    pack_inputs(*tss, fs@, images@, side as nat),
                    gs == tss.groups@,
                    n == gs.len(),
                    tile_size == tss.tile_size,
                    tw == tile_size[0],
                    th == tile_size[1],
                    g < n,
                    i < n_items,
                    *group == gs[g as int],
                    *f == fs@[g as int],
                    *img == images@[g as int],
                    *item == group.items@[i as int],
                    flat@ == flat_tiles(f.input.parts@),
                    n_items == group.items@.len(),
                    base == item_base(fs@, gs, g as int, i as int),
                    t <= flat@.len(),
                    cursor.wf(),
                    cursor.side == side,
                    cursor.tile_size == tile_size,
                    cursor.placed() == base + t,
                    is_run(pxs@, base, t as nat, side as nat, tile_size),
                    forall|q: int| 0 <= q < t ==> #[trigger] tile_in_source(*img, item.loc, flat@[q], tile_size),
                    copied_upto(cursor.img, fs@, gs, images@, side as nat, tile_size, g as int, i as int),
                    untouched_zero(cursor.img, cursor.placed(), side as nat, tile_size),
                    item_copied(cursor.img, fs@, gs, images@, side as nat, tile_size, g as int, i as int, t as int),
                decreases flat.len() - t,
            {
                let tile = flat[t];
                if item.loc[0] > usize::MAX - tile[0] || item.loc[1] > usize::MAX - tile[1] {
                    assert(!tile_in_source(*img, item.loc, flat@[t as int], tile_size));
                    assert(!item_in_source(fs@, gs, images@, tile_size, g as int, i as int));
                    assert(item_at(gs, g as int, i as int));
                    return Err(Error::TileOutsideSource { group: g, item: i });
                }
                let cx = item.loc[0] + tile[0];
                let cy = item.loc[1] + tile[1];
                let fits_x = match cx.checked_mul(tw) {
                    Some(sx) => sx <= img.width && tw <= img.width - sx,
                    None => false,
                };
                let fits_y = match cy.checked_mul(th) {
                    Some(sy) => sy <= img.height && th <= img.height - sy,
                    None => false,
                };
                if !(fits_x && fits_y) {
                    assert(!tile_in_source(*img, item.loc, flat@[t as int], tile_size));
                    assert(!item_in_source(fs@, gs, images@, tile_size, g as int, i as int));
                    assert(item_at(gs, g as int, i as int));
                    return Err(Error::TileOutsideSource { group: g, item: i });
                }
                assert(tile_in_source(*img, item.loc, flat@[t as int], tile_size));
                let ghost k = cursor.placed();
                let ghost before = cursor.img;
                match cursor.add_tile(img, [cx, cy]) {
                    Ok(px) => {
                        pxs.push(px);
                        proof {
                            let after = cursor.img;
                            let sd = side as nat;
                            lemma_untouched_kept(before, after, k, sd, tile_size);
                            assert forall|g1: int, i1: int|
                                item_at(gs, g1, i1) && item_before(g1, i1, g as int, i as int) implies #[trigger] item_copied(
                                    after,
                                    fs@,
                                    gs,
                                    images@,
                                    sd,
                                    tile_size,
                                    g1,
                                    i1,
                                    item_len(fs@[g1]) as int,
                                ) by {
                                assert(item_copied(before, fs@, gs, images@, sd, tile_size, g1, i1, item_len(fs@[g1]) as int));
                                assert forall|q: int| 0 <= q < item_len(fs@[g1]) implies #[trigger] tile_copied(
                                    after,
                                    images@[g1],
                                    (item_base(fs@, gs, g1, i1) + q) as nat,
                                    sd,
                                    tile_size,
                                    gs[g1].items@[i1].loc[0] + flat_tiles(fs@[g1].input.parts@)[q][0],
                                    gs[g1].items@[i1].loc[1] + flat_tiles(fs@[g1].input.parts@)[q][1],
                                ) by {
                                    lemma_item_before_base(fs@, gs, g1, i1, q, g as int, i as int);
                                    lemma_tile_copied_kept(
                                        before,
                                        after,
                                        images@[g1],
                                        (item_base(fs@, gs, g1, i1) + q) as nat,
                                        k,
                                        sd,
                                        tile_size,
                                        gs[g1].items@[i1].loc[0] + flat_tiles(fs@[g1].input.parts@)[q][0],
                                        gs[g1].items@[i1].loc[1] + flat_tiles(fs@[g1].input.parts@)[q][1],
                                    );
                                }
                            }
                            assert forall|q: int| 0 <= q < t + 1 implies #[trigger] tile_copied(
                                after,
                                images@[g as int],
                                (base + q) as nat,
                                sd,
                                tile_size,
                                item.loc[0] + flat@[q][0],
                                item.loc[1] + flat@[q][1],
                            ) by {
                                if q < t {
                                    lemma_tile_copied_kept(
                                        before,
                                        after,
                                        images@[g as int],
                                        (base + q) as nat,
                                        k,
                                        sd,
                                        tile_size,
                                        item.loc[0] + flat@[q][0],
                                        item.loc[1] + flat@[q][1],
                                    );
                                } else {
                                    assert(cx == item.loc[0] + flat@[q][0]);
                                }
                            }
                        }
                    },
                    Err(e) => {
                        proof {
                            lemma_item_tile_below(fs@, gs, g as int, i as int, t as int, n as int);
                        }
                        return Err(e);
                    },
                }
                t = t + 1;
            }
            proof {
                let len = item_len(fs@[g as int]) as int;
                assert((i + 1) * len == i * len + len) by (nonlinear_arith);
            }
            let ghost old_fmts = fmts@;
            if !insert_item(&mut fmts, &f.input.fmt, &item.id, pxs) {
                proof {
                    let fmt = fs@[g as int].input.fmt@;
                    let id = gs[g as int].items@[i as int].id@;
                    let (g1, i1) = choose|g1: int, i1: int|
                        item_at(gs, g1, i1) && item_before(g1, i1, g as int, i as int) && fs@[g1].input.fmt@ == fmt
                            && (#[trigger] gs[g1].items@[i1]).id@ == id;
                    assert(same_key(fs@, gs, g as int, i as int, g1, i1));
                }
                return Err(Error::DuplicateItem { fmt: f.input.fmt.clone(), id: item.id.clone() });
            }
            proof {
                lemma_packed_step(old_fmts, fmts@, fs@, gs, images@, side as nat, tile_size, g as int, i as int, pxs@);
                assert forall|g1: int, i1: int|
                    item_at(gs, g1, i1) && item_before(g1, i1, g as int, i + 1) implies #[trigger] item_copied(
                        cursor.img,
                        fs@,
                        gs,
                        images@,
                        side as nat,
                        tile_size,
                        g1,
                        i1,
                        item_len(fs@[g1]) as int,
                    ) by {
                    if !item_before(g1, i1, g as int, i as int) {
                        assert(g1 == g && i1 == i);
                    }
                }
            }
            i = i + 1;
        }
        proof {
            lemma_packed_next_group(fmts@, fs@, gs, images@, side as nat, tile_size, g as int);
            assert forall|g1: int, i1: int|
                item_at(gs, g1, i1) && item_before(g1, i1, g + 1, 0) implies #[trigger] item_copied(
                    cursor.img,
                    fs@,
                    gs,
                    images@,
                    side as nat,
                    tile_size,
                    g1,
                    i1,
                    item_len(fs@[g1]) as int,
                ) by {
                assert(item_before(g1, i1, g as int, n_items as int));
            }
            let len = item_len(fs@[g as int]) as int;
            assert(n_items * len == len * n_items) by (nonlinear_arith);
        }
        g = g + 1;
    }
    proof {
        assert forall|g1: int, i1: int| item_at(gs, g1, i1) implies #[trigger] item_in_source(
            fs@,
            gs,
            images@,
            tile_size,
            g1,
            i1,
        ) by {
            assert(item_before(g1, i1, n as int, 0));
        }
        assert forall|g1: int, i1: int, g2: int, i2: int|
            item_at(gs, g1, i1) && item_at(gs, g2, i2) && (g1 != g2 || i1 != i2) implies !#[trigger] same_key(
                fs@,
                gs,
                g1,
                i1,
                g2,
                i2,
            ) by {
            assert(item_before(g1, i1, n as int, 0));
            assert(item_before(g2, i2, n as int, 0));
        }
        assert(cursor.placed() <= side * side) by (nonlinear_arith)
            requires cursor.row <= side, cursor.col < side, cursor.row < side || cursor.col == 0,
                cursor.placed() == cursor.row * side + cursor.col, side >= 1;
    }
    let ts = TileSet { tile_size, image_path, fmts };
    Ok((ts, cursor.img))
}

/// Every source image is well formed, one per group.
pub open spec fn images_ok(tss: TileSetSource, imgs: Seq<Raster>) -> bool {
    imgs.len() == tss.groups@.len() && forall|g: int| 0 <= g < imgs.len() ==> (#[trigger] imgs[g]).wf()
}

/// Each item of each group places as many tiles as its output format declares.
pub open spec fn inputs_match_outputs(fs: Seq<GroupFormats>) -> bool {
    forall|g: int| 0 <= g < fs.len() ==> item_len(#[trigger] fs[g]) == count_sum(fs[g].output@)
}

/// Where each item places the tiles its output format declares, the tiles
/// packed are the tiles the capacity planner counted.
pub proof fn lemma_packed_is_counted(fs: Seq<GroupFormats>, gs: Seq<TileSetSourceGroup>, n: int)
    requires
        0 <= n <= fs.len(),
        inputs_match_outputs(fs),
    ensures
        tiles_before(fs, gs, n) == total_tiles(fs, gs, n),
    decreases n,
{
    if n > 0 {
        lemma_packed_is_counted(fs, gs, n - 1);
        assert(item_len(fs[n - 1]) == count_sum(fs[n - 1].output@));
    }
}

/// Capacity sufficiency: for a specification whose items place the tiles
/// their output formats declare, an atlas of floor(sqrt(total)) + 1 tiles per
/// side holds every tile, so packing never overflows.
pub proof fn lemma_capacity_never_overflows(
    fs: Seq<GroupFormats>,
    gs: Seq<TileSetSourceGroup>,
    side: nat,
)
    requires
        fs.len() == gs.len(),
        inputs_match_outputs(fs),
        is_atlas_side(total_tiles(fs, gs, fs.len() as int), side),
    ensures
        tiles_before(fs, gs, gs.len() as int) < side * side,
{
    lemma_packed_is_counted(fs, gs, fs.len() as int);
}

proof fn lemma_entry_unique(
    fmts: Seq<(String, TileSetItems)>,
    f: Seq<char>,
    d: Seq<char>,
    p: Seq<[usize; 2]>,
    q: Seq<[usize; 2]>,
)
    requires
        fmts_wf(fmts),
        entry_is(fmts, f, d, p),
        entry_is(fmts, f, d, q),
    ensures
        p == q,
{
    let (a, b) = choose|a: int, b: int|
        0 <= a < fmts.len() && 0 <= b < fmts[a].1@.len() && (#[trigger] fmts[a]).0@ == f
            && (#[trigger] fmts[a].1@[b]).0@ == d && fmts[a].1@[b].1@ == p;
    let (a2, b2) = choose|a2: int, b2: int|
        0 <= a2 < fmts.len() && 0 <= b2 < fmts[a2].1@.len() && (#[trigger] fmts[a2]).0@ == f
            && (#[trigger] fmts[a2].1@[b2]).0@ == d && fmts[a2].1@[b2].1@ == q;
    if a != a2 {
        if a < a2 {
            assert(fmts[a].0@ != fmts[a2].0@);
        } else {
            assert(fmts[a2].0@ != fmts[a].0@);
        }
    }
    if b != b2 {
        assert(crate::tile_set::ids_unique(fmts[a].1@));
        if b < b2 {
            assert(fmts[a].1@[b].0@ != fmts[a].1@[b2].0@);
        } else {
            assert(fmts[a].1@[b2].0@ != fmts[a].1@[b].0@);
        }
    }
}

proof fn lemma_run_unique(p: Seq<[usize; 2]>, q: Seq<[usize; 2]>, base: nat, n: nat, side: nat, tile_size: [usize; 2])
    requires
        is_run(p, base, n, side, tile_size),
        is_run(q, base, n, side, tile_size),
    ensures
        p == q,
{
    assert forall|t: int| 0 <= t < n implies p[t] == q[t] by {
        assert(p[t][0] == q[t][0] && p[t][1] == q[t][1]);
        assert(p[t] =~= q[t]);
    }
    assert(p =~= q);
}

proof fn lemma_entry_in_other(
    a: Seq<(String, TileSetItems)>,
    b: Seq<(String, TileSetItems)>,
    fs: Seq<GroupFormats>,
    gs: Seq<TileSetSourceGroup>,
    imgs: Seq<Raster>,
    side: nat,
    tile_size: [usize; 2],
    f: Seq<char>,
    d: Seq<char>,
    p: Seq<[usize; 2]>,
)
    requires
        packed_upto(a, fs, gs, imgs, side, tile_size, gs.len() as int, 0),
        packed_upto(b, fs, gs, imgs, side, tile_size, gs.len() as int, 0),
        entry_is(a, f, d, p),
    ensures
        entry_is(b, f, d, p),
{
    lemma_entry_is_has_entry(a, f, d, p);
    let (g, i) = choose|g: int, i: int|
        item_at(gs, g, i) && item_before(g, i, gs.len() as int, 0) && fs[g].input.fmt@ == f
            && (#[trigger] gs[g].items@[i]).id@ == d;
    assert(item_recorded(a, fs, gs, side, tile_size, g, i));
    assert(item_recorded(b, fs, gs, side, tile_size, g, i));
    let base = item_base(fs, gs, g, i);
    let n = item_len(fs[g]);
    let pa = choose|pa: Seq<[usize; 2]>| #[trigger] entry_is(a, f, d, pa) && is_run(pa, base, n, side, tile_size);
    let pb = choose|pb: Seq<[usize; 2]>| #[trigger] entry_is(b, f, d, pb) && is_run(pb, base, n, side, tile_size);
    lemma_entry_unique(a, f, d, p, pa);
    lemma_run_unique(pa, pb, base, n, side, tile_size);
}

/// Determinism of the coordinate map: two maps that each record every item of
/// the same inputs at its places, and nothing else, hold the same entries.
pub proof fn lemma_coordinate_map_determined(
    a: Seq<(String, TileSetItems)>,
    b: Seq<(String, TileSetItems)>,
    fs: Seq<GroupFormats>,
    gs: Seq<TileSetSourceGroup>,
    imgs: Seq<Raster>,
    side: nat,
    tile_size: [usize; 2],
)
    requires
        packed_upto(a, fs, gs, imgs, side, tile_size, gs.len() as int, 0),
        packed_upto(b, fs, gs, imgs, side, tile_size, gs.len() as int, 0),
    ensures
        forall|f: Seq<char>, d: Seq<char>, p: Seq<[usize; 2]>|
            #[trigger] entry_is(a, f, d, p) <==> entry_is(b, f, d, p),
{
    assert forall|f: Seq<char>, d: Seq<char>, p: Seq<[usize; 2]>|
        #[trigger] entry_is(a, f, d, p) <==> entry_is(b, f, d, p) by {
        if entry_is(a, f, d, p) {
            lemma_entry_in_other(a, b, fs, gs, imgs, side, tile_size, f, d, p);
        }
        if entry_is(b, f, d, p) {
            lemma_entry_in_other(b, a, fs, gs, imgs, side, tile_size, f, d, p);
        }
    }
}

/// Each index below the number of packed tiles is the place of some tile of some item.
pub proof fn lemma_cell_has_tile(fs: Seq<GroupFormats>, gs: Seq<TileSetSourceGroup>, n: int, k: int) -> (r: (
    int,
    int,
    int,
))
    requires
        0 <= n <= gs.len(),
        0 <= k < tiles_before(fs, gs, n),
    ensures
        item_at(gs, r.0, r.1),
        r.0 < n,
        0 <= r.2 < item_len(fs[r.0]),
        item_base(fs, gs, r.0, r.1) + r.2 == k,
    decreases n,
{
    let tb = tiles_before(fs, gs, n - 1) as int;
    if k < tb {
        lemma_cell_has_tile(fs, gs, n - 1, k)
    } else {
        let g = n - 1;
        let len = item_len(fs[g]) as int;
        let m = gs[g].items@.len() as int;
        let rest = k - tb;
        assert(rest < len * m);
        assert(len > 0) by (nonlinear_arith)
            requires rest < len * m, rest >= 0, len >= 0, m >= 0;
        lemma_fundamental_div_mod(rest, len);
        let i = rest / len;
        let t = rest % len;
        assert(i < m) by (nonlinear_arith)
            requires rest == len * i + t, 0 <= t, rest < len * m, len > 0;
        assert(i >= 0) by (nonlinear_arith)
            requires rest == len * i + t, t < len, rest >= 0, len > 0;
        assert(i * len == len * i) by (nonlinear_arith);
        (g, i, t)
    }
}

/// Determinism of the atlas: two atlases of the same size that each show every
/// packed tile of the same inputs at its place, and are transparent black in
/// every cell past the packed ones, are byte-identical.
pub proof fn lemma_atlas_determined(
    a: Raster,
    b: Raster,
    fs: Seq<GroupFormats>,
    gs: Seq<TileSetSourceGroup>,
    imgs: Seq<Raster>,
    side: nat,
    tile_size: [usize; 2],
)
    requires
        side >= 1,
        a.wf(),
        b.wf(),
        a.width == side * tile_size[0],
        a.height == side * tile_size[1],
        b.width == a.width,
        b.height == a.height,
        copied_upto(a, fs, gs, imgs, side, tile_size, gs.len() as int, 0),
        copied_upto(b, fs, gs, imgs, side, tile_size, gs.len() as int, 0),
        untouched_zero(a, tiles_before(fs, gs, gs.len() as int), side, tile_size),
        untouched_zero(b, tiles_before(fs, gs, gs.len() as int), side, tile_size),
    ensures
        a.pixels@ == b.pixels@,
{
    let w = a.width as int;
    let h = a.height as int;
    let tw = tile_size[0] as int;
    let th = tile_size[1] as int;
    let total = tiles_before(fs, gs, gs.len() as int);
    assert forall|j: int| 0 <= j < a.pixels@.len() implies a.pixels@[j] == b.pixels@[j] by {
        assert(w > 0 && h > 0) by (nonlinear_arith)
            requires j < w * h * 4, 0 <= j, w >= 0, h >= 0;
        assert(tw > 0 && th > 0) by (nonlinear_arith)
            requires w == side * tw, h == side * th, w > 0, h > 0, tw >= 0, th >= 0;
        lemma_fundamental_div_mod(j, 4);
        let q = j / 4;
        let c = j % 4;
        lemma_fundamental_div_mod(q, w);
        let x = q % w;
        let y = q / w;
        assert(0 <= q < w * h) by (nonlinear_arith)
            requires j == 4 * q + c, 0 <= c < 4, 0 <= j < w * h * 4;
        assert(0 <= y < h) by (nonlinear_arith)
            requires q == w * y + x, 0 <= x < w, 0 <= q < w * h;
        assert(byte_index(w, x, y, c) == j) by (nonlinear_arith)
            requires q == w * y + x, j == 4 * q + c;
        assert(a.byte(x, y, c) == a.pixels@[j]);
        assert(b.byte(x, y, c) == b.pixels@[j]);
        let k = cell_of(x, y, side, tile_size);
        lemma_fundamental_div_mod(x, tw);
        lemma_fundamental_div_mod(y, th);
        let col = x / tw;
        let row = y / th;
        assert(0 <= col < side) by (nonlinear_arith)
            requires x == tw * col + x % tw, 0 <= x % tw < tw, 0 <= x < w, w == side * tw, tw > 0;
        assert(0 <= row) by (nonlinear_arith)
            requires y == th * row + y % th, y % th < th, 0 <= y, th > 0;
        if k < total {
            let (g, i, t) = lemma_cell_has_tile(fs, gs, gs.len() as int, k);
            assert(item_before(g, i, gs.len() as int, 0));
            assert(item_copied(a, fs, gs, imgs, side, tile_size, g, i, item_len(fs[g]) as int));
            assert(item_copied(b, fs, gs, imgs, side, tile_size, g, i, item_len(fs[g]) as int));
            let cx = gs[g].items@[i].loc[0] + flat_tiles(fs[g].input.parts@)[t][0];
            let cy = gs[g].items@[i].loc[1] + flat_tiles(fs[g].input.parts@)[t][1];
            assert(tile_copied(a, imgs[g], (item_base(fs, gs, g, i) + t) as nat, side, tile_size, cx, cy));
            assert(tile_copied(b, imgs[g], (item_base(fs, gs, g, i) + t) as nat, side, tile_size, cx, cy));
            assert((item_base(fs, gs, g, i) + t) as nat == k as nat);
            lemma_fundamental_div_mod_converse_mod(k, side as int, row, col);
            lemma_fundamental_div_mod_converse_div(k, side as int, row, col);
            let dx = x - placement_x(k as nat, side, tile_size);
            let dy = y - placement_y(k as nat, side, tile_size);
            assert(0 <= dx < tw && 0 <= dy < th) by (nonlinear_arith)
                requires dx == x - col * tw, dy == y - row * th, x == tw * col + x % tw,
                    0 <= x % tw < tw, y == th * row + y % th, 0 <= y % th < th;
            assert(a.byte(placement_x(k as nat, side, tile_size) + dx, placement_y(k as nat, side, tile_size)
                + dy, c) == imgs[g].byte(cx * tw + dx, cy * th + dy, c));
            assert(b.byte(placement_x(k as nat, side, tile_size) + dx, placement_y(k as nat, side, tile_size)
                + dy, c) == imgs[g].byte(cx * tw + dx, cy * th + dy, c));
        }
    }
    assert(a.pixels@ =~= b.pixels@);
}

/// `ts` and `atlas` are the coordinate map and the atlas of the inputs: the
/// atlas is floor(sqrt(total)) + 1 tiles on each side, every item is recorded
/// at its places in packing order, each place shows its source tile, and the
/// cells past the packed ones are transparent black.
pub open spec fn compiled_as(
    tss: TileSetSource,
    fs: Seq<GroupFormats>,
    imgs: Seq<Raster>,
    image_path: String,
    ts: TileSet,
    atlas: Raster,
) -> bool {
    &&& ts.tile_size == tss.tile_size
    &&& ts.image_path == image_path
    &&& atlas.wf()
    &&& exists|side: nat| #[trigger] is_atlas_side(total_tiles(fs, tss.groups@, fs.len() as int), side)
        && atlas.width == side * tss.tile_size[0] && atlas.height == side * tss.tile_size[1]
        && packed_upto(ts.fmts@, fs, tss.groups@, imgs, side, tss.tile_size, tss.groups@.len() as int, 0)
        && copied_upto(atlas, fs, tss.groups@, imgs, side, tss.tile_size, tss.groups@.len() as int, 0)
        && untouched_zero(atlas, tiles_before(fs, tss.groups@, tss.groups@.len() as int), side,
        tss.tile_size)
}

/// Determinism: two compilations of the same specification and source images
/// give byte-identical atlases and coordinate maps with the same entries.
pub proof fn lemma_compile_deterministic(
    tss: TileSetSource,
    fs: Seq<GroupFormats>,
    imgs: Seq<Raster>,
    image_path: String,
    ts1: TileSet,
    atlas1: Raster,
    ts2: TileSet,
    atlas2: Raster,
)
    requires
        compiled_as(tss, fs, imgs, image_path, ts1, atlas1),
        compiled_as(tss, fs, imgs, image_path, ts2, atlas2),
    ensures
        atlas1.width == atlas2.width,
        atlas1.height == atlas2.height,
        atlas1.pixels@ == atlas2.pixels@,
        ts1.tile_size == ts2.tile_size,
        ts1.image_path == ts2.image_path,
        forall|f: Seq<char>, d: Seq<char>, p: Seq<[usize; 2]>|
            #[trigger] entry_is(ts1.fmts@, f, d, p) <==> entry_is(ts2.fmts@, f, d, p),
{
    let total = total_tiles(fs, tss.groups@, fs.len() as int);
    let s1 = choose|side: nat| #[trigger] is_atlas_side(total, side)
        && atlas1.width == side * tss.tile_size[0] && atlas1.height == side * tss.tile_size[1]
        && packed_upto(ts1.fmts@, fs, tss.groups@, imgs, side, tss.tile_size, tss.groups@.len() as int, 0)
        && copied_upto(atlas1, fs, tss.groups@, imgs, side, tss.tile_size, tss.groups@.len() as int, 0)
        && untouched_zero(atlas1, tiles_before(fs, tss.groups@, tss.groups@.len() as int), side,
        tss.tile_size);
    let s2 = choose|side: nat| #[trigger] is_atlas_side(total, side)
        && atlas2.width == side * tss.tile_size[0] && atlas2.height == side * tss.tile_size[1]
        && packed_upto(ts2.fmts@, fs, tss.groups@, imgs, side, tss.tile_size, tss.groups@.len() as int, 0)
        && copied_upto(atlas2, fs, tss.groups@, imgs, side, tss.tile_size, tss.groups@.len() as int, 0)
        && untouched_zero(atlas2, tiles_before(fs, tss.groups@, tss.groups@.len() as int), side,
        tss.tile_size);
    crate::capacity::lemma_atlas_side_unique(total, s1, s2);
    lemma_atlas_determined(atlas1, atlas2, fs, tss.groups@, imgs, s1, tss.tile_size);
    lemma_coordinate_map_determined(ts1.fmts@, ts2.fmts@, fs, tss.groups@, imgs, s1, tss.tile_size);
}

/// Validates and measures (no pixel is written unless this succeeds), then
/// packs. The atlas is `floor(sqrt(total)) + 1` tiles on each side.
pub fn compile(
    tss: &TileSetSource,
    fs: &Vec<GroupFormats>,
    images: &Vec<Raster>,
    image_path: String,
) -> (r: Result<(TileSet, Raster), Error>)
    ensures
        r is Ok <==> {
            &&& plan_atlas_ok(*tss, fs@)
            &&& images_ok(*tss, images@)
            &&& all_in_source(fs@, tss.groups@, images@, tss.tile_size)
            &&& no_duplicates(fs@, tss.groups@)
            &&& forall|side: nat| #[trigger] is_atlas_side(
                total_tiles(fs@, tss.groups@, fs@.len() as int),
                side,
            ) ==> tiles_before(fs@, tss.groups@, tss.groups@.len() as int) <= side * side
        },
        r matches Ok((ts, atlas)) ==> compiled_as(*tss, fs@, images@, image_path, ts, atlas),
        r matches Err(e) ==> {
            ||| (!plan_atlas_ok(*tss, fs@) && plan_error(*tss, fs@, e))
            ||| (plan_atlas_ok(*tss, fs@) && !images_ok(*tss, images@) && (e is MissingSourceReference
                || e is DecodeFailure))
            ||| (plan_atlas_ok(*tss, fs@) && images_ok(*tss, images@) && exists|side: nat| #[trigger] is_atlas_side(
                total_tiles(fs@, tss.groups@, fs@.len() as int),
                side,
            ) && pack_error(*tss, fs@, images@, side, e))
        },
        r == Err::<(TileSet, Raster), Error>(Error::PackingOverflow) ==> !inputs_match_outputs(fs@),
{
    let plan = match plan_atlas(tss, fs) {
        Ok(p) => p,
        Err(e) => {
            return Err(e);
        },
    };
    proof {
        assert(dims_fit(plan.side as nat, tss.tile_size));
    }
    if images.len() != tss.groups.len() {
        let group = if images.len() < tss.groups.len() { images.len() } else { tss.groups.len() };
        return Err(Error::MissingSourceReference { group });
    }
    let mut g: usize = 0;
    while g < images.len()
        invariant
            g <= images@.len(),
            images@.len() == tss.groups@.len(),
            fs@.len() == tss.groups@.len(),
            plan_atlas_ok(*tss, fs@),
            forall|q: int| 0 <= q < g ==> (#[trigger] images@[q]).wf(),
        decreases images.len() - g,
    {
        let img = &images[g];
        let len = img.pixels.len();
        let ok = match img.width.checked_mul(img.height) {
            Some(a) => match a.checked_mul(4) {
                Some(b) => b == len,
                None => false,
            },
            None => false,
        };
        if !ok {
            return Err(Error::DecodeFailure {
                path: fs[g].source.image_path.clone(),
                reason: String::from_str("pixel buffer does not match the image size"),
            });
        }
        g = g + 1;
    }
    let ghost total = total_tiles(fs@, tss.groups@, fs@.len() as int);
    proof {
        assert forall|s: nat| #[trigger] is_atlas_side(total, s) implies s == plan.side by {
            crate::capacity::lemma_atlas_side_unique(total, s, plan.side as nat);
        }
        if inputs_match_outputs(fs@) {
            lemma_capacity_never_overflows(fs@, tss.groups@, plan.side as nat);
        }
    }
    let r = pack_atlas(tss, fs, images, plan.side, image_path);
    assert(is_atlas_side(total, plan.side as nat));
    r
}

} // verus!

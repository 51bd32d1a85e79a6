//! How large the atlas must be: the tile count of a tile set, and the side of
//! the square atlas that holds it.
use vstd::prelude::*;
use crate::format::{
    count_sum, group_valid, try_num_tiles, validate_group, validation_error, Error,
    GroupFormats, TileSetSource, TileSetSourceGroup,
};

verus! {

/// Tiles that one group places: tiles per item times items.
pub open spec fn group_tiles(f: GroupFormats, g: TileSetSourceGroup) -> nat {
    count_sum(f.output@) * g.items@.len()
}

/// Tiles that the first `n` groups place.
pub open spec fn total_tiles(fs: Seq<GroupFormats>, gs: Seq<TileSetSourceGroup>, n: int) -> nat
    decreases n,
{
    if n <= 0 {
        0
    } else {
        total_tiles(fs, gs, n - 1) + group_tiles(fs[n - 1], gs[n - 1])
    }
}

/// `side` is the atlas side, in tiles, for `total` tiles: floor(sqrt(total)) + 1.
pub open spec fn is_atlas_side(total: nat, side: nat) -> bool {
    side >= 1 && (side - 1) * (side - 1) <= total && total < side * side
}

/// An atlas of `side` tiles per axis has pixel sizes and a pixel buffer that
/// can be addressed.
pub open spec fn dims_fit(side: nat, tile_size: [usize; 2]) -> bool {
    side * tile_size[0] <= usize::MAX && side * tile_size[1] <= usize::MAX
        && side * tile_size[0] * (side * tile_size[1]) * 4 <= usize::MAX
}

/// Every group below `n` is valid.
pub open spec fn groups_valid_upto(tile_size: [usize; 2], fs: Seq<GroupFormats>, n: int) -> bool {
    forall|g: int| 0 <= g < n ==> #[trigger] group_valid(tile_size, fs[g])
}

/// Every group is resolved and valid, and the atlas they need can be addressed.
pub open spec fn plan_atlas_ok(tss: TileSetSource, fs: Seq<GroupFormats>) -> bool {
    &&& fs.len() == tss.groups@.len()
    &&& groups_valid_upto(tss.tile_size, fs, fs.len() as int)
    &&& total_tiles(fs, tss.groups@, fs.len() as int) <= usize::MAX
    &&& forall|side: nat| #[trigger] is_atlas_side(total_tiles(fs, tss.groups@, fs.len() as int), side)
        ==> dims_fit(side, tss.tile_size)
}

/// The errors that planning reports, and when: a group without resolved
/// documents, the first invalid group, or an atlas too large to address.
pub open spec fn plan_error(tss: TileSetSource, fs: Seq<GroupFormats>, e: Error) -> bool {
    ||| (fs.len() != tss.groups@.len() && e == (Error::MissingSourceReference {
        group: if fs.len() < tss.groups@.len() { fs.len() as usize } else { tss.groups@.len() as usize },
    }))
    ||| (fs.len() == tss.groups@.len() && exists|g: usize| g < fs.len()
        && groups_valid_upto(tss.tile_size, fs, g as int)
        && #[trigger] validation_error(tss.tile_size, g, fs[g as int], e))
    ||| (fs.len() == tss.groups@.len()
        && groups_valid_upto(tss.tile_size, fs, fs.len() as int)
        && e == Error::AtlasTooLarge)
}

/// The measured size of an atlas.
#[derive(Clone, Copy, Debug, PartialEq, Eq)]
pub struct AtlasPlan {
    pub total_tiles: usize,
    pub side: usize,
    pub dimensions: [usize; 2],
}

pub proof fn lemma_atlas_side_unique(total: nat, a: nat, b: nat)
    requires
        is_atlas_side(total, a),
        is_atlas_side(total, b),
    ensures
        a == b,
{
    assert((a - 1) * (a - 1) < b * b ==> a - 1 < b) by (nonlinear_arith)
        requires a >= 1, b >= 1;
    assert((b - 1) * (b - 1) < a * a ==> b - 1 < a) by (nonlinear_arith)
        requires a >= 1, b >= 1;
}

/// floor(sqrt(n)).
pub fn floor_sqrt(n: usize) -> (r: usize)
    ensures
        r * r <= n,
        n < (r + 1) * (r + 1),
{
    let mut r: usize = 0;
    loop
        invariant
            r * r <= n,
        decreases n - r,
    {
        proof {
            assert(r <= n) by (nonlinear_arith)
                requires r * r <= n;
        }
        if r == usize::MAX {
            assert(r * r > n) by (nonlinear_arith)
                requires r == usize::MAX, n <= usize::MAX;
        }
        match (r + 1).checked_mul(r + 1) {
            Some(sq) => {
                if sq <= n {
                    assert(r < r + 1 <= n) by (nonlinear_arith)
                        requires (r + 1) * (r + 1) <= n;
                    r = r + 1;
                } else {
                    return r;
                }
            },
            None => {
                return r;
            },
        }
    }
}

/// The side of the square atlas, in tiles, that holds `total` tiles with a
/// margin: floor(sqrt(total)) + 1.
pub fn atlas_side(total: usize) -> (r: usize)
    ensures
        is_atlas_side(total as nat, r as nat),
{
    let s = floor_sqrt(total);
    assert(s < usize::MAX) by (nonlinear_arith)
        requires s * s <= total, total <= usize::MAX;
    s + 1
}

/// Validates every group, then measures the atlas.
pub fn plan_atlas(tss: &TileSetSource, fs: &Vec<GroupFormats>) -> (r: Result<AtlasPlan, Error>)
    ensures
        r is Ok <==> plan_atlas_ok(*tss, fs@),
        r matches Ok(p) ==> {
            &&& p.total_tiles == total_tiles(fs@, tss.groups@, fs@.len() as int)
            &&& is_atlas_side(p.total_tiles as nat, p.side as nat)
            &&& p.dimensions[0] == p.side * tss.tile_size[0]
            &&& p.dimensions[1] == p.side * tss.tile_size[1]
        },
        r matches Err(e) ==> plan_error(*tss, fs@, e),
{
    if fs.len() != tss.groups.len() {
        let group = if fs.len() < tss.groups.len() { fs.len() } else { tss.groups.len() };
        return Err(Error::MissingSourceReference { group });
    }
    let n = fs.len();
    let mut g: usize = 0;
    while g < n
        invariant
            n == fs@.len(),
            n == tss.groups@.len(),
            g <= n,
            groups_valid_upto(tss.tile_size, fs@, g as int),
        decreases n - g,
    {
        match validate_group(tss.tile_size, g, &fs[g]) {
            Ok(()) => {},
            Err(e) => {
                assert(validation_error(tss.tile_size, g, fs@[g as int], e));
                return Err(e);
            },
        }
        g = g + 1;
    }
    let mut total: usize = 0;
    let mut g: usize = 0;
    while g < n
        invariant
            n == fs@.len(),
            n == tss.groups@.len(),
            g <= n,
            total == total_tiles(fs@, tss.groups@, g as int),
            groups_valid_upto(tss.tile_size, fs@, n as int),
        decreases n - g,
    {
        proof {
            lemma_total_tiles_monotone(fs@, tss.groups@, g as int + 1, n as int);
        }
        let n_items = tss.groups[g].items.len();
        let tiles: usize = if n_items == 0 {
            assert(count_sum(fs@[g as int].output@) * 0 == 0);
            0
        } else {
            let per_item = match try_num_tiles(&fs[g].output) {
                Some(t) => t,
                None => {
                    proof {
                        let c = count_sum(fs@[g as int].output@);
                        assert(c * n_items >= c) by (nonlinear_arith)
                            requires n_items >= 1;
                    }
                    return Err(Error::AtlasTooLarge);
                },
            };
            match per_item.checked_mul(n_items) {
                Some(t) => t,
                None => {
                    return Err(Error::AtlasTooLarge);
                },
            }
        };
        assert(tiles == group_tiles(fs@[g as int], tss.groups@[g as int]));
        assert(total_tiles(fs@, tss.groups@, g + 1) == total + tiles);
        total = match total.checked_add(tiles) {
            Some(t) => t,
            None => {
                return Err(Error::AtlasTooLarge);
            },
        };
        g = g + 1;
    }
    let side = atlas_side(total);
    let ghost total_spec = total_tiles(fs@, tss.groups@, n as int);
    assert forall|s: nat| #[trigger] is_atlas_side(total_spec, s) implies s == side by {
        lemma_atlas_side_unique(total_spec, s, side as nat);
    }
    let w = match side.checked_mul(tss.tile_size[0]) {
        Some(w) => w,
        None => {
            return Err(Error::AtlasTooLarge);
        },
    };
    let h = match side.checked_mul(tss.tile_size[1]) {
        Some(h) => h,
        None => {
            return Err(Error::AtlasTooLarge);
        },
    };
    let area = match w.checked_mul(h) {
        Some(a) => a,
        None => {
            return Err(Error::AtlasTooLarge);
        },
    };
    match area.checked_mul(4) {
        Some(_) => {},
        None => {
            return Err(Error::AtlasTooLarge);
        },
    }
    Ok(AtlasPlan { total_tiles: total, side, dimensions: [w, h] })
}

pub proof fn lemma_total_tiles_monotone(
    fs: Seq<GroupFormats>,
    gs: Seq<TileSetSourceGroup>,
    i: int,
    n: int,
)
    requires
        0 <= i <= n,
    ensures
        total_tiles(fs, gs, i) <= total_tiles(fs, gs, n),
    decreases n - i,
{
    if i < n {
        lemma_total_tiles_monotone(fs, gs, i, n - 1);
    }
}

} // verus!

//! The documents that describe a tile set, and their cross-validation.
use vstd::prelude::*;

verus! {

/// One raw sheet image and the uniform tile grid it is divided into.
#[derive(Clone, Debug)]
pub struct TileSource {
    pub image_path: String,
    pub tile_size: [usize; 2],
}

/// For each part name, the number of tiles that the part must contain.
/// Entries are kept in ascending key order, one entry per key.
pub type OutputTileFormat = Vec<(String, usize)>;

/// For one kind of composite item, the grid cells (relative to the item's
/// origin) of each named part. Parts are kept in ascending key order, one
/// entry per key; this order is the packing order.
#[derive(Clone, Debug)]
pub struct InputTileFormat {
    pub fmt: String,
    pub parts: Vec<(String, Vec<[usize; 2]>)>,
}

/// The full specification of one compiled tile set.
#[derive(Clone, Debug)]
pub struct TileSetSource {
    pub tile_size: [usize; 2],
    pub groups: Vec<TileSetSourceGroup>,
}

/// A batch of items that share one source sheet and one input format.
#[derive(Clone, Debug)]
pub struct TileSetSourceGroup {
    pub from: String,
    pub fmt: String,
    pub items: Vec<TileSetSourceItem>,
}

/// One concrete item, placed at a tile origin within its source sheet.
#[derive(Clone, Debug)]
pub struct TileSetSourceItem {
    pub id: String,
    pub loc: [usize; 2],
}

/// The documents that one group refers to, once resolved.
#[derive(Clone, Debug)]
pub struct GroupFormats {
    pub source: TileSource,
    pub input: InputTileFormat,
    pub output: OutputTileFormat,
}

/// Why a compile failed. Each variant names the group, item or part at fault.
#[derive(Clone, Debug, PartialEq, Eq)]
pub enum Error {
    /// A document or image could not be read or written.
    IOFailure { path: String, reason: String },
    /// A document or image could not be decoded into the expected shape.
    DecodeFailure { path: String, reason: String },
    /// The source of a group has another tile size than the tile set.
    FormatMismatch { group: usize },
    /// A part of the output format has another tile count in the input format.
    PartCountMismatch { group: usize, part: String },
    /// A group refers to a document that could not be resolved.
    MissingSourceReference { group: usize },
    /// Two items share an identifier under one format.
    DuplicateItem { fmt: String, id: String },
    /// A placement would fall outside the allocated atlas.
    PackingOverflow,
    /// A tile of an item lies outside its source sheet.
    TileOutsideSource { group: usize, item: usize },
    /// The atlas would be too large to address.
    AtlasTooLarge,
}

/// The sum of the declared tile counts of an output format.
pub open spec fn count_sum(fmt: Seq<(String, usize)>) -> nat
    decreases fmt.len(),
{
    if fmt.len() == 0 {
        0
    } else {
        count_sum(fmt.drop_last()) + fmt.last().1 as nat
    }
}

pub proof fn lemma_count_sum_prefix(fmt: Seq<(String, usize)>, i: int)
    requires
        0 <= i <= fmt.len(),
    ensures
        count_sum(fmt.subrange(0, i)) <= count_sum(fmt),
    decreases fmt.len() - i,
{
    if i < fmt.len() {
        lemma_count_sum_prefix(fmt, i + 1);
        assert(fmt.subrange(0, i + 1).drop_last() =~= fmt.subrange(0, i));
    } else {
        assert(fmt.subrange(0, i) =~= fmt);
    }
}

/// The number of tiles that one item of an output format occupies.
pub fn num_tiles(fmt: &OutputTileFormat) -> (r: usize)
    requires
        count_sum(fmt@) <= usize::MAX,
    ensures
        r == count_sum(fmt@),
{
    let mut acc: usize = 0;
    let mut i: usize = 0;
    while i < fmt.len()
        invariant
            i <= fmt@.len(),
            count_sum(fmt@) <= usize::MAX,
            acc == count_sum(fmt@.subrange(0, i as int)),
        decreases fmt.len() - i,
    {
        proof {
            lemma_count_sum_prefix(fmt@, i + 1);
            assert(fmt@.subrange(0, i + 1).drop_last() =~= fmt@.subrange(0, i as int));
        }
        acc = acc + fmt[i].1;
        i = i + 1;
    }
    assert(fmt@.subrange(0, i as int) =~= fmt@);
    acc
}

/// Like `num_tiles`, but `None` where the sum does not fit in a `usize`.
pub fn try_num_tiles(fmt: &OutputTileFormat) -> (r: Option<usize>)
    ensures
        r matches Some(n) ==> n == count_sum(fmt@),
        r is None <==> count_sum(fmt@) > usize::MAX,
{
    let mut acc: usize = 0;
    let mut i: usize = 0;
    while i < fmt.len()
        invariant
            i <= fmt@.len(),
            acc == count_sum(fmt@.subrange(0, i as int)),
        decreases fmt.len() - i,
    {
        proof {
            lemma_count_sum_prefix(fmt@, i + 1);
            assert(fmt@.subrange(0, i + 1).drop_last() =~= fmt@.subrange(0, i as int));
        }
        match acc.checked_add(fmt[i].1) {
            Some(s) => {
                acc = s;
            },
            None => {
                return None;
            },
        }
        i = i + 1;
    }
    assert(fmt@.subrange(0, i as int) =~= fmt@);
    Some(acc)
}

/// Whether the input format has a part named `name` with exactly `n` tiles.
pub open spec fn has_part_of_len(input: InputTileFormat, name: Seq<char>, n: nat) -> bool {
    exists|j: int|
        0 <= j < input.parts@.len() && (#[trigger] input.parts@[j]).0@ == name
            && input.parts@[j].1@.len() == n
}

/// Whether the part of the output format at index `k` agrees with the input format.
pub open spec fn part_agrees(input: InputTileFormat, output: Seq<(String, usize)>, k: int) -> bool {
    has_part_of_len(input, output[k].0@, output[k].1 as nat)
}

/// Whether every part of the output format has its declared count in the input format.
pub open spec fn formats_agree(input: InputTileFormat, output: Seq<(String, usize)>) -> bool {
    forall|k: int| 0 <= k < output.len() ==> #[trigger] part_agrees(input, output, k)
}

pub open spec fn same_tile_size(a: [usize; 2], b: [usize; 2]) -> bool {
    a@ == b@
}

/// Whether a group's resolved documents are consistent with the tile set.
pub open spec fn group_valid(tile_size: [usize; 2], f: GroupFormats) -> bool {
    same_tile_size(tile_size, f.source.tile_size) && formats_agree(f.input, f.output@)
}

/// The error that validating group `group` may report, and when.
pub open spec fn validation_error(tile_size: [usize; 2], group: usize, f: GroupFormats, e: Error) -> bool {
    ||| (e == (Error::FormatMismatch { group }) && !same_tile_size(tile_size, f.source.tile_size))
    ||| (same_tile_size(tile_size, f.source.tile_size) && exists|k: int| 0 <= k < f.output@.len()
        && !#[trigger] part_agrees(f.input, f.output@, k)
        && e == (Error::PartCountMismatch { group, part: f.output@[k].0 }))
}

fn has_part_with_len(input: &InputTileFormat, name: &String, n: usize) -> (r: bool)
    ensures
        r == has_part_of_len(*input, name@, n as nat),
{
    let mut j: usize = 0;
    while j < input.parts.len()
        invariant
            j <= input.parts@.len(),
            forall|q: int|
                0 <= q < j ==> !((#[trigger] input.parts@[q]).0@ == name@
                    && input.parts@[q].1@.len() == n as nat),
        decreases input.parts.len() - j,
    {
        if input.parts[j].0 == *name && input.parts[j].1.len() == n {
            return true;
        }
        j = j + 1;
    }
    false
}

/// Checks one group's resolved documents against the tile set's tile size.
pub fn validate_group(tile_size: [usize; 2], group: usize, f: &GroupFormats) -> (r: Result<(), Error>)
    ensures
        r is Ok <==> group_valid(tile_size, *f),
        r matches Err(e) ==> validation_error(tile_size, group, *f, e),
{
    if tile_size[0] != f.source.tile_size[0] || tile_size[1] != f.source.tile_size[1] {
        return Err(Error::FormatMismatch { group });
    }
    assert(tile_size@ =~= f.source.tile_size@);
    let mut k: usize = 0;
    while k < f.output.len()
        invariant
            k <= f.output@.len(),
            same_tile_size(tile_size, f.source.tile_size),
            forall|q: int| 0 <= q < k ==> #[trigger] part_agrees(f.input, f.output@, q),
        decreases f.output.len() - k,
    {
        if !has_part_with_len(&f.input, &f.output[k].0, f.output[k].1) {
            assert(!part_agrees(f.input, f.output@, k as int));
            let part = f.output[k].0.clone();
            let e = Error::PartCountMismatch { group, part };
            assert(e == (Error::PartCountMismatch { group, part: f.output@[k as int].0 }));
            return Err(e);
        }
        k = k + 1;
    }
    Ok(())
}

} // verus!

//! The compiled tile set: for each format, for each item identifier, the
//! atlas pixel coordinates of the item's tiles, in packing order.
use vstd::prelude::*;

verus! {

/// Item identifier to the atlas pixel coordinates of its tiles.
pub type TileSetItems = Vec<(String, Vec<[usize; 2]>)>;

/// The coordinate map of a compiled atlas.
#[derive(Clone, Debug, PartialEq, Eq)]
pub struct TileSet {
    pub tile_size: [usize; 2],
    pub image_path: String,
    pub fmts: Vec<(String, TileSetItems)>,
}

/// No two entries share an identifier.
pub open spec fn ids_unique(items: Seq<(String, Vec<[usize; 2]>)>) -> bool {
    forall|a: int, b: int|
        0 <= a < b < items.len() ==> (#[trigger] items[a]).0@ != (#[trigger] items[b]).0@
}

/// Format names are unique, and identifiers are unique under each format.
pub open spec fn fmts_wf(fmts: Seq<(String, TileSetItems)>) -> bool {
    &&& forall|a: int, b: int|
        0 <= a < b < fmts.len() ==> (#[trigger] fmts[a]).0@ != (#[trigger] fmts[b]).0@
    &&& forall|a: int| 0 <= a < fmts.len() ==> ids_unique((#[trigger] fmts[a]).1@)
}

/// The map holds identifier `id` under format `fmt`.
pub open spec fn has_entry(fmts: Seq<(String, TileSetItems)>, fmt: Seq<char>, id: Seq<char>) -> bool {
    exists|i: int, j: int|
        0 <= i < fmts.len() && 0 <= j < fmts[i].1@.len() && (#[trigger] fmts[i]).0@ == fmt
            && (#[trigger] fmts[i].1@[j]).0@ == id
}

/// The map sends `(fmt, id)` to the coordinate list `pxs`.
pub open spec fn entry_is(
    fmts: Seq<(String, TileSetItems)>,
    fmt: Seq<char>,
    id: Seq<char>,
    pxs: Seq<[usize; 2]>,
) -> bool {
    exists|i: int, j: int|
        0 <= i < fmts.len() && 0 <= j < fmts[i].1@.len() && (#[trigger] fmts[i]).0@ == fmt
            && (#[trigger] fmts[i].1@[j]).0@ == id && fmts[i].1@[j].1@ == pxs
}

fn find_fmt(fmts: &Vec<(String, TileSetItems)>, fmt: &String) -> (r: Option<usize>)
    ensures
        r matches Some(i) ==> i < fmts@.len() && fmts@[i as int].0@ == fmt@,
        r is None ==> forall|q: int| 0 <= q < fmts@.len() ==> (#[trigger] fmts@[q]).0@ != fmt@,
{
    let mut i: usize = 0;
    while i < fmts.len()
        invariant
            i <= fmts@.len(),
            forall|q: int| 0 <= q < i ==> (#[trigger] fmts@[q]).0@ != fmt@,
        decreases fmts.len() - i,
    {
        if fmts[i].0 == *fmt {
            return Some(i);
        }
        i = i + 1;
    }
    None
}

fn has_id(items: &TileSetItems, id: &String) -> (r: bool)
    ensures
        r == exists|j: int| 0 <= j < items@.len() && (#[trigger] items@[j]).0@ == id@,
{
    let mut j: usize = 0;
    while j < items.len()
        invariant
            j <= items@.len(),
            forall|q: int| 0 <= q < j ==> (#[trigger] items@[q]).0@ != id@,
        decreases items.len() - j,
    {
        if items[j].0 == *id {
            assert(items@[j as int].0@ == id@);
            return true;
        }
        j = j + 1;
    }
    false
}

/// Records `pxs` for item `id` under format `fmt`. Returns false, and changes
/// nothing, where that item is already recorded under that format.
pub fn insert_item(
    fmts: &mut Vec<(String, TileSetItems)>,
    fmt: &String,
    id: &String,
    pxs: Vec<[usize; 2]>,
) -> (ok: bool)
    requires
        fmts_wf(old(fmts)@),
    ensures
        fmts_wf(final(fmts)@),
        ok == !has_entry(old(fmts)@, fmt@, id@),
        !ok ==> final(fmts)@ == old(fmts)@,
        ok ==> forall|f: Seq<char>, d: Seq<char>, p: Seq<[usize; 2]>|
            #[trigger] entry_is(final(fmts)@, f, d, p) <==> (entry_is(old(fmts)@, f, d, p) || (f
                == fmt@ && d == id@ && p == pxs@)),
        ok ==> forall|f: Seq<char>, d: Seq<char>|
            #[trigger] has_entry(final(fmts)@, f, d) <==> (has_entry(old(fmts)@, f, d) || (f
                == fmt@ && d == id@)),
{
    let ghost pre = fmts@;
    match find_fmt(fmts, fmt) {
        Some(i) => {
            if has_id(&fmts[i].1, id) {
                let ghost j = choose|j: int| 0 <= j < pre[i as int].1@.len() && (#[trigger] pre[i as int].1@[j]).0@ == id@;
                assert(pre[i as int].1@[j].0@ == id@);
                return false;
            }
            assert forall|a: int, j: int|
                0 <= a < pre.len() && 0 <= j < pre[a].1@.len() && (#[trigger] pre[a]).0@ == fmt@
                implies (#[trigger] pre[a].1@[j]).0@ != id@ by {
                if a != i {
                    assert(pre[a].0@ != pre[i as int].0@);
                }
            }
            let mut entry: (String, TileSetItems) = (String::new(), Vec::new());
            fmts.set_and_swap(i, &mut entry);
            let ghost old_items = entry.1@;
            assert(entry == pre[i as int]);
            entry.1.push((id.clone(), pxs));
            fmts.set(i, entry);
            let ghost post = fmts@;
            assert(post == pre.update(i as int, entry));
            assert(ids_unique(entry.1@)) by {
                assert(ids_unique(old_items));
            }
            assert forall|f: Seq<char>, d: Seq<char>, p: Seq<[usize; 2]>|
                #[trigger] entry_is(post, f, d, p) <==> (entry_is(pre, f, d, p) || (f == fmt@ && d == id@
                    && p == pxs@)) by {
                if entry_is(post, f, d, p) {
                    let (a, b) = choose|a: int, b: int|
                        0 <= a < post.len() && 0 <= b < post[a].1@.len() && (#[trigger] post[a]).0@ == f
                            && (#[trigger] post[a].1@[b]).0@ == d && post[a].1@[b].1@ == p;
                    if a != i || b < old_items.len() {
                        assert(pre[a].1@[b] == post[a].1@[b]);
                    }
                }
                if entry_is(pre, f, d, p) {
                    let (a, b) = choose|a: int, b: int|
                        0 <= a < pre.len() && 0 <= b < pre[a].1@.len() && (#[trigger] pre[a]).0@ == f
                            && (#[trigger] pre[a].1@[b]).0@ == d && pre[a].1@[b].1@ == p;
                    assert(pre[a].1@[b] == post[a].1@[b]);
                }
                if f == fmt@ && d == id@ && p == pxs@ {
                    assert(post[i as int].1@[old_items.len() as int].0@ == d);
                }
            }
            assert forall|f: Seq<char>, d: Seq<char>|
                #[trigger] has_entry(post, f, d) <==> (has_entry(pre, f, d) || (f == fmt@ && d == id@)) by {
                if has_entry(post, f, d) {
                    let (a, b) = choose|a: int, b: int|
                        0 <= a < post.len() && 0 <= b < post[a].1@.len() && (#[trigger] post[a]).0@ == f
                            && (#[trigger] post[a].1@[b]).0@ == d;
                    if a != i || b < old_items.len() {
                        assert(pre[a].1@[b] == post[a].1@[b]);
                    }
                }
                if has_entry(pre, f, d) {
                    let (a, b) = choose|a: int, b: int|
                        0 <= a < pre.len() && 0 <= b < pre[a].1@.len() && (#[trigger] pre[a]).0@ == f
                            && (#[trigger] pre[a].1@[b]).0@ == d;
                    assert(pre[a].1@[b] == post[a].1@[b]);
                }
                if f == fmt@ && d == id@ {
                    assert(post[i as int].1@[old_items.len() as int].0@ == d);
                }
            }
            true
        },
        None => {
            let mut items: TileSetItems = Vec::new();
            items.push((id.clone(), pxs));
            fmts.push((fmt.clone(), items));
            let ghost post = fmts@;
            assert(post == pre.push(post[pre.len() as int]));
            assert forall|f: Seq<char>, d: Seq<char>, p: Seq<[usize; 2]>|
                #[trigger] entry_is(post, f, d, p) <==> (entry_is(pre, f, d, p) || (f == fmt@ && d == id@
                    && p == pxs@)) by {
                if entry_is(post, f, d, p) {
                    let (a, b) = choose|a: int, b: int|
                        0 <= a < post.len() && 0 <= b < post[a].1@.len() && (#[trigger] post[a]).0@ == f
                            && (#[trigger] post[a].1@[b]).0@ == d && post[a].1@[b].1@ == p;
                    if a < pre.len() {
                        assert(pre[a] == post[a]);
                    }
                }
                if entry_is(pre, f, d, p) {
                    let (a, b) = choose|a: int, b: int|
                        0 <= a < pre.len() && 0 <= b < pre[a].1@.len() && (#[trigger] pre[a]).0@ == f
                            && (#[trigger] pre[a].1@[b]).0@ == d && pre[a].1@[b].1@ == p;
                    assert(pre[a] == post[a]);
                }
                if f == fmt@ && d == id@ && p == pxs@ {
                    assert(post[pre.len() as int].1@[0].0@ == d);
                }
            }
            assert forall|f: Seq<char>, d: Seq<char>|
                #[trigger] has_entry(post, f, d) <==> (has_entry(pre, f, d) || (f == fmt@ && d == id@)) by {
                if has_entry(post, f, d) {
                    let (a, b) = choose|a: int, b: int|
                        0 <= a < post.len() && 0 <= b < post[a].1@.len() && (#[trigger] post[a]).0@ == f
                            && (#[trigger] post[a].1@[b]).0@ == d;
                    if a < pre.len() {
                        assert(pre[a] == post[a]);
                    }
                }
                if has_entry(pre, f, d) {
                    let (a, b) = choose|a: int, b: int|
                        0 <= a < pre.len() && 0 <= b < pre[a].1@.len() && (#[trigger] pre[a]).0@ == f
                            && (#[trigger] pre[a].1@[b]).0@ == d;
                    assert(pre[a] == post[a]);
                }
                if f == fmt@ && d == id@ {
                    assert(post[pre.len() as int].1@[0].0@ == d);
                }
            }
            true
        },
    }
}

} // verus!

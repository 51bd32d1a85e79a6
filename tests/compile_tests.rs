use chickpea_tiles::{
    atlas_side, compile, floor_sqrt, num_tiles, plan_atlas, Error, GroupFormats, InputTileFormat,
    OutputTileFormat, Raster, TileSet, TileSetSource, TileSetSourceGroup, TileSetSourceItem,
    TileSource,
};

fn sheet(width: usize, height: usize) -> Raster {
    let mut pixels = Vec::new();
    for y in 0..height {
        for x in 0..width {
            pixels.push(x as u8);
            pixels.push(y as u8);
            pixels.push((x ^ y) as u8);
            pixels.push(255);
        }
    }
    Raster { width, height, pixels }
}

fn input(fmt: &str, parts: &[(&str, &[[usize; 2]])]) -> InputTileFormat {
    InputTileFormat {
        fmt: fmt.to_string(),
        parts: parts.iter().map(|(n, t)| (n.to_string(), t.to_vec())).collect(),
    }
}

fn output(parts: &[(&str, usize)]) -> OutputTileFormat {
    parts.iter().map(|(n, c)| (n.to_string(), *c)).collect()
}

fn item(id: &str, x: usize, y: usize) -> TileSetSourceItem {
    TileSetSourceItem { id: id.to_string(), loc: [x, y] }
}

fn source(tile: usize) -> TileSource {
    TileSource { image_path: "sheet.png".to_string(), tile_size: [tile, tile] }
}

fn example_input() -> InputTileFormat {
    input("floor", &[("a", &[[0, 0]]), ("b", &[[1, 0], [1, 1]])])
}

fn example_output() -> OutputTileFormat {
    output(&[("a", 1), ("b", 2)])
}

fn one_group(items: Vec<TileSetSourceItem>, inp: InputTileFormat, out: OutputTileFormat, tile: usize)
    -> (TileSetSource, Vec<GroupFormats>, Vec<Raster>) {
    let tss = TileSetSource {
        tile_size: [16, 16],
        groups: vec![TileSetSourceGroup { from: "sheet".to_string(), fmt: "floor".to_string(), items }],
    };
    let fs = vec![GroupFormats { source: source(tile), input: inp, output: out }];
    (tss, fs, vec![sheet(64, 64)])
}

fn lookup<'a>(ts: &'a TileSet, fmt: &str, id: &str) -> Option<&'a Vec<[usize; 2]>> {
    for (f, items) in &ts.fmts {
        if f == fmt {
            for (i, pxs) in items {
                if i == id {
                    return Some(pxs);
                }
            }
        }
    }
    None
}

fn pixel(r: &Raster, x: usize, y: usize) -> &[u8] {
    let at = (y * r.width + x) * 4;
    &r.pixels[at..at + 4]
}

#[test]
fn num_tiles_sums_counts() {
    assert_eq!(num_tiles(&example_output()), 3);
    assert_eq!(num_tiles(&output(&[])), 0);
    assert_eq!(num_tiles(&output(&[("a", 4), ("b", 0), ("c", 7)])), 11);
}

#[test]
fn floor_sqrt_values() {
    assert_eq!(floor_sqrt(0), 0);
    assert_eq!(floor_sqrt(1), 1);
    assert_eq!(floor_sqrt(3), 1);
    assert_eq!(floor_sqrt(4), 2);
    assert_eq!(floor_sqrt(15), 3);
    assert_eq!(floor_sqrt(16), 4);
    assert_eq!(floor_sqrt(1_000_000), 1000);
}

#[test]
fn atlas_side_has_margin() {
    assert_eq!(atlas_side(0), 1);
    assert_eq!(atlas_side(3), 2);
    assert_eq!(atlas_side(4), 3);
    assert_eq!(atlas_side(16), 5);
}

#[test]
fn example_scenario_places_in_raster_order() {
    let (tss, fs, imgs) = one_group(vec![item("x", 0, 0)], example_input(), example_output(), 16);
    let plan = plan_atlas(&tss, &fs).unwrap();
    assert_eq!(plan.total_tiles, 3);
    assert_eq!(plan.side, 2);
    assert_eq!(plan.dimensions, [32, 32]);
    let (ts, atlas) = compile(&tss, &fs, &imgs, "atlas.png".to_string()).unwrap();
    assert_eq!(atlas.width, 32);
    assert_eq!(atlas.height, 32);
    assert_eq!(ts.tile_size, [16, 16]);
    assert_eq!(ts.image_path, "atlas.png");
    assert_eq!(lookup(&ts, "floor", "x").unwrap(), &vec![[0, 0], [16, 0], [0, 16]]);
}

#[test]
fn round_trip_pixels_match_source() {
    let (tss, fs, imgs) = one_group(vec![item("x", 0, 0), item("y", 2, 1)], example_input(), example_output(), 16);
    let (ts, atlas) = compile(&tss, &fs, &imgs, "atlas.png".to_string()).unwrap();
    let src = &imgs[0];
    for (id, loc) in [("x", [0usize, 0usize]), ("y", [2, 1])] {
        let pxs = lookup(&ts, "floor", id).unwrap();
        let offsets = [[0usize, 0usize], [1, 0], [1, 1]];
        for (p, off) in pxs.iter().zip(offsets.iter()) {
            let sx = (loc[0] + off[0]) * 16;
            let sy = (loc[1] + off[1]) * 16;
            for y in 0..16 {
                for x in 0..16 {
                    assert_eq!(pixel(&atlas, p[0] + x, p[1] + y), pixel(src, sx + x, sy + y));
                }
            }
        }
    }
}

#[test]
fn placements_do_not_overlap() {
    let items: Vec<_> = (0..5).map(|k| item(&format!("i{}", k), k % 3, k % 2)).collect();
    let (tss, fs, imgs) = one_group(items, example_input(), example_output(), 16);
    let (ts, atlas) = compile(&tss, &fs, &imgs, "atlas.png".to_string()).unwrap();
    // 15 tiles: side 4, so a 64 by 64 atlas
    assert_eq!(atlas.width, 64);
    let mut all = Vec::new();
    for (_, items) in &ts.fmts {
        for (_, pxs) in items {
            all.extend(pxs.iter().cloned());
        }
    }
    assert_eq!(all.len(), 15);
    for a in 0..all.len() {
        assert!(all[a][0] + 16 <= atlas.width && all[a][1] + 16 <= atlas.height);
        for b in 0..a {
            let apart = all[a][0] + 16 <= all[b][0]
                || all[b][0] + 16 <= all[a][0]
                || all[a][1] + 16 <= all[b][1]
                || all[b][1] + 16 <= all[a][1];
            assert!(apart);
        }
    }
}

#[test]
fn compile_is_deterministic() {
    let (tss, fs, imgs) = one_group(vec![item("x", 0, 0), item("y", 1, 2)], example_input(), example_output(), 16);
    let first = compile(&tss, &fs, &imgs, "atlas.png".to_string()).unwrap();
    let second = compile(&tss, &fs, &imgs, "atlas.png".to_string()).unwrap();
    assert_eq!(first.0, second.0);
    assert_eq!(first.1, second.1);
}

#[test]
fn part_count_mismatch_is_rejected() {
    let (tss, fs, imgs) = one_group(vec![item("x", 0, 0)], example_input(), output(&[("a", 1), ("b", 3)]), 16);
    let r = compile(&tss, &fs, &imgs, "atlas.png".to_string());
    assert_eq!(r, Err(Error::PartCountMismatch { group: 0, part: "b".to_string() }));
}

#[test]
fn missing_input_part_is_rejected() {
    let (tss, fs, imgs) = one_group(vec![item("x", 0, 0)], example_input(), output(&[("a", 1), ("c", 1)]), 16);
    let r = plan_atlas(&tss, &fs);
    assert_eq!(r, Err(Error::PartCountMismatch { group: 0, part: "c".to_string() }));
    assert!(compile(&tss, &fs, &imgs, "atlas.png".to_string()).is_err());
}

#[test]
fn tile_size_mismatch_is_rejected() {
    let (tss, fs, imgs) = one_group(vec![item("x", 0, 0)], example_input(), example_output(), 8);
    let r = compile(&tss, &fs, &imgs, "atlas.png".to_string());
    assert_eq!(r, Err(Error::FormatMismatch { group: 0 }));
}

#[test]
fn duplicate_item_is_rejected() {
    let (tss, fs, imgs) = one_group(vec![item("x", 0, 0), item("x", 2, 2)], example_input(), example_output(), 16);
    let r = compile(&tss, &fs, &imgs, "atlas.png".to_string());
    assert_eq!(r, Err(Error::DuplicateItem { fmt: "floor".to_string(), id: "x".to_string() }));
}

#[test]
fn duplicate_across_groups_is_rejected() {
    let (mut tss, mut fs, mut imgs) = one_group(vec![item("x", 0, 0)], example_input(), example_output(), 16);
    tss.groups.push(TileSetSourceGroup { from: "other".to_string(), fmt: "floor".to_string(), items: vec![item("x", 2, 0)] });
    fs.push(fs[0].clone());
    imgs.push(sheet(64, 64));
    let r = compile(&tss, &fs, &imgs, "atlas.png".to_string());
    assert_eq!(r, Err(Error::DuplicateItem { fmt: "floor".to_string(), id: "x".to_string() }));
}

#[test]
fn same_id_under_other_format_is_accepted() {
    let (mut tss, mut fs, mut imgs) = one_group(vec![item("x", 0, 0)], example_input(), example_output(), 16);
    tss.groups.push(TileSetSourceGroup { from: "other".to_string(), fmt: "wall".to_string(), items: vec![item("x", 2, 0)] });
    fs.push(GroupFormats { source: source(16), input: input("wall", &[("a", &[[0, 0]])]), output: output(&[("a", 1)]) });
    imgs.push(sheet(64, 64));
    let (ts, atlas) = compile(&tss, &fs, &imgs, "atlas.png".to_string()).unwrap();
    // 4 tiles: side 3
    assert_eq!(atlas.width, 48);
    assert_eq!(lookup(&ts, "floor", "x").unwrap(), &vec![[0, 0], [16, 0], [32, 0]]);
    assert_eq!(lookup(&ts, "wall", "x").unwrap(), &vec![[0, 16]]);
}

#[test]
fn extra_input_parts_overflow_the_atlas() {
    let inp = input("floor", &[("a", &[[0, 0]]), ("z", &[[1, 0], [1, 1], [0, 1], [2, 2]])]);
    let (tss, fs, imgs) = one_group(vec![item("x", 0, 0)], inp, output(&[("a", 1)]), 16);
    let r = compile(&tss, &fs, &imgs, "atlas.png".to_string());
    assert_eq!(r, Err(Error::PackingOverflow));
}

#[test]
fn tile_outside_source_is_rejected() {
    let (tss, fs, imgs) = one_group(vec![item("x", 0, 0), item("y", 3, 3)], example_input(), example_output(), 16);
    let r = compile(&tss, &fs, &imgs, "atlas.png".to_string());
    assert_eq!(r, Err(Error::TileOutsideSource { group: 0, item: 1 }));
}

#[test]
fn missing_group_formats_are_rejected() {
    let (tss, _, imgs) = one_group(vec![item("x", 0, 0)], example_input(), example_output(), 16);
    let r = compile(&tss, &Vec::new(), &imgs, "atlas.png".to_string());
    assert_eq!(r, Err(Error::MissingSourceReference { group: 0 }));
}

#[test]
fn missing_image_is_rejected() {
    let (tss, fs, _) = one_group(vec![item("x", 0, 0)], example_input(), example_output(), 16);
    let r = compile(&tss, &fs, &Vec::new(), "atlas.png".to_string());
    assert_eq!(r, Err(Error::MissingSourceReference { group: 0 }));
}

#[test]
fn malformed_image_is_rejected() {
    let (tss, fs, mut imgs) = one_group(vec![item("x", 0, 0)], example_input(), example_output(), 16);
    imgs[0].pixels.pop();
    let r = compile(&tss, &fs, &imgs, "atlas.png".to_string());
    assert!(matches!(r, Err(Error::DecodeFailure { .. })));
}

#[test]
fn oversized_atlas_is_rejected() {
    let inp = input("floor", &[("a", &[[0, 0]])]);
    let (tss, fs, _) = one_group(vec![item("x", 0, 0)], inp, output(&[("a", 1)]), 16);
    let mut big = tss.clone();
    big.tile_size = [usize::MAX / 2, 1];
    let mut fs2 = fs.clone();
    fs2[0].source.tile_size = big.tile_size;
    assert_eq!(plan_atlas(&big, &fs2), Err(Error::AtlasTooLarge));
}

#[test]
fn empty_specification_gives_one_tile_atlas() {
    let tss = TileSetSource { tile_size: [16, 16], groups: Vec::new() };
    let (ts, atlas) = compile(&tss, &Vec::new(), &Vec::new(), "atlas.png".to_string()).unwrap();
    assert_eq!((atlas.width, atlas.height), (16, 16));
    assert!(ts.fmts.is_empty());
    assert!(atlas.pixels.iter().all(|b| *b == 0));
}

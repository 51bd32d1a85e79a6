use chickpea_tiles::{
    flatten_parts, insert_item, validate_group, Error, GroupFormats, InputTileFormat, Raster,
    TileSetCursor, TileSource,
};

fn tiles(parts: &[(&str, &[[usize; 2]])]) -> InputTileFormat {
    InputTileFormat {
        fmt: "f".to_string(),
        parts: parts.iter().map(|(n, t)| (n.to_string(), t.to_vec())).collect(),
    }
}

#[test]
fn flatten_keeps_part_then_list_order() {
    let inp = tiles(&[("a", &[[0, 0]]), ("b", &[[1, 0], [1, 1]])]);
    assert_eq!(flatten_parts(&inp), vec![[0, 0], [1, 0], [1, 1]]);
    assert_eq!(flatten_parts(&tiles(&[])), Vec::<[usize; 2]>::new());
}

#[test]
fn validate_group_accepts_and_rejects() {
    let f = GroupFormats {
        source: TileSource { image_path: "s.png".to_string(), tile_size: [8, 8] },
        input: tiles(&[("a", &[[0, 0]]), ("b", &[[1, 0], [1, 1]])]),
        output: vec![("a".to_string(), 1), ("b".to_string(), 2)],
    };
    assert_eq!(validate_group([8, 8], 3, &f), Ok(()));
    assert_eq!(validate_group([8, 4], 3, &f), Err(Error::FormatMismatch { group: 3 }));
    let mut g = f.clone();
    g.output[0].1 = 2;
    assert_eq!(validate_group([8, 8], 1, &g), Err(Error::PartCountMismatch { group: 1, part: "a".to_string() }));
}

#[test]
fn insert_item_detects_duplicates() {
    let mut fmts = Vec::new();
    assert!(insert_item(&mut fmts, &"f".to_string(), &"x".to_string(), vec![[0, 0]]));
    assert!(insert_item(&mut fmts, &"g".to_string(), &"x".to_string(), vec![[1, 0]]));
    assert!(insert_item(&mut fmts, &"f".to_string(), &"y".to_string(), vec![[2, 0]]));
    let before = fmts.clone();
    assert!(!insert_item(&mut fmts, &"f".to_string(), &"x".to_string(), vec![[9, 9]]));
    assert_eq!(fmts, before);
    assert_eq!(fmts.len(), 2);
    assert_eq!(fmts[0].1.len(), 2);
}

#[test]
fn cursor_wraps_rows_and_fills_up() {
    let src = Raster { width: 2, height: 2, pixels: (0..16).collect() };
    let mut c = TileSetCursor::new(2, [1, 1]);
    assert_eq!(c.add_tile(&src, [0, 0]), Ok([0, 0]));
    assert_eq!(c.add_tile(&src, [1, 0]), Ok([1, 0]));
    assert_eq!(c.add_tile(&src, [0, 1]), Ok([0, 1]));
    assert_eq!(c.add_tile(&src, [1, 1]), Ok([1, 1]));
    assert_eq!(c.add_tile(&src, [1, 1]), Err(Error::PackingOverflow));
    assert_eq!(c.img.pixels, (0..16).collect::<Vec<u8>>());
}

#[test]
fn copy_rect_refuses_what_does_not_fit() {
    let src = Raster { width: 2, height: 1, pixels: vec![1, 2, 3, 4, 5, 6, 7, 8] };
    let mut dst = Raster::new(2, 2);
    assert!(!dst.copy_rect(&src, 1, 0, 2, 1, 0, 0));
    assert!(!dst.copy_rect(&src, 0, 0, 2, 1, 1, 0));
    assert_eq!(dst.pixels, vec![0; 16]);
    assert!(dst.copy_rect(&src, 1, 0, 1, 1, 0, 1));
    assert_eq!(dst.pixels, vec![0, 0, 0, 0, 0, 0, 0, 0, 5, 6, 7, 8, 0, 0, 0, 0]);
}

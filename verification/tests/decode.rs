use vdrm_alg::{AngleMap, Codec, LookupTable, LutEntry, PixelSurface, ScreenLine, W_PIXELS};

fn entry(angle: u32, panel: usize, column: u32, row: u32) -> LutEntry {
    LutEntry { angle, panel, column, row }
}

fn line(screen_idx: usize, addr: u32, pixels: &[(usize, u32)]) -> ScreenLine {
    let mut l = ScreenLine { screen_idx, addr, pixels: [None; W_PIXELS] };
    for &(row, color) in pixels {
        l.pixels[row] = Some(color);
    }
    l
}

#[test]
fn decode_lists_the_lit_pixels_line_by_line() {
    let codec = Codec::new(0..0);
    let lines = vec![line(1, 30, &[(5, 9), (2, 9)]), line(1, 10, &[(191, 0)]), line(2, 7, &[])];
    assert_eq!(
        codec.decode(77, &lines),
        vec![entry(77, 1, 30, 2), entry(77, 1, 30, 5), entry(77, 1, 10, 191)]
    );
}

#[test]
fn decode_of_no_line_is_empty() {
    let codec = Codec::new(0..0);
    assert_eq!(codec.decode(3, &[]), vec![]);
    assert_eq!(codec.decode(3, &[line(0, 1, &[])]), vec![]);
}

#[test]
fn decode_all_goes_by_angle_then_panel() {
    let codec = Codec::new(0..0);
    let mut map = AngleMap::new();
    map.insert(900, [vec![line(0, 1, &[(1, 1)])], vec![], vec![line(2, 3, &[(3, 1)])]]);
    map.insert(4, [vec![], vec![line(1, 2, &[(2, 1)])], vec![]]);
    map.insert(u32::MAX, [vec![line(0, 9, &[(9, 1)])], vec![], vec![]]);
    assert_eq!(
        codec.decode_all(map),
        vec![entry(4, 1, 2, 2), entry(900, 0, 1, 1), entry(900, 2, 3, 3), entry(u32::MAX, 0, 9, 9)]
    );
}

#[test]
fn decode_all_of_an_empty_schedule_is_empty() {
    let codec = Codec::new(0..0);
    assert_eq!(codec.decode_all(AngleMap::new()), vec![]);
}

#[test]
fn decoding_an_encoded_voxel_gives_back_its_entries() {
    let mut table = LookupTable::new();
    let entries = [entry(5, 0, 6, 7), entry(5, 2, 8, 9), entry(400, 1, 10, 11)];
    for e in entries {
        table.record(1, 2, 3, e).unwrap();
    }
    let codec = Codec::from_table(table);
    let surface: PixelSurface = vec![(1, 2, (3, 0x00ff_ffff))];
    for optimize in [false, true] {
        let map = codec.encode(&surface, 0, optimize).unwrap();
        assert_eq!(codec.decode_all(map), entries.to_vec());
    }
}

#[test]
fn sorted_angles_are_the_keys_in_order() {
    let mut map = AngleMap::new();
    for angle in [7u32, 1204, 0, 33, u32::MAX] {
        map.insert(angle, [vec![], vec![], vec![]]);
    }
    assert_eq!(vdrm_alg::decode::sorted_angles(&map), vec![0, 7, 33, 1204, u32::MAX]);
    assert_eq!(vdrm_alg::decode::sorted_angles(&AngleMap::new()), Vec::<u32>::new());
}

use vdrm_alg::{
    AngleMap, BuildEvent, Codec, EncodeError, LookupTable, LutEntry, PixelSurface, ScreenLine,
    W_PIXELS,
};

const RED: u32 = 0x0000_00ff;
const GREEN: u32 = 0x0000_ff00;

fn entry(angle: u32, panel: usize, column: u32, row: u32) -> LutEntry {
    LutEntry { angle, panel, column, row }
}

fn line(screen_idx: usize, addr: u32, pixels: &[(usize, u32)]) -> ScreenLine {
    let mut l = ScreenLine { screen_idx, addr, pixels: [None; W_PIXELS] };
    for &(row, color) in pixels {
        l.pixels[row] = Some(color);
    }
    l
}

fn codec_of(entries: &[((u32, u32, u32), LutEntry)]) -> Codec {
    let mut table = LookupTable::new();
    for &((x, y, z), e) in entries {
        table.record(x, y, z, e).unwrap();
    }
    Codec::from_table(table)
}

/// All populated (angle, panel, column, row, colour) of a schedule.
fn populated(map: &AngleMap) -> Vec<(u32, usize, u32, usize, u32)> {
    let mut all = Vec::new();
    for (angle, frame) in map {
        for lines in frame {
            for l in lines {
                for (row, p) in l.pixels.iter().enumerate() {
                    if let Some(c) = p {
                        all.push((*angle, l.screen_idx, l.addr, row, *c));
                    }
                }
            }
        }
    }
    all
}

#[test]
fn empty_surface_gives_an_empty_schedule() {
    let codec = codec_of(&[((1, 2, 3), entry(5, 0, 6, 7))]);
    let surface: PixelSurface = Vec::new();
    assert_eq!(codec.encode(&surface, 0, true), Ok(AngleMap::new()));
    assert_eq!(codec.encode(&surface, 3, false), Ok(AngleMap::new()));
}

#[test]
fn single_voxel_gives_a_single_pixel() {
    let codec = codec_of(&[((1, 2, 3), entry(5, 1, 6, 7))]);
    let surface: PixelSurface = vec![(1, 2, (3, RED))];
    for optimize in [false, true] {
        let map = codec.encode(&surface, 0, optimize).unwrap();
        assert_eq!(populated(&map), vec![(5, 1, 6, 7, RED)]);
        let mut want = AngleMap::new();
        want.insert(5, [vec![], vec![line(1, 6, &[(7, RED)])], vec![]]);
        assert_eq!(map, want);
    }
}

#[test]
fn voxel_is_shown_on_every_panel_that_has_an_entry() {
    let codec = codec_of(&[
        ((1, 2, 3), entry(5, 0, 6, 7)),
        ((1, 2, 3), entry(5, 2, 8, 9)),
        ((1, 2, 3), entry(400, 1, 10, 11)),
    ]);
    let surface: PixelSurface = vec![(1, 2, (3, GREEN))];
    let map = codec.encode(&surface, 0, false).unwrap();
    let mut want = AngleMap::new();
    want.insert(5, [vec![line(0, 6, &[(7, GREEN)])], vec![], vec![line(2, 8, &[(9, GREEN)])]]);
    want.insert(400, [vec![], vec![line(1, 10, &[(11, GREEN)])], vec![]]);
    assert_eq!(map, want);
}

#[test]
fn voxel_without_entry_is_dropped() {
    let codec = codec_of(&[((1, 2, 3), entry(5, 0, 6, 7))]);
    let surface: PixelSurface = vec![(3, 2, (1, RED)), (1, 2, (4, RED))];
    assert_eq!(codec.encode(&surface, 0, true), Ok(AngleMap::new()));
}

#[test]
fn voxel_outside_the_volume_is_dropped() {
    let codec = codec_of(&[((1, 2, 3), entry(5, 0, 6, 7))]);
    let surface: PixelSurface = vec![(192, 0, (0, RED)), (0, 500, (0, RED)), (0, 0, (96, RED))];
    assert_eq!(codec.encode(&surface, 0, true), Ok(AngleMap::new()));
}

#[test]
fn later_entry_for_the_same_cell_overwrites() {
    let codec = codec_of(&[((1, 2, 3), entry(5, 0, 6, 7))]);
    let surface: PixelSurface = vec![(1, 2, (3, RED)), (1, 2, (3, GREEN))];
    let map = codec.encode(&surface, 0, false).unwrap();
    assert_eq!(populated(&map), vec![(5, 0, 6, 7, GREEN)]);
}

#[test]
fn two_voxels_on_one_pixel_are_a_collision() {
    let e = entry(5, 0, 6, 7);
    let codec = codec_of(&[((1, 2, 3), e), ((9, 9, 9), e)]);
    let surface: PixelSurface = vec![(1, 2, (3, RED)), (9, 9, (9, RED))];
    assert_eq!(
        codec.encode(&surface, 0, false),
        Err(EncodeError::Collision { first: (1, 2, 3), second: (9, 9, 9), entry: e })
    );
    let reversed: PixelSurface = vec![(9, 9, (9, RED)), (1, 2, (3, RED))];
    assert_eq!(
        codec.encode(&reversed, 0, true),
        Err(EncodeError::Collision { first: (9, 9, 9), second: (1, 2, 3), entry: e })
    );
}

#[test]
fn first_collision_in_order_of_writing_is_reported() {
    let a = entry(5, 2, 6, 7);
    let b = entry(8, 0, 1, 1);
    let codec = codec_of(&[((1, 1, 1), a), ((2, 2, 2), a), ((3, 3, 3), b), ((2, 2, 2), b)]);
    // voxel (2,2,2) clashes on panel 0 with (3,3,3) and on panel 2 with (1,1,1)
    let surface: PixelSurface =
        vec![(1, 1, (1, RED)), (3, 3, (3, RED)), (7, 7, (7, RED)), (2, 2, (2, RED))];
    assert_eq!(
        codec.encode(&surface, 0, false),
        Err(EncodeError::Collision { first: (3, 3, 3), second: (2, 2, 2), entry: b })
    );
}

#[test]
fn shared_pixel_is_no_collision_while_only_one_voxel_is_lit() {
    let e = entry(5, 0, 6, 7);
    let codec = codec_of(&[((1, 2, 3), e), ((9, 9, 9), e)]);
    let surface: PixelSurface = vec![(9, 9, (9, RED)), (9, 9, (9, GREEN))];
    let map = codec.encode(&surface, 0, false).unwrap();
    assert_eq!(populated(&map), vec![(5, 0, 6, 7, GREEN)]);
}

#[test]
fn lines_come_in_order_of_address_and_angles_in_order() {
    let codec = codec_of(&[
        ((0, 0, 0), entry(9, 0, 50, 1)),
        ((0, 0, 1), entry(9, 0, 10, 2)),
        ((0, 0, 2), entry(9, 0, 30, 3)),
        ((0, 0, 3), entry(2, 0, 30, 3)),
    ]);
    let surface: PixelSurface =
        vec![(0, 0, (0, 1)), (0, 0, (1, 2)), (0, 0, (2, 3)), (0, 0, (3, 4))];
    let map = codec.encode(&surface, 0, false).unwrap();
    assert_eq!(map.keys().copied().collect::<Vec<u32>>(), vec![2, 9]);
    assert_eq!(
        map[&9][0],
        vec![line(0, 10, &[(2, 2)]), line(0, 30, &[(3, 3)]), line(0, 50, &[(1, 1)])]
    );
}

#[test]
fn encoding_twice_gives_the_same_schedule() {
    let codec = codec_of(&[
        ((0, 0, 0), entry(9, 0, 50, 1)),
        ((0, 0, 1), entry(9, 1, 10, 2)),
        ((5, 5, 5), entry(700, 2, 30, 3)),
    ]);
    let surface: PixelSurface = vec![(0, 0, (0, 1)), (0, 0, (1, 2)), (5, 5, (5, 3))];
    let first = codec.encode(&surface, -1, true).unwrap();
    let second = codec.encode(&surface, -1, true).unwrap();
    assert_eq!(first, second);
    assert_eq!(first.len(), 2);
}

#[test]
fn offset_moves_every_row_and_clears_the_edge() {
    let codec = codec_of(&[
        ((0, 0, 0), entry(9, 0, 50, 0)),
        ((0, 0, 1), entry(9, 0, 50, 100)),
        ((0, 0, 2), entry(9, 0, 50, 191)),
        ((0, 0, 3), entry(9, 1, 20, 187)),
    ]);
    let surface: PixelSurface =
        vec![(0, 0, (0, 1)), (0, 0, (1, 2)), (0, 0, (2, 3)), (0, 0, (3, 4))];
    let plain = codec.encode(&surface, 0, false).unwrap();
    assert_eq!(
        populated(&plain),
        vec![(9, 0, 50, 0, 1), (9, 0, 50, 100, 2), (9, 0, 50, 191, 3), (9, 1, 20, 187, 4)]
    );
    let up = codec.encode(&surface, 5, false).unwrap();
    assert_eq!(populated(&up), vec![(9, 0, 50, 5, 1), (9, 0, 50, 105, 2)]);
    // the line that lost its pixel is still there
    assert_eq!(up[&9][1], vec![line(1, 20, &[])]);
    let down = codec.encode(&surface, -5, false).unwrap();
    assert_eq!(populated(&down), vec![(9, 0, 50, 95, 2), (9, 0, 50, 186, 3), (9, 1, 20, 182, 4)]);
    for k in [5i32, -5] {
        let moved = if k > 0 { &up } else { &down };
        for lines in &moved[&9] {
            for l in lines {
                for row in 0..W_PIXELS {
                    let wrapped = if k > 0 { row < 5 } else { row >= W_PIXELS - 5 };
                    if wrapped {
                        assert_eq!(l.pixels[row], None);
                    }
                }
            }
        }
    }
}

#[test]
fn angle_whose_pixels_all_leave_the_panel_is_dropped() {
    let codec = codec_of(&[((0, 0, 0), entry(9, 0, 50, 190)), ((0, 0, 1), entry(3, 0, 50, 10))]);
    let surface: PixelSurface = vec![(0, 0, (0, 1)), (0, 0, (1, 2))];
    let map = codec.encode(&surface, 2, false).unwrap();
    assert_eq!(populated(&map), vec![(3, 0, 50, 12, 2)]);
    assert_eq!(map.keys().copied().collect::<Vec<u32>>(), vec![3]);
    assert_eq!(codec.encode(&surface, 500, false), Ok(AngleMap::new()));
}

#[test]
fn optimization_aligns_the_triplet_with_its_reference() {
    let codec = codec_of(&[
        ((0, 0, 0), entry(9, 0, 35, 64)),
        ((0, 0, 1), entry(9, 0, 20, 0)),
        ((0, 0, 2), entry(9, 0, 30, 128)),
        ((0, 0, 3), entry(9, 0, 30, 1)),
    ]);
    let surface: PixelSurface =
        vec![(0, 0, (0, RED)), (0, 0, (1, RED)), (0, 0, (2, RED)), (0, 0, (3, GREEN))];
    let map = codec.encode(&surface, 0, true).unwrap();
    assert_eq!(
        populated(&map),
        vec![(9, 0, 19, 0, RED), (9, 0, 30, 1, GREEN), (9, 0, 35, 64, RED), (9, 0, 35, 128, RED)]
    );
    for (_, _, addr, row, _) in populated(&map) {
        if row % 64 == 0 {
            assert_eq!(addr % 16, 35 % 16);
        }
    }
}

#[test]
fn panels_are_optimized_apart() {
    let codec = codec_of(&[((0, 0, 0), entry(9, 0, 35, 64)), ((0, 0, 1), entry(9, 1, 20, 0))]);
    let surface: PixelSurface = vec![(0, 0, (0, RED)), (0, 0, (1, RED))];
    let map = codec.encode(&surface, 0, true).unwrap();
    assert_eq!(populated(&map), vec![(9, 0, 35, 64, RED), (9, 1, 20, 0, RED)]);
}

#[test]
fn unbuilt_codec_does_not_encode() {
    let mut codec = Codec::new(0..1);
    let surface: PixelSurface = vec![(1, 2, (3, RED))];
    assert_eq!(codec.encode(&surface, 0, false), Err(EncodeError::NotBuilt));
    assert_eq!(codec.encode(&Vec::new(), 0, true), Err(EncodeError::NotBuilt));
    codec.advance(BuildEvent::Culled(true)).unwrap();
    codec.advance(BuildEvent::Culled(true)).unwrap();
    assert_eq!(codec.encode(&surface, 0, false), Err(EncodeError::NotBuilt));
    codec.advance(BuildEvent::Culled(true)).unwrap();
    assert_eq!(codec.encode(&surface, 0, false), Ok(AngleMap::new()));
}

#[test]
fn every_voxel_with_an_entry_is_shown_without_realignment() {
    // two voxels in one row of one panel at one angle, in columns 3 and 4
    let codec = codec_of(&[((0, 0, 0), entry(9, 1, 3, 7)), ((0, 0, 1), entry(9, 1, 4, 7))]);
    let surface: PixelSurface = vec![(0, 0, (0, RED)), (0, 0, (1, GREEN))];
    let map = codec.encode(&surface, 0, false).unwrap();
    assert_eq!(populated(&map), vec![(9, 1, 3, 7, RED), (9, 1, 4, 7, GREEN)]);
    let reversed: PixelSurface = vec![(0, 0, (1, GREEN)), (0, 0, (0, RED))];
    assert_eq!(codec.encode(&reversed, 0, false).unwrap(), map);
    // the realignment keeps the lower column of a row
    let tuned = codec.encode(&surface, 0, true).unwrap();
    assert_eq!(populated(&tuned), vec![(9, 1, 3, 7, RED)]);
    assert_eq!(tuned[&9][1], vec![line(1, 3, &[(7, RED)]), line(1, 4, &[])]);
}

#[test]
fn realignment_takes_the_other_step_into_range() {
    let codec = codec_of(&[((0, 0, 0), entry(9, 0, 10, 64)), ((0, 0, 1), entry(9, 0, 150, 0))]);
    let surface: PixelSurface = vec![(0, 0, (0, RED)), (0, 0, (1, GREEN))];
    let map = codec.encode(&surface, 0, true).unwrap();
    assert_eq!(populated(&map), vec![(9, 0, 10, 64, RED), (9, 0, 138, 0, GREEN)]);
}

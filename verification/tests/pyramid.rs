use vdrm_alg::pyramid::{pyramid_surface, GREEN, MAGENTA, RED, WHITE};
use vdrm_alg::{gen_pyramid_surface, H_PIXELS, W_PIXELS};

#[test]
fn pyramid_has_one_voxel_for_each_column_in_reach() {
    let surface = gen_pyramid_surface();
    // the columns at most 95 steps from the centre
    assert_eq!(surface.len(), 2 * 95 * 96 + 1);
    assert_eq!(surface.len(), vdrm_alg::pyramid::PYRAMID_VOXELS);
    let mut columns: Vec<(u32, u32)> = surface.iter().map(|v| (v.0, v.1)).collect();
    let sorted = columns.clone();
    columns.sort();
    columns.dedup();
    assert_eq!(columns, sorted);
}

#[test]
fn pyramid_height_falls_with_the_distance_from_the_centre() {
    let surface = gen_pyramid_surface();
    for &(x, y, (z, _)) in &surface {
        let d = (x as i32 - 96).abs() + (y as i32 - 96).abs();
        assert!(d < H_PIXELS as i32);
        assert_eq!(z as i32, 95 - d);
        assert!((x as usize) < W_PIXELS && (y as usize) < W_PIXELS);
    }
    assert!(surface.contains(&(96, 96, (95, WHITE))));
    assert!(surface.contains(&(1, 96, (0, RED))));
    assert!(surface.contains(&(191, 96, (0, WHITE))));
    assert!(surface.contains(&(96, 1, (0, MAGENTA))));
    assert!(surface.contains(&(96, 191, (0, WHITE))));
    assert!(!surface.iter().any(|v| v.0 == 0));
}

#[test]
fn pyramid_is_coloured_by_quadrant() {
    let surface = gen_pyramid_surface();
    assert!(surface.contains(&(100, 100, (87, WHITE))));
    assert!(surface.contains(&(90, 100, (85, RED))));
    assert!(surface.contains(&(90, 90, (83, GREEN))));
    assert!(surface.contains(&(100, 90, (85, MAGENTA))));
    assert_eq!(WHITE, 0x00ff_ffff);
    assert_eq!(RED, 0x0000_00ff);
    assert_eq!(GREEN, 0x0000_ff00);
    assert_eq!(MAGENTA, 0x00ff_00ff);
}

#[test]
fn pyramid_starts_at_the_lowest_column() {
    let surface = gen_pyramid_surface();
    assert_eq!(surface[0], (1, 96, (0, RED)));
    assert_eq!(surface[1], (2, 95, (0, GREEN)));
    assert_eq!(surface[2], (2, 96, (1, RED)));
    assert_eq!(surface[surface.len() - 1], (191, 96, (0, WHITE)));
}

#[test]
fn pyramid_takes_any_palette() {
    let surface = pyramid_surface([0b111, 0b001, 0b010, 0b101]);
    assert_eq!(surface.len(), 18241);
    assert!(surface.contains(&(100, 100, (87, 0b111))));
    assert!(surface.contains(&(90, 100, (85, 0b001))));
    assert!(surface.contains(&(90, 90, (83, 0b010))));
    assert!(surface.contains(&(100, 90, (85, 0b101))));
}

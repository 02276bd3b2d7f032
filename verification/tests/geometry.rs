use vdrm_alg::geometry::{height_index, lateral_index, voxel_index};
use vdrm_alg::{H_PIXELS, TOTAL_ANGLES, W_PIXELS};

#[test]
fn dimensions_are_fixed() {
    assert_eq!(W_PIXELS, 192);
    assert_eq!(H_PIXELS, 96);
    assert_eq!(TOTAL_ANGLES, 1205);
}

#[test]
fn lateral_index_keeps_cells_of_the_volume() {
    assert_eq!(lateral_index(0), Some(0));
    assert_eq!(lateral_index(100), Some(100));
    assert_eq!(lateral_index(191), Some(191));
}

#[test]
fn lateral_index_folds_the_index_past_the_end() {
    assert_eq!(lateral_index(192), Some(191));
}

#[test]
fn lateral_index_rejects_what_lies_beyond() {
    assert_eq!(lateral_index(193), None);
    assert_eq!(lateral_index(u32::MAX), None);
}

#[test]
fn height_index_folds_and_rejects() {
    assert_eq!(height_index(0), Some(0));
    assert_eq!(height_index(95), Some(95));
    assert_eq!(height_index(96), Some(95));
    assert_eq!(height_index(97), None);
}

#[test]
fn voxel_index_needs_all_three_axes() {
    assert_eq!(voxel_index(1, 2, 3), Some((1, 2, 3)));
    assert_eq!(voxel_index(192, 192, 96), Some((191, 191, 95)));
    assert_eq!(voxel_index(193, 2, 3), None);
    assert_eq!(voxel_index(1, 193, 3), None);
    assert_eq!(voxel_index(1, 2, 97), None);
}

//! Dimensions of the voxel volume and of the panels, and the folding of raw
//! cell indices into voxel coordinates.

use vstd::prelude::*;

verus! {

/// Number of voxels along each lateral axis, and of pixels along each panel axis.
pub const W_PIXELS: usize = 192;

/// Number of voxels along the height axis.
pub const H_PIXELS: usize = 96;

/// Number of discrete rotation angles in one revolution.
pub const TOTAL_ANGLES: usize = W_PIXELS * 2 * 314 / 100;

/// Number of panels.
pub const NUM_SCREENS: usize = 3;

/// Number of pixels of a panel.
pub const PANEL_PIXELS: usize = W_PIXELS * W_PIXELS;

/// The index along an axis of `cells` cells that a raw index stands for: the
/// index one past the last cell counts as the last cell, anything beyond lies
/// outside.
pub open spec fn folded_cell(raw: u32, cells: int) -> Option<u32> {
    if raw > cells {
        None
    } else if raw == cells {
        Some((cells - 1) as u32)
    } else {
        Some(raw)
    }
}

/// The lateral voxel index that a raw index stands for.
pub open spec fn lateral_cell(raw: u32) -> Option<u32> {
    folded_cell(raw, W_PIXELS as int)
}

/// The height voxel index that a raw index stands for.
pub open spec fn height_cell(raw: u32) -> Option<u32> {
    folded_cell(raw, H_PIXELS as int)
}

/// The voxel that three raw indices stand for, if all three lie in the volume.
pub open spec fn voxel_cell(raw_x: u32, raw_y: u32, raw_z: u32) -> Option<(u32, u32, u32)> {
    match (lateral_cell(raw_x), lateral_cell(raw_y), height_cell(raw_z)) {
        (Some(x), Some(y), Some(z)) => Some((x, y, z)),
        _ => None,
    }
}

/// Whether `(x, y, z)` names a cell of the volume.
pub open spec fn in_volume(x: int, y: int, z: int) -> bool {
    0 <= x < W_PIXELS && 0 <= y < W_PIXELS && 0 <= z < H_PIXELS
}

/// Folds a raw lateral index into the volume.
pub fn lateral_index(raw: u32) -> (cell: Option<u32>)
    ensures
        cell == lateral_cell(raw),
        cell matches Some(c) ==> c < W_PIXELS,
{
    let cells = W_PIXELS as u32;
    if raw > cells {
        None
    } else if raw == cells {
        Some(cells - 1)
    } else {
        Some(raw)
    }
}

/// Folds a raw height index into the volume.
pub fn height_index(raw: u32) -> (cell: Option<u32>)
    ensures
        cell == height_cell(raw),
        cell matches Some(c) ==> c < H_PIXELS,
{
    let cells = H_PIXELS as u32;
    if raw > cells {
        None
    } else if raw == cells {
        Some(cells - 1)
    } else {
        Some(raw)
    }
}

/// Folds three raw indices into a voxel coordinate; `None` as soon as one of
/// them lies outside the volume.
pub fn voxel_index(raw_x: u32, raw_y: u32, raw_z: u32) -> (cell: Option<(u32, u32, u32)>)
    ensures
        cell == voxel_cell(raw_x, raw_y, raw_z),
        cell matches Some(c) ==> in_volume(c.0 as int, c.1 as int, c.2 as int),
{
    let x = match lateral_index(raw_x) {
        Some(x) => x,
        None => {
            return None;
        },
    };
    let y = match lateral_index(raw_y) {
        Some(y) => y,
        None => {
            return None;
        },
    };
    let z = match height_index(raw_z) {
        Some(z) => z,
        None => {
            return None;
        },
    };
    Some((x, y, z))
}

} // verus!

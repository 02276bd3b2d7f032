//! A test volume: a pyramid whose height falls off with the distance from
//! the centre, coloured by quadrant.

use vstd::prelude::*;
use crate::encode::{PixelSurface, Voxel};
use crate::geometry::{in_volume, H_PIXELS, W_PIXELS};
use crate::line::PixelColor;

verus! {

/// Full red, green and blue.
pub const WHITE: PixelColor = 0x00ff_ffff;

/// Full red.
pub const RED: PixelColor = 0x0000_00ff;

/// Full green.
pub const GREEN: PixelColor = 0x0000_ff00;

/// Full red and blue.
pub const MAGENTA: PixelColor = 0x00ff_00ff;

/// The distance of column `(x, y)` from the centre of the volume, counted
/// in steps along the two lateral axes.
pub open spec fn center_distance(x: int, y: int) -> int {
    let half = (W_PIXELS / 2) as int;
    (if x >= half {
        x - half
    } else {
        half - x
    }) + (if y >= half {
        y - half
    } else {
        half - y
    })
}

/// Whether the pyramid has a voxel in column `(x, y)`.
pub open spec fn in_pyramid(x: int, y: int) -> bool {
    0 <= x < W_PIXELS && 0 <= y < W_PIXELS && center_distance(x, y) < H_PIXELS
}

/// Which of the four colours column `(x, y)` has: 0 where both coordinates
/// lie in the upper half, 1 where only `y` does, 2 where neither does, 3
/// where only `x` does.
pub open spec fn quadrant(x: int, y: int) -> int {
    let half = (W_PIXELS / 2) as int;
    if x >= half && y >= half {
        0
    } else if x < half && y >= half {
        1
    } else if x < half && y < half {
        2
    } else {
        3
    }
}

/// The voxel of the pyramid in column `(x, y)`.
pub open spec fn pyramid_voxel(palette: Seq<PixelColor>, x: int, y: int) -> Voxel {
    (x as u32, y as u32, ((H_PIXELS - 1 - center_distance(x, y)) as u32, palette[quadrant(x, y)]))
}

/// The voxels of the pyramid in the first `cells` columns, the columns
/// counted along `y` first.
pub open spec fn pyramid_cells(palette: Seq<PixelColor>, cells: int) -> Seq<Voxel>
    decreases cells,
{
    if cells <= 0 {
        Seq::empty()
    } else {
        let rest = pyramid_cells(palette, cells - 1);
        let x = (cells - 1) / (W_PIXELS as int);
        let y = (cells - 1) % (W_PIXELS as int);
        if in_pyramid(x, y) {
            rest.push(pyramid_voxel(palette, x, y))
        } else {
            rest
        }
    }
}

/// The pyramid holds exactly one voxel for each of its columns, in the
/// volume, and the columns come in order.
pub proof fn lemma_pyramid_cells(palette: Seq<PixelColor>, cells: int)
    requires
        0 <= cells <= W_PIXELS * W_PIXELS,
    ensures
        forall|i: int|
            0 <= i < pyramid_cells(palette, cells).len() ==> {
                let v = #[trigger] pyramid_cells(palette, cells)[i];
                &&& in_pyramid(v.0 as int, v.1 as int)
                &&& v.0 * W_PIXELS + v.1 < cells
                &&& v == pyramid_voxel(palette, v.0 as int, v.1 as int)
                &&& in_volume(v.0 as int, v.1 as int, v.2.0 as int)
            },
        forall|i: int, j: int|
            0 <= i < j < pyramid_cells(palette, cells).len() ==> {
                let a = #[trigger] pyramid_cells(palette, cells)[i];
                let b = #[trigger] pyramid_cells(palette, cells)[j];
                a.0 * W_PIXELS + a.1 < b.0 * W_PIXELS + b.1
            },
        forall|x: int, y: int|
            in_pyramid(x, y) && x * W_PIXELS + y < cells ==> pyramid_cells(palette, cells).contains(
                #[trigger] pyramid_voxel(palette, x, y),
            ),
    decreases cells,
{
    if cells > 0 {
        lemma_pyramid_cells(palette, cells - 1);
        let rest = pyramid_cells(palette, cells - 1);
        let all = pyramid_cells(palette, cells);
        let cx = (cells - 1) / (W_PIXELS as int);
        let cy = (cells - 1) % (W_PIXELS as int);
        assert forall|x: int, y: int|
            in_pyramid(x, y) && x * W_PIXELS + y < cells implies all.contains(
            #[trigger] pyramid_voxel(palette, x, y),
        ) by {
            if x * W_PIXELS + y < cells - 1 {
                let k = choose|k: int|
                    0 <= k < rest.len() && rest[k] == pyramid_voxel(palette, x, y);
                assert(all[k] == pyramid_voxel(palette, x, y));
            } else {
                assert(x == cx && y == cy);
                assert(all[all.len() - 1] == pyramid_voxel(palette, x, y));
            }
        }
    }
}

/// Number of voxels of the pyramid.
pub const PYRAMID_VOXELS: usize = 18241;

/// Number of voxels of the pyramid in the columns at `x`.
pub open spec fn row_voxels(x: int) -> int {
    let reach = H_PIXELS - 1 - (if x >= W_PIXELS / 2 {
        x - W_PIXELS / 2
    } else {
        W_PIXELS / 2 - x
    });
    if reach >= 0 {
        2 * reach + 1
    } else {
        0
    }
}

/// Number of voxels of the pyramid in the columns at `x` below `y`.
pub open spec fn voxels_below(x: int, y: int) -> int {
    let first = W_PIXELS / 2 - (row_voxels(x) - 1) / 2;
    if row_voxels(x) == 0 || y <= first {
        0
    } else if y - first >= row_voxels(x) {
        row_voxels(x)
    } else {
        y - first
    }
}

/// Number of voxels of the pyramid in the columns before `x`.
pub open spec fn voxels_before(x: int) -> int {
    if x <= 0 {
        0
    } else if x <= 97 {
        (x - 1) * (x - 1)
    } else {
        9216 + (x - 97) * (287 - x)
    }
}

/// The columns at `x` add their voxels to those before.
proof fn lemma_voxels_before(x: int)
    requires
        0 <= x < W_PIXELS,
    ensures
        voxels_before(x + 1) == voxels_before(x) + row_voxels(x),
{
    let next = x + 1;
    if x <= 96 {
        assert((next - 1) * (next - 1) == (x - 1) * (x - 1) + 2 * x - 1) by (nonlinear_arith)
            requires
                next == x + 1,
        ;
        assert(x == 0 ==> (next - 1) * (next - 1) == 0) by (nonlinear_arith)
            requires
                next == x + 1,
        ;
    } else {
        assert((next - 97) * (287 - next) == (x - 97) * (287 - x) + 383 - 2 * x)
            by (nonlinear_arith)
            requires
                next == x + 1,
        ;
        assert(x == 97 ==> (x - 1) * (x - 1) == 9216 && (x - 97) * (287 - x) == 0)
            by (nonlinear_arith);
    }
}

/// How many voxels the pyramid has up to column `(x, y)`.
proof fn lemma_pyramid_count(palette: Seq<PixelColor>, x: int, y: int)
    requires
        0 <= x < W_PIXELS,
        0 <= y <= W_PIXELS,
    ensures
        pyramid_cells(palette, x * W_PIXELS + y).len() == voxels_before(x) + voxels_below(x, y),
    decreases x, y,
{
    if y == 0 {
        if x > 0 {
            lemma_pyramid_count(palette, x - 1, W_PIXELS as int);
            lemma_voxels_before(x - 1);
        }
    } else {
        lemma_pyramid_count(palette, x, y - 1);
        let cells = x * W_PIXELS + y;
        assert((cells - 1) / (W_PIXELS as int) == x);
        assert((cells - 1) % (W_PIXELS as int) == y - 1);
    }
}

/// The pyramid has 18241 voxels.
pub proof fn lemma_pyramid_len(palette: Seq<PixelColor>)
    ensures
        pyramid_cells(palette, (W_PIXELS * W_PIXELS) as int).len() == PYRAMID_VOXELS,
{
    lemma_pyramid_count(palette, W_PIXELS - 1, W_PIXELS as int);
    lemma_voxels_before(W_PIXELS - 1);
    assert(voxels_before(192) == 9216 + 95 * 95);
}

/// The pyramid with the four colours of `palette`: for each column of the
/// volume that lies less than the height of the volume from the centre, one
/// voxel, the higher the nearer to the centre.  The columns come in order
/// of `x`, then of `y`.
pub fn pyramid_surface(palette: [PixelColor; 4]) -> (surface: PixelSurface)
    ensures
        surface@ == pyramid_cells(palette@, (W_PIXELS * W_PIXELS) as int),
        surface@.len() == PYRAMID_VOXELS,
{
    proof {
        lemma_pyramid_len(palette@);
    }
    let mut surface: PixelSurface = Vec::with_capacity(PYRAMID_VOXELS);
    let half: u32 = 96;
    for x in 0..192u32
        invariant
            half == 96,
            surface@ == pyramid_cells(palette@, x * W_PIXELS),
    {
        for y in 0..192u32
            invariant
                half == 96,
                x < 192,
                surface@ == pyramid_cells(palette@, x * W_PIXELS + y),
        {
            let dx: u32 = if x >= half {
                x - half
            } else {
                half - x
            };
            let dy: u32 = if y >= half {
                y - half
            } else {
                half - y
            };
            let h: u32 = dx + dy;
            assert((x * W_PIXELS + y) / (W_PIXELS as int) == x);
            assert((x * W_PIXELS + y) % (W_PIXELS as int) == y);
            if h < 96 {
                let z: u32 = 95 - h;
                let color = if x >= half && y >= half {
                    palette[0]
                } else if x < half && y >= half {
                    palette[1]
                } else if x < half && y < half {
                    palette[2]
                } else {
                    palette[3]
                };
                surface.push((x, y, (z, color)));
            }
        }
    }
    surface
}

/// The pyramid in white, red, green and magenta.
pub fn gen_pyramid_surface() -> (surface: PixelSurface)
    ensures
        surface@ == pyramid_cells(
            seq![WHITE, RED, GREEN, MAGENTA],
            (W_PIXELS * W_PIXELS) as int,
        ),
        surface@.len() == PYRAMID_VOXELS,
{
    let palette: [PixelColor; 4] = [WHITE, RED, GREEN, MAGENTA];
    assert(palette@ =~= seq![WHITE, RED, GREEN, MAGENTA]);
    pyramid_surface(palette)
}

} // verus!

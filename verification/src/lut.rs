//! The lookup table from voxel to panel pixel.

use vstd::prelude::*;
use crate::geometry::{in_volume, H_PIXELS, NUM_SCREENS, PANEL_PIXELS, TOTAL_ANGLES, W_PIXELS};

verus! {

/// The panel pixel that lights a voxel, and the angle at which it does.
#[derive(Debug, Copy, Clone, PartialEq, Eq)]
pub struct LutEntry {
    pub angle: u32,
    pub panel: usize,
    pub column: u32,
    pub row: u32,
}

/// Why the table could not be built.
#[derive(Debug, Copy, Clone, PartialEq, Eq)]
pub enum BuildError {
    /// The entry that was to be recorded for `voxel` names an angle outside
    /// the revolution, or a pixel that no panel has.
    AddressOutOfRange { voxel: (u32, u32, u32), entry: LutEntry },
    /// The voxel that `entry` was to be recorded for lies outside the volume.
    VoxelOutOfRange { voxel: (u32, u32, u32), entry: LutEntry },
    /// The event does not answer the pending action.
    UnexpectedEvent,
    /// A table that is still being built cannot be merged.
    Unfinished,
    /// The second range does not begin where the first one ends.
    NotAdjacent { end: u32, start: u32 },
}

/// Number of cells of the table: one for each voxel and panel.
pub const TABLE_CELLS: usize = NUM_SCREENS * W_PIXELS * W_PIXELS * H_PIXELS;

/// Whether the entry names an angle of the revolution and a pixel of a panel.
pub open spec fn entry_in_range(entry: LutEntry) -> bool {
    &&& entry.angle < TOTAL_ANGLES
    &&& entry.panel < NUM_SCREENS
    &&& entry.column < W_PIXELS
    &&& entry.row < W_PIXELS
}

/// Whether `(panel, x, y, z)` names a cell of the table.
pub open spec fn in_table(panel: int, x: int, y: int, z: int) -> bool {
    0 <= panel < NUM_SCREENS && in_volume(x, y, z)
}

/// The place of a cell in the table.
pub open spec fn cell_index(panel: int, x: int, y: int, z: int) -> int {
    ((panel * W_PIXELS + x) * W_PIXELS + y) * H_PIXELS + z
}

/// Every cell has a place of its own in the table.
pub proof fn lemma_cell_index(panel: int, x: int, y: int, z: int)
    requires
        in_table(panel, x, y, z),
    ensures
        0 <= cell_index(panel, x, y, z) < TABLE_CELLS,
        forall|p: int, u: int, v: int, w: int|
            in_table(p, u, v, w) && #[trigger] cell_index(p, u, v, w) == cell_index(panel, x, y, z)
                ==> p == panel && u == x && v == y && w == z,
{
}

/// The code of a cell without entry.
const UNSET: u32 = 0xffff_ffff;

/// The entry that a code stands for in a cell of `panel`: angle, column and
/// row are its digits, the row lowest.
spec fn cell_entry(code: u32, panel: int) -> Option<LutEntry> {
    if code == UNSET {
        None
    } else {
        Some(
            LutEntry {
                angle: (code as int / (PANEL_PIXELS as int)) as u32,
                panel: panel as usize,
                column: (code as int / (W_PIXELS as int) % (W_PIXELS as int)) as u32,
                row: (code as int % (W_PIXELS as int)) as u32,
            },
        )
    }
}

/// For each voxel and each panel, the panel pixel that lights the voxel, if
/// any does.
pub struct LookupTable {
    codes: Vec<u32>,
}

impl LookupTable {
    /// The cells of the table, by place.
    pub closed spec fn cells(&self) -> Seq<Option<LutEntry>> {
        Seq::new(
            self.codes@.len(),
            |i: int| cell_entry(self.codes@[i], i / ((W_PIXELS * W_PIXELS * H_PIXELS) as int)),
        )
    }

    /// The entry of voxel `(x, y, z)` for `panel`; none outside the volume.
    pub open spec fn entry(&self, panel: int, x: int, y: int, z: int) -> Option<LutEntry> {
        if in_table(panel, x, y, z) {
            self.cells()[cell_index(panel, x, y, z)]
        } else {
            None
        }
    }

    /// The table has all its cells, and every entry names its own panel, an
    /// angle of the revolution and a pixel of the panel.
    pub open spec fn wf(&self) -> bool {
        &&& self.cells().len() == TABLE_CELLS
        &&& forall|panel: int, x: int, y: int, z: int|
            (#[trigger] self.entry(panel, x, y, z)) matches Some(e) ==> entry_in_range(e)
                && e.panel == panel
    }

    /// A table without entries.
    pub fn new() -> (table: LookupTable)
        ensures
            table.wf(),
            forall|panel: int, x: int, y: int, z: int|
                (#[trigger] table.entry(panel, x, y, z)) is None,
    {
        let codes: Vec<u32> = vec![UNSET; TABLE_CELLS];
        let table = LookupTable { codes };
        proof {
            assert forall|panel: int, x: int, y: int, z: int|
                (#[trigger] table.entry(panel, x, y, z)) is None by {
                if in_table(panel, x, y, z) {
                    lemma_cell_index(panel, x, y, z);
                }
            }
        }
        table
    }

    /// The entry of voxel `(x, y, z)` for `panel`.
    pub fn get(&self, panel: usize, x: u32, y: u32, z: u32) -> (entry: Option<LutEntry>)
        requires
            self.wf(),
        ensures
            entry == self.entry(panel as int, x as int, y as int, z as int),
    {
        if panel >= NUM_SCREENS || x as usize >= W_PIXELS || y as usize >= W_PIXELS || z as usize
            >= H_PIXELS {
            return None;
        }
        proof {
            lemma_cell_index(panel as int, x as int, y as int, z as int);
        }
        let i = ((panel * W_PIXELS + x as usize) * W_PIXELS + y as usize) * H_PIXELS + z as usize;
        let code = self.codes[i];
        if code == UNSET {
            None
        } else {
            Some(
                LutEntry {
                    angle: code / PANEL_PIXELS as u32,
                    panel,
                    column: code / W_PIXELS as u32 % W_PIXELS as u32,
                    row: code % W_PIXELS as u32,
                },
            )
        }
    }

    /// Makes `entry` the entry of voxel `(x, y, z)` for the entry's panel,
    /// in place of what was there.
    pub fn record(&mut self, x: u32, y: u32, z: u32, entry: LutEntry) -> (done: Result<
        (),
        BuildError,
    >)
        requires
            old(self).wf(),
        ensures
            final(self).wf(),
            forall|panel: int, u: int, v: int, w: int|
                old(self).entry(panel, u, v, w) is Some ==> (#[trigger] final(self).entry(
                    panel,
                    u,
                    v,
                    w,
                )) is Some,
            match done {
                Ok(()) => {
                    &&& entry_in_range(entry)
                    &&& in_volume(x as int, y as int, z as int)
                    &&& forall|panel: int, u: int, v: int, w: int|
                        #[trigger] final(self).entry(panel, u, v, w) == if panel == entry.panel && u
                            == x && v == y && w == z {
                            Some(entry)
                        } else {
                            old(self).entry(panel, u, v, w)
                        }
                },
                Err(BuildError::AddressOutOfRange { voxel, entry: e }) => {
                    &&& !entry_in_range(entry)
                    &&& voxel == (x, y, z)
                    &&& e == entry
                    &&& final(self).cells() == old(self).cells()
                },
                Err(BuildError::VoxelOutOfRange { voxel, entry: e }) => {
                    &&& entry_in_range(entry)
                    &&& !in_volume(x as int, y as int, z as int)
                    &&& voxel == (x, y, z)
                    &&& e == entry
                    &&& final(self).cells() == old(self).cells()
                },
                Err(_) => false,
            },
    {
        if entry.angle as usize >= TOTAL_ANGLES || entry.panel >= NUM_SCREENS
            || entry.column as usize >= W_PIXELS || entry.row as usize >= W_PIXELS {
            return Err(BuildError::AddressOutOfRange { voxel: (x, y, z), entry });
        }
        if x as usize >= W_PIXELS || y as usize >= W_PIXELS || z as usize >= H_PIXELS {
            return Err(BuildError::VoxelOutOfRange { voxel: (x, y, z), entry });
        }
        proof {
            lemma_cell_index(entry.panel as int, x as int, y as int, z as int);
        }
        let i = ((entry.panel * W_PIXELS + x as usize) * W_PIXELS + y as usize) * H_PIXELS
            + z as usize;
        let width = W_PIXELS as u32;
        let code: u32 = (entry.angle * width + entry.column) * width + entry.row;
        proof {
            let high = entry.angle * W_PIXELS + entry.column;
            vstd::arithmetic::div_mod::lemma_fundamental_div_mod_converse(
                code as int,
                W_PIXELS as int,
                high,
                entry.row as int,
            );
            vstd::arithmetic::div_mod::lemma_fundamental_div_mod_converse(
                high,
                W_PIXELS as int,
                entry.angle as int,
                entry.column as int,
            );
            assert(code as int / (PANEL_PIXELS as int) == entry.angle);
            assert(cell_entry(code, entry.panel as int) == Some(entry));
        }
        self.codes[i] = code;
        proof {
            assert forall|panel: int, u: int, v: int, w: int|
                #[trigger] self.entry(panel, u, v, w) == if panel == entry.panel && u == x && v == y
                    && w == z {
                    Some(entry)
                } else {
                    old(self).entry(panel, u, v, w)
                } by {
                if in_table(panel, u, v, w) {
                    lemma_cell_index(panel, u, v, w);
                }
            }
        }
        Ok(())
    }

    /// Lays the entries of `later` over this table: where `later` has an
    /// entry it wins, elsewhere the entry stays.
    pub fn overlay(&mut self, later: &LookupTable)
        requires
            old(self).wf(),
            later.wf(),
        ensures
            final(self).wf(),
            forall|panel: int, x: int, y: int, z: int|
                #[trigger] final(self).entry(panel, x, y, z) == match later.entry(panel, x, y, z) {
                    Some(e) => Some(e),
                    None => old(self).entry(panel, x, y, z),
                },
    {
        let mut i: usize = 0;
        while i < TABLE_CELLS
            invariant
                i <= TABLE_CELLS,
                self.codes@.len() == TABLE_CELLS,
                later.codes@.len() == TABLE_CELLS,
                forall|k: int|
                    0 <= k < i ==> #[trigger] self.codes@[k] == if later.codes@[k] != UNSET {
                        later.codes@[k]
                    } else {
                        old(self).codes@[k]
                    },
                forall|k: int|
                    i <= k < TABLE_CELLS ==> #[trigger] self.codes@[k] == old(self).codes@[k],
            decreases TABLE_CELLS - i,
        {
            let code = later.codes[i];
            if code != UNSET {
                self.codes[i] = code;
            }
            i = i + 1;
        }
        proof {
            assert forall|panel: int, x: int, y: int, z: int|
                #[trigger] self.entry(panel, x, y, z) == match later.entry(panel, x, y, z) {
                    Some(e) => Some(e),
                    None => old(self).entry(panel, x, y, z),
                } by {
                if in_table(panel, x, y, z) {
                    lemma_cell_index(panel, x, y, z);
                }
            }
        }
    }
}

} // verus!

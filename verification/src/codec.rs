//! The codec and the protocol by which its lookup table is built.
//!
//! Which voxel a panel pixel lights at an angle is a matter of real-valued
//! optics, which the caller computes.  The codec names the questions, in a
//! fixed order, and records the answers: for every angle of its range and
//! every panel it first asks whether the panel can be lit at all, and if so,
//! for every pixel of the panel, row by row, which voxel the pixel lights.
//! Where two pixels light the same voxel on the same panel, the later one
//! wins.

use vstd::prelude::*;
use crate::geometry::{voxel_cell, voxel_index, NUM_SCREENS, TOTAL_ANGLES, W_PIXELS};
use crate::lut::{LookupTable, LutEntry, BuildError};

verus! {

/// What the caller has to find out next.
#[derive(Debug, Copy, Clone, PartialEq, Eq)]
pub enum BuildAction {
    /// Whether `panel` is too far from the image to be lit at `angle`.
    Cull { angle: u32, panel: usize },
    /// Which voxel the pixel lights at `angle`.
    Project { angle: u32, panel: usize, column: u32, row: u32 },
    /// Nothing: the table is built.
    Done,
}

/// What the caller has found out.
#[derive(Debug, Copy, Clone, PartialEq, Eq)]
pub enum BuildEvent {
    /// The answer to `Cull`: `true` where the panel cannot be lit.
    Culled(bool),
    /// The answer to `Project`: the raw cell indices of the lit point, or
    /// nothing where the point has no cell.
    Projected(Option<(u32, u32, u32)>),
}

/// The angle index `a`, or the number of angles where `a` lies beyond them.
pub open spec fn clamp_angle(a: usize) -> u32 {
    if a > TOTAL_ANGLES {
        TOTAL_ANGLES as u32
    } else {
        a as u32
    }
}

/// The first question for the angles from `first` up to `last`.
pub open spec fn first_action(first: u32, last: u32) -> BuildAction {
    if first < last {
        BuildAction::Cull { angle: first, panel: 0 }
    } else {
        BuildAction::Done
    }
}

/// The question that follows the last one about `panel` at `angle`.
pub open spec fn next_panel(angle: u32, panel: usize, last: u32) -> BuildAction {
    if panel + 1 < NUM_SCREENS {
        BuildAction::Cull { angle, panel: (panel + 1) as usize }
    } else if angle + 1 < last {
        BuildAction::Cull { angle: (angle + 1) as u32, panel: 0 }
    } else {
        BuildAction::Done
    }
}

/// The question that follows `action` once it is answered; for `Cull`,
/// `skip` is the answer.
pub open spec fn next_action(action: BuildAction, skip: bool, last: u32) -> BuildAction {
    match action {
        BuildAction::Cull { angle, panel } => if skip {
            next_panel(angle, panel, last)
        } else {
            BuildAction::Project { angle, panel, column: 0, row: 0 }
        },
        BuildAction::Project { angle, panel, column, row } => if column + 1 < W_PIXELS {
            BuildAction::Project { angle, panel, column: (column + 1) as u32, row }
        } else if row + 1 < W_PIXELS {
            BuildAction::Project { angle, panel, column: 0, row: (row + 1) as u32 }
        } else {
            next_panel(angle, panel, last)
        },
        BuildAction::Done => BuildAction::Done,
    }
}

/// Whether the question is about an angle of the range and a pixel of a panel.
pub open spec fn action_ok(action: BuildAction, first: u32, last: u32) -> bool {
    match action {
        BuildAction::Cull { angle, panel } => first <= angle < last && panel < NUM_SCREENS,
        BuildAction::Project { angle, panel, column, row } => {
            &&& first <= angle < last
            &&& panel < NUM_SCREENS
            &&& column < W_PIXELS
            &&& row < W_PIXELS
        },
        BuildAction::Done => true,
    }
}

/// Whether the pixel of `e` has been asked about before `action` is.
pub open spec fn asked_before(e: LutEntry, action: BuildAction, last: u32) -> bool {
    match action {
        BuildAction::Cull { angle, panel } => e.angle < angle || (e.angle == angle && e.panel
            < panel),
        BuildAction::Project { angle, panel, column, row } => {
            ||| e.angle < angle
            ||| e.angle == angle && e.panel < panel
            ||| e.angle == angle && e.panel == panel && e.row < row
            ||| e.angle == angle && e.panel == panel && e.row == row && e.column < column
        },
        BuildAction::Done => e.angle < last,
    }
}

/// The answer to `Project` as a voxel, if the lit point has a cell in the
/// volume.
pub open spec fn projected_cell(raw: Option<(u32, u32, u32)>) -> Option<(u32, u32, u32)> {
    match raw {
        Some((x, y, z)) => voxel_cell(x, y, z),
        None => None,
    }
}

/// The lookup table together with the state of its construction.
pub struct Codec {
    table: LookupTable,
    first: u32,
    last: u32,
    pending: BuildAction,
}

/// Whether the event answers the question.
pub open spec fn fits(action: BuildAction, event: BuildEvent) -> bool {
    match (action, event) {
        (BuildAction::Cull { .. }, BuildEvent::Culled(_)) => true,
        (BuildAction::Project { .. }, BuildEvent::Projected(_)) => true,
        _ => false,
    }
}

/// Whether `after` is the codec `before` once it has taken `event`.
pub open spec fn answered(before: Codec, event: BuildEvent, after: Codec) -> bool {
    &&& after.first_angle() == before.first_angle()
    &&& after.last_angle() == before.last_angle()
    &&& match (before.pending_action(), event) {
        (BuildAction::Cull { angle, panel }, BuildEvent::Culled(skip)) => {
            &&& after.pending_action() == next_action(
                before.pending_action(),
                skip,
                before.last_angle(),
            )
            &&& after.table() == before.table()
        },
        (BuildAction::Project { angle, panel, column, row }, BuildEvent::Projected(raw)) => {
            &&& after.pending_action() == next_action(
                before.pending_action(),
                false,
                before.last_angle(),
            )
            &&& match projected_cell(raw) {
                Some((x, y, z)) => forall|p: int, u: int, v: int, w: int|
                    #[trigger] after.table().entry(p, u, v, w) == if p == panel && u == x && v == y
                        && w == z {
                        Some(LutEntry { angle, panel, column, row })
                    } else {
                        before.table().entry(p, u, v, w)
                    },
                None => after.table() == before.table(),
            }
        },
        _ => {
            &&& after.pending_action() == before.pending_action()
            &&& after.table() == before.table()
        },
    }
}

/// Whether `whole` is what the two built codecs `first` and `second` merge
/// into: the range of both, and for every voxel the entry of `second` or,
/// where it has none, that of `first`.
pub open spec fn merged(first: Codec, second: Codec, whole: Codec) -> bool {
    &&& first.pending_action() == BuildAction::Done
    &&& second.pending_action() == BuildAction::Done
    &&& first.last_angle() == second.first_angle()
    &&& whole.pending_action() == BuildAction::Done
    &&& whole.first_angle() == first.first_angle()
    &&& whole.last_angle() == second.last_angle()
    &&& forall|p: int, u: int, v: int, w: int|
        #[trigger] whole.table().entry(p, u, v, w) == match second.table().entry(p, u, v, w) {
            Some(e) => Some(e),
            None => first.table().entry(p, u, v, w),
        }
}

impl Codec {
    /// The lookup table as far as it is built.
    pub closed spec fn table(&self) -> LookupTable {
        self.table
    }

    /// The first angle of the range that the table is built for.
    pub closed spec fn first_angle(&self) -> u32 {
        self.first
    }

    /// The end of the range that the table is built for.
    pub closed spec fn last_angle(&self) -> u32 {
        self.last
    }

    /// The question that is waiting for its answer.
    pub closed spec fn pending_action(&self) -> BuildAction {
        self.pending
    }

    /// The table is well formed, the range lies within the revolution, and
    /// the pending question is about the range.
    pub open spec fn wf(&self) -> bool {
        &&& self.table().wf()
        &&& self.first_angle() <= self.last_angle() <= TOTAL_ANGLES
        &&& action_ok(self.pending_action(), self.first_angle(), self.last_angle())
    }

    /// Every entry of the table answers a question of the range that was
    /// asked already, and no two voxels share an entry.
    pub open spec fn scanned(&self) -> bool {
        &&& forall|panel: int, x: int, y: int, z: int|
            (#[trigger] self.table().entry(panel, x, y, z)) matches Some(e) ==> self.first_angle()
                <= e.angle && asked_before(e, self.pending_action(), self.last_angle())
        &&& forall|panel: int, x: int, y: int, z: int, u: int, v: int, w: int|
            (#[trigger] self.table().entry(panel, x, y, z)) is Some && self.table().entry(
                panel,
                x,
                y,
                z,
            ) == (#[trigger] self.table().entry(panel, u, v, w)) ==> x == u && y == v && z == w
    }

    /// A codec whose table is to be built for the angles of `angle_range`
    /// that lie within the revolution.  Its table is empty.
    pub fn new(angle_range: std::ops::Range<usize>) -> (codec: Codec)
        ensures
            codec.wf(),
            codec.scanned(),
            codec.last_angle() == clamp_angle(angle_range.end),
            codec.first_angle() == if clamp_angle(angle_range.start) < clamp_angle(
                angle_range.end,
            ) {
                clamp_angle(angle_range.start)
            } else {
                clamp_angle(angle_range.end)
            },
            codec.pending_action() == first_action(codec.first_angle(), codec.last_angle()),
            forall|panel: int, x: int, y: int, z: int|
                (#[trigger] codec.table().entry(panel, x, y, z)) is None,
    {
        let last: u32 = if angle_range.end > TOTAL_ANGLES {
            TOTAL_ANGLES as u32
        } else {
            angle_range.end as u32
        };
        let start: u32 = if angle_range.start > TOTAL_ANGLES {
            TOTAL_ANGLES as u32
        } else {
            angle_range.start as u32
        };
        let first: u32 = if start < last {
            start
        } else {
            last
        };
        let pending = if first < last {
            BuildAction::Cull { angle: first, panel: 0 }
        } else {
            BuildAction::Done
        };
        Codec { table: LookupTable::new(), first, last, pending }
    }

    /// A codec around a table that was built elsewhere.
    pub fn from_table(table: LookupTable) -> (codec: Codec)
        requires
            table.wf(),
        ensures
            codec.wf(),
            codec.table() == table,
            codec.first_angle() == 0,
            codec.last_angle() == TOTAL_ANGLES,
            codec.pending_action() == BuildAction::Done,
    {
        Codec { table, first: 0, last: TOTAL_ANGLES as u32, pending: BuildAction::Done }
    }

    /// The question that is waiting for its answer.
    pub fn pending(&self) -> (action: BuildAction)
        ensures
            action == self.pending_action(),
    {
        self.pending
    }

    /// Whether every question has been answered.
    pub fn is_built(&self) -> (built: bool)
        ensures
            built == (self.pending_action() == BuildAction::Done),
    {
        match self.pending {
            BuildAction::Done => true,
            _ => false,
        }
    }

    /// The lookup table as far as it is built.
    pub fn lookup_table(&self) -> (table: &LookupTable)
        ensures
            *table == self.table(),
    {
        &self.table
    }

    /// The question that follows the last one about `panel` at `angle`.
    fn following_panel(&self, angle: u32, panel: usize) -> (action: BuildAction)
        requires
            angle < self.last,
            self.last <= TOTAL_ANGLES,
            panel < NUM_SCREENS,
        ensures
            action == next_panel(angle, panel, self.last),
    {
        if panel + 1 < NUM_SCREENS {
            BuildAction::Cull { angle, panel: panel + 1 }
        } else if angle + 1 < self.last {
            BuildAction::Cull { angle: angle + 1, panel: 0 }
        } else {
            BuildAction::Done
        }
    }

    /// Takes the answer to the pending question and returns the next one.
    ///
    /// The answer to `Cull` moves on to the first pixel of the panel, or
    /// past the panel where it cannot be lit.  The answer to `Project`
    /// makes the pixel the entry of the voxel it lights, if that voxel lies
    /// in the volume, and moves on to the next pixel.  An answer that does
    /// not fit the question is refused and changes nothing.
    pub fn advance(&mut self, event: BuildEvent) -> (next: Result<BuildAction, BuildError>)
        requires
            old(self).wf(),
        ensures
            final(self).wf(),
            old(self).scanned() ==> final(self).scanned(),
            forall|p: int, u: int, v: int, w: int|
                old(self).table().entry(p, u, v, w) is Some
                    ==> (#[trigger] final(self).table().entry(p, u, v, w)) is Some,
            answered(*old(self), event, *final(self)),
            next == if fits(old(self).pending_action(), event) {
                Ok::<BuildAction, BuildError>(final(self).pending_action())
            } else {
                Err::<BuildAction, BuildError>(BuildError::UnexpectedEvent)
            },
    {
        match (self.pending, event) {
            (BuildAction::Cull { angle, panel }, BuildEvent::Culled(skip)) => {
                let following = if skip {
                    self.following_panel(angle, panel)
                } else {
                    BuildAction::Project { angle, panel, column: 0, row: 0 }
                };
                self.pending = following;
                Ok(following)
            },
            (BuildAction::Project { angle, panel, column, row }, BuildEvent::Projected(raw)) => {
                let cell = match raw {
                    Some((x, y, z)) => voxel_index(x, y, z),
                    None => None,
                };
                match cell {
                    Some((x, y, z)) => {
                        let entry = LutEntry { angle, panel, column, row };
                        let done = self.table.record(x, y, z, entry);
                        assert(done is Ok);
                    },
                    None => {},
                }
                let following = if column as usize + 1 < W_PIXELS {
                    BuildAction::Project { angle, panel, column: column + 1, row }
                } else if row as usize + 1 < W_PIXELS {
                    BuildAction::Project { angle, panel, column: 0, row: row + 1 }
                } else {
                    self.following_panel(angle, panel)
                };
                self.pending = following;
                Ok(following)
            },
            _ => Err(BuildError::UnexpectedEvent),
        }
    }

    /// Merges two codecs that were built for adjacent ranges of angles into
    /// one for the whole range, as if the second had been built on top of
    /// the first.  Fails if one of them is not built yet, or if `later`
    /// does not begin at the angle at which this one ends.
    pub fn merge(self, later: Codec) -> (whole: Result<Codec, BuildError>)
        requires
            self.wf(),
            later.wf(),
        ensures
            match whole {
                Ok(codec) => {
                    &&& codec.wf()
                    &&& merged(self, later, codec)
                    &&& self.scanned() && later.scanned() ==> codec.scanned()
                },
                Err(BuildError::Unfinished) => {
                    ||| self.pending_action() != BuildAction::Done
                    ||| later.pending_action() != BuildAction::Done
                },
                Err(BuildError::NotAdjacent { end, start }) => {
                    &&& self.pending_action() == BuildAction::Done
                    &&& later.pending_action() == BuildAction::Done
                    &&& end == self.last_angle()
                    &&& start == later.first_angle()
                    &&& end != start
                },
                Err(_) => false,
            },
    {
        if !self.is_built() || !later.is_built() {
            return Err(BuildError::Unfinished);
        }
        if self.last != later.first {
            return Err(BuildError::NotAdjacent { end: self.last, start: later.first });
        }
        let mut table = self.table;
        table.overlay(&later.table);
        Ok(Codec { table, first: self.first, last: later.last, pending: BuildAction::Done })
    }
}

} // verus!

//! From a sparse list of coloured voxels to the lines that each panel shows
//! at each angle.

use vstd::prelude::*;
use std::collections::BTreeMap;
use crate::align::{parse_addr_map, parsed};
use crate::geometry::{NUM_SCREENS, TOTAL_ANGLES, W_PIXELS};
use crate::codec::{BuildAction, Codec};
use crate::line::{
    lemma_line_lookup, lines_view, put, sorted_lines, AddrMap, LineMap, PixelColor, ScreenLine,
};
use crate::lut::{entry_in_range, LookupTable, LutEntry};

verus! {

/// A lit voxel: lateral `x`, lateral `y`, then height `z` with the colour.
pub type Voxel = (u32, u32, (u32, PixelColor));

/// A sparse list of lit voxels.
pub type PixelSurface = Vec<Voxel>;

/// For each angle at which something is shown, the lines of each panel.
pub type AngleMap = BTreeMap<u32, [Vec<ScreenLine>; 3]>;

/// Why a surface could not be encoded.
#[derive(Debug, Copy, Clone, PartialEq, Eq)]
pub enum EncodeError {
    /// The lookup table of the codec is still being built.
    NotBuilt,
    /// Two different voxels of the surface, `first` before `second`, are lit
    /// by the same panel pixel.
    Collision { first: (u32, u32, u32), second: (u32, u32, u32), entry: LutEntry },
}

/// The cell of the volume that the voxel lies in.
pub open spec fn coords(v: Voxel) -> (u32, u32, u32) {
    (v.0, v.1, v.2.0)
}

/// The panel pixel that lights the voxel on `panel`, if any does.
pub open spec fn hit(table: LookupTable, v: Voxel, panel: int) -> Option<LutEntry> {
    table.entry(panel, v.0 as int, v.1 as int, v.2.0 as int)
}

/// The lines of `panel` at `angle` as the voxels of the surface write them,
/// one after the other: a later voxel overwrites what an earlier one wrote
/// to the same pixel.
pub open spec fn raw_frame(
    table: LookupTable,
    surface: Seq<Voxel>,
    angle: u32,
    panel: int,
) -> LineMap
    decreases surface.len(),
{
    if surface.len() == 0 {
        Map::empty()
    } else {
        let rest = raw_frame(table, surface.drop_last(), angle, panel);
        match hit(table, surface.last(), panel) {
            Some(e) => if e.angle == angle {
                put(rest, e.column, e.row as int, surface.last().2.1)
            } else {
                rest
            },
            None => rest,
        }
    }
}

/// The lines that are sent out for `panel` at `angle`.
pub open spec fn sent(
    table: LookupTable,
    surface: Seq<Voxel>,
    offset: int,
    optimize: bool,
    angle: u32,
    panel: int,
) -> LineMap {
    parsed(raw_frame(table, surface, angle, panel), offset, optimize)
}

/// Whether any line of the map holds a pixel.
pub open spec fn map_lit(m: LineMap) -> bool {
    exists|a: u32, row: int|
        m.contains_key(a) && 0 <= row < W_PIXELS && (#[trigger] m[a][row]) is Some
}

/// Whether any panel shows a pixel at `angle`.
pub open spec fn angle_lit(
    table: LookupTable,
    surface: Seq<Voxel>,
    offset: int,
    optimize: bool,
    angle: u32,
) -> bool {
    ||| map_lit(sent(table, surface, offset, optimize, angle, 0))
    ||| map_lit(sent(table, surface, offset, optimize, angle, 1))
    ||| map_lit(sent(table, surface, offset, optimize, angle, 2))
}

/// Whether `lines` are the lines that are sent out for `panel` at `angle`,
/// in order of address.
pub open spec fn panel_sent(
    lines: Seq<ScreenLine>,
    table: LookupTable,
    surface: Seq<Voxel>,
    offset: int,
    optimize: bool,
    angle: u32,
    panel: int,
) -> bool {
    &&& sorted_lines(lines, panel as usize)
    &&& lines_view(lines) == sent(table, surface, offset, optimize, angle, panel)
}

/// Whether `map` is the schedule of the surface: it holds the angles at
/// which some panel shows a pixel, and for each of them the lines of every
/// panel.
pub open spec fn encodes(
    table: LookupTable,
    surface: Seq<Voxel>,
    offset: int,
    optimize: bool,
    map: Map<u32, [Vec<ScreenLine>; 3]>,
) -> bool {
    &&& forall|angle: u32| #[trigger]
        map.contains_key(angle) <==> angle_lit(table, surface, offset, optimize, angle)
    &&& forall|angle: u32| #[trigger]
        map.contains_key(angle) ==> {
            &&& panel_sent(map[angle][0]@, table, surface, offset, optimize, angle, 0)
            &&& panel_sent(map[angle][1]@, table, surface, offset, optimize, angle, 1)
            &&& panel_sent(map[angle][2]@, table, surface, offset, optimize, angle, 2)
        }
}

/// Whether `a` and `b` are different cells that the same pixel of `panel`
/// lights.
pub open spec fn clash(table: LookupTable, a: Voxel, b: Voxel, panel: int) -> bool {
    &&& coords(a) != coords(b)
    &&& hit(table, a, panel) is Some
    &&& hit(table, a, panel) == hit(table, b, panel)
}

/// Whether voxel `j` of the surface clashes on `panel` with a voxel before it.
pub open spec fn collides_at(table: LookupTable, surface: Seq<Voxel>, j: int, panel: int) -> bool {
    exists|i: int| 0 <= i < j && #[trigger] clash(table, surface[i], surface[j], panel)
}

/// Whether no two voxels of the surface clash.
pub open spec fn collision_free(table: LookupTable, surface: Seq<Voxel>) -> bool {
    forall|j: int, panel: int|
        0 <= j < surface.len() && 0 <= panel < NUM_SCREENS ==> !#[trigger] collides_at(
            table,
            surface,
            j,
            panel,
        )
}

/// Whether voxel `i` on panel `q` is written before voxel `j` on panel `p`.
pub open spec fn precedes(i: int, q: int, j: int, p: int) -> bool {
    i < j || (i == j && q < p)
}

/// Whether `err` reports the first clash of the surface: the one that is
/// met first when the voxels are written in order, each to the panels in
/// order.
pub open spec fn first_collision(
    table: LookupTable,
    surface: Seq<Voxel>,
    err: EncodeError,
) -> bool {
    exists|i: int, j: int, p: int|
        {
            &&& 0 <= i < j < surface.len()
            &&& 0 <= p < NUM_SCREENS
            &&& #[trigger] clash(table, surface[i], surface[j], p)
            &&& err == (EncodeError::Collision {
                first: coords(surface[i]),
                second: coords(surface[j]),
                entry: hit(table, surface[j], p)->0,
            })
            &&& forall|j2: int, p2: int|
                0 <= j2 < surface.len() && 0 <= p2 < NUM_SCREENS && precedes(j2, p2, j, p)
                    ==> !#[trigger] collides_at(table, surface, j2, p2)
        }
}

/// Writing one more voxel.
proof fn lemma_raw_step(table: LookupTable, surface: Seq<Voxel>, j: int, angle: u32, panel: int)
    requires
        0 <= j < surface.len(),
    ensures
        raw_frame(table, surface.take(j + 1), angle, panel) == match hit(table, surface[j], panel) {
            Some(e) => if e.angle == angle {
                put(
                    raw_frame(table, surface.take(j), angle, panel),
                    e.column,
                    e.row as int,
                    surface[j].2.1,
                )
            } else {
                raw_frame(table, surface.take(j), angle, panel)
            },
            None => raw_frame(table, surface.take(j), angle, panel),
        },
{
    assert(surface.take(j + 1).drop_last() =~= surface.take(j));
    assert(surface.take(j + 1).last() == surface[j]);
}

/// The number that stands for the entry's pixel and angle.
spec fn slot_key(e: LutEntry) -> int {
    ((e.angle * NUM_SCREENS + e.panel) * W_PIXELS + e.column) * W_PIXELS + e.row
}

/// Different entries have different numbers.
proof fn lemma_slot_key(a: LutEntry, b: LutEntry)
    requires
        entry_in_range(a),
        entry_in_range(b),
        slot_key(a) == slot_key(b),
    ensures
        a == b,
        0 <= slot_key(a) < 0x1_0000_0000,
{
}

/// Whether the frame of `panel` at `angle` holds what the voxels before `j`
/// wrote, and voxel `j` too where `panel` is below `p`.
spec fn frame_ok(
    frames: Seq<AddrMap>,
    table: LookupTable,
    surface: Seq<Voxel>,
    j: int,
    p: int,
    angle: int,
    panel: int,
) -> bool {
    let f = frames[angle * NUM_SCREENS + panel];
    &&& f.wf()
    &&& f.screen() == panel
    &&& f@ == raw_frame(
        table,
        surface.take(
            if panel < p {
                j + 1
            } else {
                j
            },
        ),
        angle as u32,
        panel,
    )
}

/// Whether every frame holds what has been written so far.
spec fn frames_hold(
    frames: Seq<AddrMap>,
    table: LookupTable,
    surface: Seq<Voxel>,
    j: int,
    p: int,
) -> bool {
    &&& frames.len() == TOTAL_ANGLES * NUM_SCREENS
    &&& forall|angle: int, panel: int|
        0 <= angle < TOTAL_ANGLES && 0 <= panel < NUM_SCREENS ==> #[trigger] frame_ok(
            frames,
            table,
            surface,
            j,
            p,
            angle,
            panel,
        )
}

/// Whether the voxel that wrote through voxel `i`'s entry on panel `q` is on
/// record.
spec fn owner_known(
    owners: Map<u64, (u32, u32, u32)>,
    table: LookupTable,
    surface: Seq<Voxel>,
    i: int,
    q: int,
) -> bool {
    hit(table, surface[i], q) matches Some(e) ==> owners.contains_key(slot_key(e) as u64)
        && owners[slot_key(e) as u64] == coords(surface[i])
}

/// Whether `key` stands for the entry of voxel `i` on panel `q`.
spec fn key_from(table: LookupTable, surface: Seq<Voxel>, key: u64, i: int, q: int) -> bool {
    hit(table, surface[i], q) matches Some(e) && slot_key(e) == key
}

/// Whether the record of writers holds the pixels written so far, each with
/// the cell of the voxel that wrote it.
spec fn owners_hold(
    owners: Map<u64, (u32, u32, u32)>,
    table: LookupTable,
    surface: Seq<Voxel>,
    j: int,
    p: int,
) -> bool {
    &&& forall|i: int, q: int|
        0 <= i < surface.len() && 0 <= q < NUM_SCREENS && precedes(i, q, j, p)
            ==> #[trigger] owner_known(owners, table, surface, i, q)
    &&& forall|key: u64| #[trigger]
        owners.contains_key(key) ==> exists|i: int, q: int|
            0 <= i < surface.len() && 0 <= q < NUM_SCREENS && precedes(i, q, j, p)
                && #[trigger] key_from(table, surface, key, i, q)
}

/// Whether nothing clashed so far.
spec fn clear_before(table: LookupTable, surface: Seq<Voxel>, j: int, p: int) -> bool {
    forall|j2: int, p2: int|
        0 <= j2 < surface.len() && 0 <= p2 < NUM_SCREENS && precedes(j2, p2, j, p)
            ==> !#[trigger] collides_at(table, surface, j2, p2)
}

/// One empty frame for each angle and panel.
fn empty_frames(
    Ghost(table): Ghost<LookupTable>,
    Ghost(surface): Ghost<Seq<Voxel>>,
) -> (frames: Vec<AddrMap>)
    ensures
        frames_hold(frames@, table, surface, 0, 0),
{
    let mut frames: Vec<AddrMap> = Vec::with_capacity(TOTAL_ANGLES * NUM_SCREENS);
    for angle in 0..TOTAL_ANGLES
        invariant
            frames@.len() == angle * NUM_SCREENS,
            forall|a: int, q: int|
                0 <= a < angle && 0 <= q < NUM_SCREENS ==> #[trigger] frame_ok(
                    frames@,
                    table,
                    surface,
                    0,
                    0,
                    a,
                    q,
                ),
    {
        let ghost before = frames@;
        frames.push(AddrMap::new(0));
        frames.push(AddrMap::new(1));
        frames.push(AddrMap::new(2));
        proof {
            assert(surface.take(0) =~= Seq::<Voxel>::empty());
            assert forall|a: int, q: int|
                0 <= a < angle + 1 && 0 <= q < NUM_SCREENS implies #[trigger] frame_ok(
                frames@,
                table,
                surface,
                0,
                0,
                a,
                q,
            ) by {
                if a < angle {
                    assert(frame_ok(before, table, surface, 0, 0, a, q));
                    assert(frames@[a * NUM_SCREENS + q] == before[a * NUM_SCREENS + q]);
                }
            }
        }
    }
    frames
}

/// Writes every voxel of the surface into the frame of each panel that
/// shows it, unless two voxels clash.
fn fill_frames(table: &LookupTable, surface: &PixelSurface) -> (filled: Result<
    Vec<AddrMap>,
    EncodeError,
>)
    requires
        table.wf(),
    ensures
        match filled {
            Ok(frames) => {
                &&& collision_free(*table, surface@)
                &&& frames_hold(frames@, *table, surface@, surface@.len() as int, 0)
            },
            Err(err) => first_collision(*table, surface@, err),
        },
{
    let mut frames = empty_frames(Ghost(*table), Ghost(surface@));
    let mut owners: BTreeMap<u64, (u32, u32, u32)> = BTreeMap::new();
    let n = surface.len();
    for j in 0..n
        invariant
            n == surface@.len(),
            table.wf(),
            frames_hold(frames@, *table, surface@, j as int, 0),
            owners_hold(owners@, *table, surface@, j as int, 0),
            clear_before(*table, surface@, j as int, 0),
    {
        let (x, y, (z, color)) = surface[j];
        for p in 0..NUM_SCREENS
            invariant
                j < n,
                n == surface@.len(),
                table.wf(),
                surface@[j as int] == (x, y, (z, color)),
                frames_hold(frames@, *table, surface@, j as int, p as int),
                owners_hold(owners@, *table, surface@, j as int, p as int),
                clear_before(*table, surface@, j as int, p as int),
        {
            let ghost old_frames = frames@;
            let ghost old_owners = owners@;
            match table.get(p, x, y, z) {
                None => {},
                Some(e) => {
                    assert(hit(*table, surface@[j as int], p as int) == Some(e));
                    assert(entry_in_range(e) && e.panel == p);
                    let key: u64 = ((e.angle as u64 * 3 + e.panel as u64) * 192 + e.column as u64)
                        * 192 + e.row as u64;
                    assert(key == slot_key(e));
                    match owners.get(&key) {
                        Some(first) => {
                            if first.0 != x || first.1 != y || first.2 != z {
                                proof {
                                    let (i, q) = choose|i: int, q: int|
                                        0 <= i < surface@.len() && 0 <= q < NUM_SCREENS && precedes(
                                            i,
                                            q,
                                            j as int,
                                            p as int,
                                        ) && #[trigger] key_from(*table, surface@, key, i, q);
                                    let e2 = hit(*table, surface@[i], q)->0;
                                    assert(table.entry(
                                        q,
                                        surface@[i].0 as int,
                                        surface@[i].1 as int,
                                        surface@[i].2.0 as int,
                                    ) == Some(e2));
                                    lemma_slot_key(e, e2);
                                    assert(owner_known(old_owners, *table, surface@, i, q));
                                    assert(clash(
                                        *table,
                                        surface@[i],
                                        surface@[j as int],
                                        p as int,
                                    ));
                                }
                                return Err(
                                    EncodeError::Collision {
                                        first: *first,
                                        second: (x, y, z),
                                        entry: e,
                                    },
                                );
                            }
                        },
                        None => {},
                    }
                    owners.insert(key, (x, y, z));
                    assert(frame_ok(
                        old_frames,
                        *table,
                        surface@,
                        j as int,
                        p as int,
                        e.angle as int,
                        p as int,
                    ));
                    let frame = e.angle as usize * NUM_SCREENS + p;
                    let written = frames[frame].set(e.column, e.row as usize, color);
                    assert(written);
                },
            }
            proof {
                let s = surface@;
                let jj = j as int;
                let pp = p as int;
                let h = hit(*table, s[jj], pp);
                assert(!collides_at(*table, s, jj, pp)) by {
                    if collides_at(*table, s, jj, pp) {
                        let i = choose|i: int|
                            0 <= i < jj && #[trigger] clash(*table, s[i], s[jj], pp);
                        assert(owner_known(old_owners, *table, s, i, pp));
                    }
                }
                assert forall|j2: int, p2: int|
                    0 <= j2 < s.len() && 0 <= p2 < NUM_SCREENS && precedes(
                        j2,
                        p2,
                        jj,
                        pp + 1,
                    ) implies !#[trigger] collides_at(*table, s, j2, p2) by {
                    if !(j2 == jj && p2 == pp) {
                        assert(precedes(j2, p2, jj, pp));
                    }
                }
                assert forall|i: int, q: int|
                    0 <= i < s.len() && 0 <= q < NUM_SCREENS && precedes(
                        i,
                        q,
                        jj,
                        pp + 1,
                    ) implies #[trigger] owner_known(owners@, *table, s, i, q) by {
                    if !(i == jj && q == pp) {
                        assert(precedes(i, q, jj, pp));
                        assert(owner_known(old_owners, *table, s, i, q));
                        if h is Some && hit(*table, s[i], q) is Some {
                            let e1 = h->0;
                            let e2 = hit(*table, s[i], q)->0;
                            assert(table.entry(q, s[i].0 as int, s[i].1 as int, s[i].2.0 as int)
                                == Some(e2));
                            if slot_key(e1) == slot_key(e2) {
                                lemma_slot_key(e1, e2);
                            }
                        }
                    }
                }
                assert forall|key: u64| #[trigger] owners@.contains_key(key) implies exists|
                    i: int,
                    q: int,
                |
                    0 <= i < s.len() && 0 <= q < NUM_SCREENS && precedes(i, q, jj, pp + 1)
                        && #[trigger] key_from(*table, s, key, i, q) by {
                    if old_owners.contains_key(key) {
                        let (i, q) = choose|i: int, q: int|
                            0 <= i < s.len() && 0 <= q < NUM_SCREENS && precedes(i, q, jj, pp)
                                && #[trigger] key_from(*table, s, key, i, q);
                        assert(precedes(i, q, jj, pp + 1) && key_from(*table, s, key, i, q));
                    } else {
                        assert(precedes(jj, pp, jj, pp + 1) && key_from(*table, s, key, jj, pp));
                    }
                }
                assert forall|angle: int, panel: int|
                    0 <= angle < TOTAL_ANGLES && 0 <= panel < NUM_SCREENS implies #[trigger]
                    frame_ok(
                    frames@,
                    *table,
                    s,
                    jj,
                    pp + 1,
                    angle,
                    panel,
                ) by {
                    assert(frame_ok(old_frames, *table, s, jj, pp, angle, panel));
                    lemma_raw_step(*table, s, jj, angle as u32, panel);
                }
            }
        }
        proof {
            let s = surface@;
            let jj = j as int;
            assert forall|angle: int, panel: int|
                0 <= angle < TOTAL_ANGLES && 0 <= panel < NUM_SCREENS implies #[trigger] frame_ok(
                frames@,
                *table,
                s,
                jj + 1,
                0,
                angle,
                panel,
            ) by {
                assert(frame_ok(frames@, *table, s, jj, 3, angle, panel));
            }
            assert forall|i: int, q: int|
                0 <= i < s.len() && 0 <= q < NUM_SCREENS && precedes(
                    i,
                    q,
                    jj + 1,
                    0,
                ) implies #[trigger] owner_known(owners@, *table, s, i, q) by {
                assert(precedes(i, q, jj, 3));
            }
            assert forall|key: u64| #[trigger] owners@.contains_key(key) implies exists|
                i: int,
                q: int,
            |
                0 <= i < s.len() && 0 <= q < NUM_SCREENS && precedes(i, q, jj + 1, 0)
                    && #[trigger] key_from(*table, s, key, i, q) by {
                let (i, q) = choose|i: int, q: int|
                    0 <= i < s.len() && 0 <= q < NUM_SCREENS && precedes(i, q, jj, 3)
                        && #[trigger] key_from(*table, s, key, i, q);
                assert(precedes(i, q, jj + 1, 0) && key_from(*table, s, key, i, q));
            }
            assert forall|j2: int, p2: int|
                0 <= j2 < s.len() && 0 <= p2 < NUM_SCREENS && precedes(
                    j2,
                    p2,
                    jj + 1,
                    0,
                ) implies !#[trigger] collides_at(*table, s, j2, p2) by {
                assert(precedes(j2, p2, jj, 3));
            }
        }
    }
    proof {
        assert forall|j2: int, p2: int|
            0 <= j2 < surface@.len() && 0 <= p2 < NUM_SCREENS implies !#[trigger] collides_at(
            *table,
            surface@,
            j2,
            p2,
        ) by {
            assert(precedes(j2, p2, n as int, 0));
        }
    }
    Ok(frames)
}

/// No voxel writes to a frame of an angle beyond the revolution.
proof fn lemma_no_frame(table: LookupTable, surface: Seq<Voxel>, angle: u32, panel: int)
    requires
        table.wf(),
        angle >= TOTAL_ANGLES,
    ensures
        raw_frame(table, surface, angle, panel) == LineMap::empty(),
    decreases surface.len(),
{
    if surface.len() > 0 {
        lemma_no_frame(table, surface.drop_last(), angle, panel);
        let v = surface.last();
        assert(table.entry(panel, v.0 as int, v.1 as int, v.2.0 as int) == hit(table, v, panel));
    }
}

/// Nothing is sent out for a frame that nothing was written to.
pub proof fn lemma_parsed_empty(offset: int, optimize: bool)
    ensures
        parsed(LineMap::empty(), offset, optimize) == LineMap::empty(),
{
    let m = LineMap::empty();
    assert forall|a: u32| !#[trigger] parsed(m, offset, optimize).contains_key(a) by {
        assert forall|row: int| !crate::align::row_taken(m, row) by {
            if crate::align::row_taken(m, row) {
                assert(crate::align::owned(m, crate::align::owner(m, row), row));
            }
        }
        assert(!crate::align::placed_addr(m, a));
    }
    assert(parsed(m, offset, optimize) =~= m);
}

/// Whether any of the lines holds a pixel.
fn any_pixel(lines: &Vec<ScreenLine>, Ghost(panel): Ghost<usize>) -> (lit: bool)
    requires
        sorted_lines(lines@, panel),
    ensures
        lit == map_lit(lines_view(lines@)),
{
    let n = lines.len();
    for k in 0..n
        invariant
            n == lines@.len(),
            sorted_lines(lines@, panel),
            forall|j: int, row: int|
                0 <= j < k && 0 <= row < W_PIXELS ==> (#[trigger] lines@[j].pixels@[row]) is None,
    {
        for r in 0..W_PIXELS
            invariant
                k < n,
                n == lines@.len(),
                sorted_lines(lines@, panel),
                forall|row: int|
                    0 <= row < r ==> (#[trigger] lines@[k as int].pixels@[row]) is None,
        {
            if lines[k].pixels[r].is_some() {
                proof {
                    lemma_line_lookup(lines@, panel, k as int);
                    let a = lines@[k as int].addr;
                    assert(lines_view(lines@)[a][r as int] is Some);
                }
                return true;
            }
        }
    }
    proof {
        let m = lines_view(lines@);
        if map_lit(m) {
            let (a, row) = choose|a: u32, row: int|
                m.contains_key(a) && 0 <= row < W_PIXELS && (#[trigger] m[a][row]) is Some;
            let j = crate::line::index_of(lines@, a);
            lemma_line_lookup(lines@, panel, j);
            assert(lines@[j].pixels@[row] is None);
        }
    }
    false
}

impl Codec {
    /// The schedule of the surface: for every angle at which a panel shows a
    /// pixel, the lines of each panel in order of address.
    ///
    /// Each voxel is written, for each panel, to the pixel that the lookup
    /// table gives for it; a voxel without entry is not shown on that panel.
    /// The lines of each panel at each angle then go through
    /// [`parse_addr_map`].  Nothing is encoded while the table is still
    /// being built, nor where two different voxels are lit by the same
    /// pixel: that is a clash, which is reported.
    pub fn encode(
        &self,
        pixel_surface: &PixelSurface,
        pixel_offset: i32,
        optimze_speed_for_mbi5264: bool,
    ) -> (schedule: Result<AngleMap, EncodeError>)
        requires
            self.wf(),
        ensures
            schedule is Ok == (self.pending_action() == BuildAction::Done && collision_free(
                self.table(),
                pixel_surface@,
            )),
            match schedule {
                Ok(map) => encodes(
                    self.table(),
                    pixel_surface@,
                    pixel_offset as int,
                    optimze_speed_for_mbi5264,
                    map@,
                ),
                Err(EncodeError::NotBuilt) => self.pending_action() != BuildAction::Done,
                Err(err) => self.pending_action() == BuildAction::Done && first_collision(
                    self.table(),
                    pixel_surface@,
                    err,
                ),
            },
    {
        if !self.is_built() {
            return Err(EncodeError::NotBuilt);
        }
        let table = self.lookup_table();
        let ghost s = pixel_surface@;
        let ghost off = pixel_offset as int;
        let ghost opt = optimze_speed_for_mbi5264;
        let mut frames = match fill_frames(table, pixel_surface) {
            Ok(frames) => frames,
            Err(err) => {
                proof {
                    let (i, j, p) = choose|i: int, j: int, p: int|
                        {
                            &&& 0 <= i < j < s.len()
                            &&& 0 <= p < NUM_SCREENS
                            &&& #[trigger] clash(*table, s[i], s[j], p)
                            &&& err == (EncodeError::Collision {
                                first: coords(s[i]),
                                second: coords(s[j]),
                                entry: hit(*table, s[j], p)->0,
                            })
                            &&& forall|j2: int, p2: int|
                                0 <= j2 < s.len() && 0 <= p2 < NUM_SCREENS && precedes(j2, p2, j, p)
                                    ==> !#[trigger] collides_at(*table, s, j2, p2)
                        };
                    assert(collides_at(*table, s, j, p));
                }
                return Err(err);
            },
        };
        let ghost full = frames@;
        let mut map: AngleMap = BTreeMap::new();
        let mut angle: usize = TOTAL_ANGLES;
        assert(s.take(s.len() as int) =~= s);
        while angle > 0
            invariant
                angle <= TOTAL_ANGLES,
                table.wf(),
                s == pixel_surface@,
                off == pixel_offset as int,
                opt == optimze_speed_for_mbi5264,
                *table == self.table(),
                frames_hold(full, *table, s, s.len() as int, 0),
                s.take(s.len() as int) == s,
                frames@ == full.take(angle * NUM_SCREENS),
                forall|a: u32| #[trigger]
                    map@.contains_key(a) <==> angle <= a < TOTAL_ANGLES && angle_lit(
                        *table,
                        s,
                        off,
                        opt,
                        a,
                    ),
                forall|a: u32| #[trigger]
                    map@.contains_key(a) ==> {
                        &&& panel_sent(map@[a][0]@, *table, s, off, opt, a, 0)
                        &&& panel_sent(map@[a][1]@, *table, s, off, opt, a, 1)
                        &&& panel_sent(map@[a][2]@, *table, s, off, opt, a, 2)
                    },
            decreases angle,
        {
            angle = angle - 1;
            proof {
                assert(frame_ok(full, *table, s, s.len() as int, 0, angle as int, 0));
                assert(frame_ok(full, *table, s, s.len() as int, 0, angle as int, 1));
                assert(frame_ok(full, *table, s, s.len() as int, 0, angle as int, 2));
            }
            let high = frames.pop().unwrap();
            let middle = frames.pop().unwrap();
            let low = frames.pop().unwrap();
            assert(frames@ =~= full.take(angle * NUM_SCREENS));
            let lines0 = parse_addr_map(low, pixel_offset, optimze_speed_for_mbi5264);
            let lines1 = parse_addr_map(middle, pixel_offset, optimze_speed_for_mbi5264);
            let lines2 = parse_addr_map(high, pixel_offset, optimze_speed_for_mbi5264);
            let lit = any_pixel(&lines0, Ghost(0)) || any_pixel(&lines1, Ghost(1)) || any_pixel(
                &lines2,
                Ghost(2),
            );
            assert(lit == angle_lit(*table, s, off, opt, angle as u32));
            if lit {
                let ghost before = map@;
                let ghost l0 = lines0@;
                let ghost l1 = lines1@;
                let ghost l2 = lines2@;
                let frame: [Vec<ScreenLine>; 3] = [lines0, lines1, lines2];
                assert(frame[0]@ == l0 && frame[1]@ == l1 && frame[2]@ == l2);
                map.insert(angle as u32, frame);
                assert(map@ == before.insert(angle as u32, frame));
            }
        }
        proof {
            assert forall|a: u32| #[trigger]
                map@.contains_key(a) <==> angle_lit(*table, s, off, opt, a) by {
                if a >= TOTAL_ANGLES {
                    lemma_no_frame(*table, s, a, 0);
                    lemma_no_frame(*table, s, a, 1);
                    lemma_no_frame(*table, s, a, 2);
                    lemma_parsed_empty(off, opt);
                }
            }
        }
        Ok(map)
    }
}

} // verus!

//! What holds of the codec as a whole.

use vstd::prelude::*;
use crate::align::{
    full_rows, lemma_offset_law, lemma_owner_unique, lemma_plain_unchanged, owned, owner, parsed,
    placed_addr, reference_phase, row_taken, shifted, target,
};
use crate::codec::Codec;
use crate::decode::{decoded, line_points};
use crate::encode::{
    angle_lit, clash, collides_at, collision_free, coords, encodes, first_collision, hit,
    lemma_parsed_empty, map_lit, panel_sent, precedes, raw_frame, sent, EncodeError, Voxel,
};
use crate::geometry::{NUM_SCREENS, W_PIXELS};
use crate::line::{
    empty_row, index_of, lemma_line_lookup, lemma_lines_unique, lemma_same_addrs, lines_view, put,
    sorted_lines, LineMap, PixelColor, Row, ScreenLine,
};
use crate::lut::{LookupTable, LutEntry};

verus! {

/// Encoding is a function: two schedules of the same surface, made with the
/// same table, offset and choice of realignment, hold the same angles and,
/// for each angle and panel, the same lines.
pub proof fn lemma_schedule_unique(
    table: LookupTable,
    surface: Seq<Voxel>,
    offset: int,
    optimize: bool,
    a: Map<u32, [Vec<ScreenLine>; 3]>,
    b: Map<u32, [Vec<ScreenLine>; 3]>,
)
    requires
        encodes(table, surface, offset, optimize, a),
        encodes(table, surface, offset, optimize, b),
    ensures
        a.dom() == b.dom(),
        forall|angle: u32| #[trigger]
            a.contains_key(angle) ==> {
                &&& a[angle][0]@ == b[angle][0]@
                &&& a[angle][1]@ == b[angle][1]@
                &&& a[angle][2]@ == b[angle][2]@
            },
{
    assert forall|angle: u32| a.contains_key(angle) <==> b.contains_key(angle) by {}
    assert(a.dom() =~= b.dom());
    assert forall|angle: u32| #[trigger] a.contains_key(angle) implies {
        &&& a[angle][0]@ == b[angle][0]@
        &&& a[angle][1]@ == b[angle][1]@
        &&& a[angle][2]@ == b[angle][2]@
    } by {
        assert(b.contains_key(angle));
        lemma_lines_unique(a[angle][0]@, b[angle][0]@, 0);
        lemma_lines_unique(a[angle][1]@, b[angle][1]@, 1);
        lemma_lines_unique(a[angle][2]@, b[angle][2]@, 2);
    }
}

/// A surface has one first clash at most.
pub proof fn lemma_collision_unique(
    table: LookupTable,
    surface: Seq<Voxel>,
    a: EncodeError,
    b: EncodeError,
)
    requires
        first_collision(table, surface, a),
        first_collision(table, surface, b),
    ensures
        a == b,
        !collision_free(table, surface),
{
    let (i1, j1, p1) = choose|i: int, j: int, p: int|
        {
            &&& 0 <= i < j < surface.len()
            &&& 0 <= p < NUM_SCREENS
            &&& #[trigger] clash(table, surface[i], surface[j], p)
            &&& a == (EncodeError::Collision {
                first: coords(surface[i]),
                second: coords(surface[j]),
                entry: hit(table, surface[j], p)->0,
            })
            &&& forall|j2: int, p2: int|
                0 <= j2 < surface.len() && 0 <= p2 < NUM_SCREENS && precedes(j2, p2, j, p)
                    ==> !#[trigger] collides_at(table, surface, j2, p2)
        };
    let (i2, j2, p2) = choose|i: int, j: int, p: int|
        {
            &&& 0 <= i < j < surface.len()
            &&& 0 <= p < NUM_SCREENS
            &&& #[trigger] clash(table, surface[i], surface[j], p)
            &&& b == (EncodeError::Collision {
                first: coords(surface[i]),
                second: coords(surface[j]),
                entry: hit(table, surface[j], p)->0,
            })
            &&& forall|j3: int, p3: int|
                0 <= j3 < surface.len() && 0 <= p3 < NUM_SCREENS && precedes(j3, p3, j, p)
                    ==> !#[trigger] collides_at(table, surface, j3, p3)
        };
    assert(collides_at(table, surface, j1, p1));
    assert(collides_at(table, surface, j2, p2));
    assert(j1 == j2 && p1 == p2);
    if coords(surface[i1]) != coords(surface[i2]) {
        if i1 < i2 {
            assert(clash(table, surface[i1], surface[i2], p1));
            assert(collides_at(table, surface, i2, p1));
        } else {
            assert(clash(table, surface[i2], surface[i1], p1));
            assert(collides_at(table, surface, i1, p1));
        }
    }
}

/// A codec whose table was built by the protocol alone encodes every
/// surface: no two voxels share a panel pixel.
pub proof fn lemma_scanned_never_clashes(codec: Codec, surface: Seq<Voxel>)
    requires
        codec.wf(),
        codec.scanned(),
    ensures
        collision_free(codec.table(), surface),
{
    let table = codec.table();
    assert forall|j: int, panel: int|
        0 <= j < surface.len() && 0 <= panel < NUM_SCREENS implies !#[trigger] collides_at(
        table,
        surface,
        j,
        panel,
    ) by {
        if collides_at(table, surface, j, panel) {
            let i = choose|i: int|
                0 <= i < j && #[trigger] clash(table, surface[i], surface[j], panel);
            let a = surface[i];
            let b = surface[j];
            assert(table.entry(panel, a.0 as int, a.1 as int, a.2.0 as int) == table.entry(
                panel,
                b.0 as int,
                b.1 as int,
                b.2.0 as int,
            ));
        }
    }
}

/// The schedule of the empty surface is empty.
pub proof fn lemma_empty_surface(
    table: LookupTable,
    offset: int,
    optimize: bool,
    map: Map<u32, [Vec<ScreenLine>; 3]>,
)
    requires
        encodes(table, Seq::<Voxel>::empty(), offset, optimize, map),
    ensures
        map == Map::<u32, [Vec<ScreenLine>; 3]>::empty(),
{
    lemma_parsed_empty(offset, optimize);
    assert forall|angle: u32| !map.contains_key(angle) by {
        assert(!angle_lit(table, Seq::<Voxel>::empty(), offset, optimize, angle));
    }
    assert(map =~= Map::<u32, [Vec<ScreenLine>; 3]>::empty());
}

/// Whether `moved` are the lines `plain`, each shifted by `offset` rows.
pub open spec fn lines_shifted(
    moved: Seq<ScreenLine>,
    plain: Seq<ScreenLine>,
    offset: int,
) -> bool {
    &&& moved.len() == plain.len()
    &&& forall|k: int|
        0 <= k < plain.len() ==> {
            &&& (#[trigger] moved[k]).screen_idx == plain[k].screen_idx
            &&& moved[k].addr == plain[k].addr
            &&& moved[k].pixels@ == shifted(plain[k].pixels@, offset)
        }
}

/// Whether a pixel of the lines is still on the panel after a shift by
/// `offset` rows.
pub open spec fn survives(lines: Seq<ScreenLine>, offset: int) -> bool {
    exists|k: int, i: int|
        0 <= k < lines.len() && 0 <= i < W_PIXELS && 0 <= i + offset < W_PIXELS && (
        #[trigger] lines[k].pixels@[i]) is Some
}

/// Lines that are sent out with an offset are those sent out without one,
/// shifted.
proof fn lemma_offset_lines(
    table: LookupTable,
    surface: Seq<Voxel>,
    offset: int,
    optimize: bool,
    angle: u32,
    panel: int,
    moved: Seq<ScreenLine>,
    plain: Seq<ScreenLine>,
)
    requires
        panel_sent(moved, table, surface, offset, optimize, angle, panel),
        panel_sent(plain, table, surface, 0, optimize, angle, panel),
    ensures
        lines_shifted(moved, plain, offset),
        map_lit(lines_view(moved)) == survives(plain, offset),
{
    let raw = raw_frame(table, surface, angle, panel);
    lemma_offset_law(raw, offset, optimize);
    lemma_same_addrs(moved, plain, panel as usize);
    assert forall|k: int| 0 <= k < plain.len() implies {
        &&& (#[trigger] moved[k]).screen_idx == plain[k].screen_idx
        &&& moved[k].addr == plain[k].addr
        &&& moved[k].pixels@ == shifted(plain[k].pixels@, offset)
    } by {
        lemma_line_lookup(moved, panel as usize, k);
        lemma_line_lookup(plain, panel as usize, k);
    }
    if map_lit(lines_view(moved)) {
        let (a, row) = choose|a: u32, row: int|
            lines_view(moved).contains_key(a) && 0 <= row < W_PIXELS && (#[trigger] lines_view(
                moved,
            )[a][row]) is Some;
        let k = index_of(moved, a);
        lemma_line_lookup(moved, panel as usize, k);
        assert(plain[k].pixels@[row - offset] is Some);
        assert(survives(plain, offset));
    }
    if survives(plain, offset) {
        let (k, i) = choose|k: int, i: int|
            0 <= k < plain.len() && 0 <= i < W_PIXELS && 0 <= i + offset < W_PIXELS && (
            #[trigger] plain[k].pixels@[i]) is Some;
        lemma_line_lookup(moved, panel as usize, k);
        assert(moved[k].pixels@[i + offset] is Some);
        assert(lines_view(moved)[moved[k].addr][i + offset] is Some);
    }
}

/// The offset law.  A schedule made with a row offset holds, for every
/// angle it has, the lines of the schedule made without offset, each
/// shifted by the offset: every pixel that is still on its panel stands
/// `offset` rows higher, and the rows that nothing was moved into are
/// empty.  It has those angles of the other schedule at which some pixel is
/// still on its panel.
pub proof fn lemma_offset_schedule(
    table: LookupTable,
    surface: Seq<Voxel>,
    offset: int,
    optimize: bool,
    moved: Map<u32, [Vec<ScreenLine>; 3]>,
    plain: Map<u32, [Vec<ScreenLine>; 3]>,
)
    requires
        encodes(table, surface, offset, optimize, moved),
        encodes(table, surface, 0, optimize, plain),
    ensures
        forall|angle: u32| #[trigger]
            moved.contains_key(angle) ==> {
                &&& plain.contains_key(angle)
                &&& lines_shifted(moved[angle][0]@, plain[angle][0]@, offset)
                &&& lines_shifted(moved[angle][1]@, plain[angle][1]@, offset)
                &&& lines_shifted(moved[angle][2]@, plain[angle][2]@, offset)
            },
        forall|angle: u32| #[trigger]
            plain.contains_key(angle) ==> (moved.contains_key(angle) <==> {
                ||| survives(plain[angle][0]@, offset)
                ||| survives(plain[angle][1]@, offset)
                ||| survives(plain[angle][2]@, offset)
            }),
{
    assert forall|angle: u32| angle_lit(table, surface, offset, optimize, angle) implies angle_lit(
        table,
        surface,
        0,
        optimize,
        angle,
    ) by {
        lemma_lit_without_offset(table, surface, offset, optimize, angle, 0);
        lemma_lit_without_offset(table, surface, offset, optimize, angle, 1);
        lemma_lit_without_offset(table, surface, offset, optimize, angle, 2);
    }
    assert forall|angle: u32| #[trigger] moved.contains_key(angle) implies {
        &&& plain.contains_key(angle)
        &&& lines_shifted(moved[angle][0]@, plain[angle][0]@, offset)
        &&& lines_shifted(moved[angle][1]@, plain[angle][1]@, offset)
        &&& lines_shifted(moved[angle][2]@, plain[angle][2]@, offset)
    } by {
        assert(angle_lit(table, surface, offset, optimize, angle));
        assert(plain.contains_key(angle));
        let m = moved[angle];
        let q = plain[angle];
        lemma_offset_lines(table, surface, offset, optimize, angle, 0, m[0]@, q[0]@);
        lemma_offset_lines(table, surface, offset, optimize, angle, 1, m[1]@, q[1]@);
        lemma_offset_lines(table, surface, offset, optimize, angle, 2, m[2]@, q[2]@);
    }
    assert forall|angle: u32| #[trigger] plain.contains_key(angle) implies (moved.contains_key(
        angle,
    ) <==> {
        ||| survives(plain[angle][0]@, offset)
        ||| survives(plain[angle][1]@, offset)
        ||| survives(plain[angle][2]@, offset)
    }) by {
        lemma_lit_survives(table, surface, offset, optimize, angle, 0, plain[angle][0]@);
        lemma_lit_survives(table, surface, offset, optimize, angle, 1, plain[angle][1]@);
        lemma_lit_survives(table, surface, offset, optimize, angle, 2, plain[angle][2]@);
    }
}

/// A pixel that a panel shows with an offset, as the panel shows it
/// without: at the same address, `offset` rows lower.
proof fn lemma_lit_source(
    table: LookupTable,
    surface: Seq<Voxel>,
    offset: int,
    optimize: bool,
    angle: u32,
    panel: int,
) -> (pixel: (u32, int))
    requires
        map_lit(sent(table, surface, offset, optimize, angle, panel)),
    ensures
        sent(table, surface, 0, optimize, angle, panel).contains_key(pixel.0),
        0 <= pixel.1 < W_PIXELS,
        0 <= pixel.1 + offset < W_PIXELS,
        sent(table, surface, 0, optimize, angle, panel)[pixel.0][pixel.1] is Some,
{
    let raw = raw_frame(table, surface, angle, panel);
    let with = sent(table, surface, offset, optimize, angle, panel);
    let without = sent(table, surface, 0, optimize, angle, panel);
    lemma_offset_law(raw, offset, optimize);
    let (a, row) = choose|a: u32, row: int|
        with.contains_key(a) && 0 <= row < W_PIXELS && (#[trigger] with[a][row]) is Some;
    assert(without.dom().contains(a));
    assert(without.contains_key(a));
    assert(without[a][row - offset] is Some);
    (a, row - offset)
}

/// What is lit with an offset is lit without.
proof fn lemma_lit_without_offset(
    table: LookupTable,
    surface: Seq<Voxel>,
    offset: int,
    optimize: bool,
    angle: u32,
    panel: int,
)
    ensures
        map_lit(sent(table, surface, offset, optimize, angle, panel)) ==> map_lit(
            sent(table, surface, 0, optimize, angle, panel),
        ),
{
    if map_lit(sent(table, surface, offset, optimize, angle, panel)) {
        let pixel = lemma_lit_source(table, surface, offset, optimize, angle, panel);
    }
}

/// A panel is lit with an offset exactly if one of the pixels that it
/// shows without offset is still on the panel.
proof fn lemma_lit_survives(
    table: LookupTable,
    surface: Seq<Voxel>,
    offset: int,
    optimize: bool,
    angle: u32,
    panel: int,
    plain: Seq<ScreenLine>,
)
    requires
        panel_sent(plain, table, surface, 0, optimize, angle, panel),
    ensures
        map_lit(sent(table, surface, offset, optimize, angle, panel)) == survives(plain, offset),
{
    let raw = raw_frame(table, surface, angle, panel);
    let with = sent(table, surface, offset, optimize, angle, panel);
    if map_lit(with) {
        let (a, row) = lemma_lit_source(table, surface, offset, optimize, angle, panel);
        let k = index_of(plain, a);
        lemma_line_lookup(plain, panel as usize, k);
        assert(plain[k].pixels@[row] is Some);
    }
    if survives(plain, offset) {
        let (k, i) = choose|k: int, i: int|
            0 <= k < plain.len() && 0 <= i < W_PIXELS && 0 <= i + offset < W_PIXELS && (
            #[trigger] plain[k].pixels@[i]) is Some;
        lemma_line_lookup(plain, panel as usize, k);
        let a = plain[k].addr;
        lemma_offset_law(raw, offset, optimize);
        assert(with.dom().contains(a));
        assert(with.contains_key(a));
        assert(with[a][i + offset] is Some);
    }
}

/// The only line of a panel that shows one pixel.
pub open spec fn one_pixel(column: u32, row: int, color: PixelColor) -> LineMap {
    Map::<u32, Row>::empty().insert(column, empty_row().update(row, Some(color)))
}

/// A surface of one voxel shows, on a panel that has an entry for the
/// voxel, the pixel of that entry at the angle of that entry in the colour
/// of the voxel, and nothing else; with the realignment or without it.
pub proof fn lemma_single_voxel(
    table: LookupTable,
    v: Voxel,
    optimize: bool,
    angle: u32,
    panel: int,
)
    requires
        table.wf(),
    ensures
        sent(table, seq![v], 0, optimize, angle, panel) == match hit(table, v, panel) {
            Some(e) => if e.angle == angle {
                one_pixel(e.column, e.row as int, v.2.1)
            } else {
                LineMap::empty()
            },
            None => LineMap::empty(),
        },
{
    let surface = seq![v];
    assert(surface.drop_last() =~= Seq::<Voxel>::empty());
    assert(surface.last() == v);
    let raw = raw_frame(table, surface, angle, panel);
    lemma_parsed_empty(0, optimize);
    assert(raw_frame(table, Seq::<Voxel>::empty(), angle, panel) == LineMap::empty());
    match hit(table, v, panel) {
        Some(e) => {
            if e.angle == angle {
                assert(table.entry(panel, v.0 as int, v.1 as int, v.2.0 as int) == Some(e));
                let row = e.row as int;
                let color = v.2.1;
                let want = one_pixel(e.column, row, color);
                assert(raw =~= want);
                let out = sent(table, surface, 0, optimize, angle, panel);
                if optimize {
                    assert(owned(raw, e.column, row));
                    lemma_owner_unique(raw, e.column, row);
                    assert forall|q: int| 0 <= q < W_PIXELS && q != row implies !row_taken(
                        raw,
                        q,
                    ) by {
                        if row_taken(raw, q) {
                            assert(owned(raw, owner(raw, q), q));
                        }
                    }
                    assert(target(raw, row) == e.column) by {
                        let slot = row % (crate::align::TRIPLET_STRIDE as int);
                        if reference_phase(raw, slot) is Some {
                            let reference = crate::align::reference_row(raw, slot)->0;
                            assert(row_taken(raw, reference));
                            assert(reference == row);
                        }
                    }
                    assert forall|a: u32| #[trigger] out.contains_key(a) <==> want.contains_key(
                        a,
                    ) by {
                        if placed_addr(raw, a) && !raw.contains_key(a) {
                            let q = choose|q: int|
                                0 <= q < W_PIXELS && row_taken(raw, q) && #[trigger] target(raw, q)
                                    == a;
                            assert(q == row);
                        }
                    }
                } else {
                    assert forall|a: u32| #[trigger] out.contains_key(a) <==> want.contains_key(
                        a,
                    ) by {}
                }
                assert(out[e.column] =~= want[e.column]);
                assert(out =~= want);
            }
        },
        None => {},
    }
}

/// The lit pixels of a line that holds one pixel.
proof fn lemma_line_of_one(angle: u32, line: ScreenLine, row: int, color: PixelColor, rows: int)
    requires
        0 <= row < W_PIXELS,
        0 <= rows <= W_PIXELS,
        line.pixels@ == empty_row().update(row, Some(color)),
    ensures
        line_points(angle, line, rows) == if rows > row {
            seq![LutEntry { angle, panel: line.screen_idx, column: line.addr, row: row as u32 }]
        } else {
            Seq::<LutEntry>::empty()
        },
    decreases rows,
{
    if rows > 0 {
        lemma_line_of_one(angle, line, row, color, rows - 1);
        if rows - 1 == row {
            assert(line_points(angle, line, rows) =~= seq![
                LutEntry { angle, panel: line.screen_idx, column: line.addr, row: row as u32 },
            ]);
        }
    }
}

/// Decoding undoes encoding.  Of a schedule that was made without offset
/// from one voxel, the lines of a panel that has an entry for the voxel
/// decode, at the angle of the entry, to that entry and nothing else.
pub proof fn lemma_round_trip(
    table: LookupTable,
    v: Voxel,
    optimize: bool,
    panel: int,
    map: Map<u32, [Vec<ScreenLine>; 3]>,
)
    requires
        table.wf(),
        0 <= panel < NUM_SCREENS,
        hit(table, v, panel) is Some,
        encodes(table, seq![v], 0, optimize, map),
    ensures
        map.contains_key(hit(table, v, panel)->0.angle),
        decoded(hit(table, v, panel)->0.angle, map[hit(table, v, panel)->0.angle][panel]@) == seq![
            hit(table, v, panel)->0,
        ],
{
    let e = hit(table, v, panel)->0;
    assert(table.entry(panel, v.0 as int, v.1 as int, v.2.0 as int) == Some(e));
    let row = e.row as int;
    lemma_single_voxel(table, v, optimize, e.angle, panel);
    let shown = sent(table, seq![v], 0, optimize, e.angle, panel);
    assert(shown[e.column][row] is Some);
    assert(map_lit(shown));
    assert(angle_lit(table, seq![v], 0, optimize, e.angle));
    assert(map.contains_key(e.angle));
    let lines = map[e.angle][panel]@;
    assert(panel_sent(lines, table, seq![v], 0, optimize, e.angle, panel));
    assert(lines_view(lines).contains_key(e.column));
    let k = index_of(lines, e.column);
    lemma_line_lookup(lines, panel as usize, k);
    assert(lines.len() == 1) by {
        if lines.len() > 1 {
            let other = if k == 0 {
                1int
            } else {
                0int
            };
            lemma_line_lookup(lines, panel as usize, other);
            assert(shown.contains_key(lines[other].addr));
            if other < k {
                assert(lines[other].addr < lines[k].addr);
            } else {
                assert(lines[k].addr < lines[other].addr);
            }
        }
    }
    assert(lines.drop_last() =~= Seq::<ScreenLine>::empty());
    assert(decoded(e.angle, Seq::<ScreenLine>::empty()) == Seq::<LutEntry>::empty());
    assert(lines.last() == lines[0]);
    lemma_line_of_one(e.angle, lines[0], row, v.2.1, W_PIXELS as int);
    assert(decoded(e.angle, lines) =~= seq![e]);
}

/// What a surface writes depends on the table through its entries alone.
proof fn lemma_same_frames(
    a: LookupTable,
    b: LookupTable,
    surface: Seq<Voxel>,
    angle: u32,
    panel: int,
)
    requires
        forall|p: int, x: int, y: int, z: int|
            #[trigger] a.entry(p, x, y, z) == b.entry(p, x, y, z),
    ensures
        raw_frame(a, surface, angle, panel) == raw_frame(b, surface, angle, panel),
    decreases surface.len(),
{
    if surface.len() > 0 {
        lemma_same_frames(a, b, surface.drop_last(), angle, panel);
        let v = surface.last();
        assert(a.entry(panel, v.0 as int, v.1 as int, v.2.0 as int) == b.entry(
            panel,
            v.0 as int,
            v.1 as int,
            v.2.0 as int,
        ));
    }
}

/// Tables with the same entries give the same schedule: what encodes a
/// surface with one of them encodes it with the other.
pub proof fn lemma_same_entries_same_schedule(
    a: LookupTable,
    b: LookupTable,
    surface: Seq<Voxel>,
    offset: int,
    optimize: bool,
    map: Map<u32, [Vec<ScreenLine>; 3]>,
)
    requires
        forall|p: int, x: int, y: int, z: int|
            #[trigger] a.entry(p, x, y, z) == b.entry(p, x, y, z),
        encodes(a, surface, offset, optimize, map),
    ensures
        encodes(b, surface, offset, optimize, map),
{
    assert forall|angle: u32, panel: int|
        #[trigger] sent(a, surface, offset, optimize, angle, panel) == sent(
            b,
            surface,
            offset,
            optimize,
            angle,
            panel,
        ) by {
        lemma_same_frames(a, b, surface, angle, panel);
    }
    assert forall|angle: u32| #[trigger]
        map.contains_key(angle) <==> angle_lit(b, surface, offset, optimize, angle) by {
        assert(sent(a, surface, offset, optimize, angle, 0) == sent(
            b,
            surface,
            offset,
            optimize,
            angle,
            0,
        ));
        assert(sent(a, surface, offset, optimize, angle, 1) == sent(
            b,
            surface,
            offset,
            optimize,
            angle,
            1,
        ));
        assert(sent(a, surface, offset, optimize, angle, 2) == sent(
            b,
            surface,
            offset,
            optimize,
            angle,
            2,
        ));
        assert(map.contains_key(angle) <==> angle_lit(a, surface, offset, optimize, angle));
    }
}

/// Without realignment and without offset the lines come back as they went
/// in.
pub proof fn lemma_plain_lines_unchanged(
    lines: Seq<ScreenLine>,
    out: Seq<ScreenLine>,
    panel: usize,
)
    requires
        sorted_lines(lines, panel),
        sorted_lines(out, panel),
        lines_view(out) == parsed(lines_view(lines), 0, false),
    ensures
        out == lines,
{
    let m = lines_view(lines);
    assert forall|a: u32| #[trigger] m.contains_key(a) implies m[a].len() == W_PIXELS by {
        lemma_line_lookup(lines, panel, index_of(lines, a));
    }
    lemma_plain_unchanged(m);
    lemma_lines_unique(out, lines, panel);
}

/// Whether voxel `i` of the surface is lit on `panel` at `angle` by the
/// pixel at (`addr`, `row`).
pub open spec fn writes(
    table: LookupTable,
    surface: Seq<Voxel>,
    i: int,
    angle: u32,
    panel: int,
    addr: u32,
    row: int,
) -> bool {
    hit(table, surface[i], panel) matches Some(e) && e.angle == angle && e.column == addr && e.row
        == row
}

/// Whether the pixel at (`addr`, `row`) is written in colour `color` by a
/// voxel of the surface after which no voxel writes it again.
pub open spec fn shown(
    table: LookupTable,
    surface: Seq<Voxel>,
    angle: u32,
    panel: int,
    addr: u32,
    row: int,
    color: PixelColor,
) -> bool {
    exists|i: int|
        {
            &&& 0 <= i < surface.len()
            &&& #[trigger] writes(table, surface, i, angle, panel, addr, row)
            &&& surface[i].2.1 == color
            &&& forall|j: int|
                i < j < surface.len() ==> !#[trigger] writes(
                    table,
                    surface,
                    j,
                    angle,
                    panel,
                    addr,
                    row,
                )
        }
}

/// What the voxels write is exactly the pixels of their entries, nothing
/// missing and nothing added: a pixel holds a colour if and only if a voxel
/// with that colour has it as its entry and no later voxel has.  Every row
/// has the length of a line.
pub proof fn lemma_raw_pixels(
    table: LookupTable,
    surface: Seq<Voxel>,
    angle: u32,
    panel: int,
    addr: u32,
    row: int,
    color: PixelColor,
)
    requires
        table.wf(),
        0 <= row < W_PIXELS,
    ensures
        full_rows(raw_frame(table, surface, angle, panel)),
        (raw_frame(table, surface, angle, panel).contains_key(addr) && raw_frame(
            table,
            surface,
            angle,
            panel,
        )[addr][row] == Some(color)) <==> shown(table, surface, angle, panel, addr, row, color),
    decreases surface.len(),
{
    let raw = raw_frame(table, surface, angle, panel);
    if surface.len() == 0 {
    } else {
        let rest_s = surface.drop_last();
        let rest = raw_frame(table, rest_s, angle, panel);
        let n = surface.len() - 1;
        let v = surface[n];
        lemma_raw_pixels(table, rest_s, angle, panel, addr, row, color);
        assert(table.entry(panel, v.0 as int, v.1 as int, v.2.0 as int) == hit(table, v, panel));
        assert forall|i: int| 0 <= i < n implies writes(table, rest_s, i, angle, panel, addr, row)
            == writes(table, surface, i, angle, panel, addr, row) by {
            assert(rest_s[i] == surface[i]);
        }
        let last = writes(table, surface, n, angle, panel, addr, row);
        if shown(table, rest_s, angle, panel, addr, row, color) && !last {
            let i = choose|i: int|
                {
                    &&& 0 <= i < rest_s.len()
                    &&& #[trigger] writes(table, rest_s, i, angle, panel, addr, row)
                    &&& rest_s[i].2.1 == color
                    &&& forall|j: int|
                        i < j < rest_s.len() ==> !#[trigger] writes(
                            table,
                            rest_s,
                            j,
                            angle,
                            panel,
                            addr,
                            row,
                        )
                };
            assert(writes(table, surface, i, angle, panel, addr, row));
            assert forall|j: int| i < j < surface.len() implies !#[trigger] writes(
                table,
                surface,
                j,
                angle,
                panel,
                addr,
                row,
            ) by {
                if j < n {
                    assert(!writes(table, rest_s, j, angle, panel, addr, row));
                }
            }
            assert(shown(table, surface, angle, panel, addr, row, color));
        }
        if shown(table, surface, angle, panel, addr, row, color) {
            let i = choose|i: int|
                {
                    &&& 0 <= i < surface.len()
                    &&& #[trigger] writes(table, surface, i, angle, panel, addr, row)
                    &&& surface[i].2.1 == color
                    &&& forall|j: int|
                        i < j < surface.len() ==> !#[trigger] writes(
                            table,
                            surface,
                            j,
                            angle,
                            panel,
                            addr,
                            row,
                        )
                };
            if i < n {
                assert(!writes(table, surface, n, angle, panel, addr, row));
                assert(writes(table, rest_s, i, angle, panel, addr, row));
                assert forall|j: int| i < j < rest_s.len() implies !#[trigger] writes(
                    table,
                    rest_s,
                    j,
                    angle,
                    panel,
                    addr,
                    row,
                ) by {
                    assert(!writes(table, surface, j, angle, panel, addr, row));
                }
                assert(shown(table, rest_s, angle, panel, addr, row, color));
            }
        }
        if last && v.2.1 == color {
            assert(shown(table, surface, angle, panel, addr, row, color));
        }
        match hit(table, v, panel) {
            Some(e) => {
                if e.angle == angle {
                    assert(raw == put(rest, e.column, e.row as int, v.2.1));
                    assert(crate::line::row_of(rest, e.column).len() == W_PIXELS);
                }
            },
            None => {},
        }
    }
}

/// Without realignment and without offset the schedule shows what the
/// voxels wrote: the lines of each panel at each angle are the written
/// ones.
pub proof fn lemma_plain_schedule(
    table: LookupTable,
    surface: Seq<Voxel>,
    angle: u32,
    panel: int,
)
    requires
        table.wf(),
    ensures
        sent(table, surface, 0, false, angle, panel) == raw_frame(table, surface, angle, panel),
{
    lemma_raw_pixels(table, surface, angle, panel, 0, 0, 0);
    lemma_plain_unchanged(raw_frame(table, surface, angle, panel));
}

} // verus!

//! What becomes of the lines of one panel at one angle before they are sent
//! out: one pixel per row, the optional realignment of addresses for the
//! LED driver, and the row offset.

use vstd::prelude::*;
use crate::geometry::W_PIXELS;
use crate::line::{
    empty_row, lemma_line_lookup, lines_view, put, row_of, sorted_lines, AddrMap, LineMap,
    PixelColor, Row, ScreenLine,
};

verus! {

/// Rows `i`, `i + TRIPLET_STRIDE` and `i + 2 * TRIPLET_STRIDE` share one
/// timing slot of the LED driver.
pub const TRIPLET_STRIDE: usize = 64;

/// The driver addresses a slot in groups of this many addresses.
pub const ADDR_GROUP: u32 = 16;

/// The highest address that a realigned pixel may be given.
pub const MAX_ALIGNED_ADDR: u32 = 143;

/// Whether the colour's red, green and blue are all zero.
pub open spec fn is_background(color: PixelColor) -> bool {
    color % 0x100_0000 == 0
}

/// Whether the line at `addr` holds the pixel that survives at row `row`:
/// the one at the lowest address.
pub open spec fn owned(m: LineMap, addr: u32, row: int) -> bool {
    &&& m.contains_key(addr)
    &&& m[addr][row] is Some
    &&& forall|b: u32| b < addr && #[trigger] m.contains_key(b) ==> m[b][row] is None
}

/// Whether any line holds a pixel at row `row`.
pub open spec fn row_taken(m: LineMap, row: int) -> bool {
    exists|a: u32| owned(m, a, row)
}

/// The address of the pixel that survives at row `row`.
pub open spec fn owner(m: LineMap, row: int) -> u32 {
    choose|a: u32| owned(m, a, row)
}

/// The colour of the pixel that survives at row `row`.
pub open spec fn row_color(m: LineMap, row: int) -> PixelColor {
    m[owner(m, row)][row]->0
}

/// Whether row `row` holds a pixel that is not background.
pub open spec fn lit(m: LineMap, row: int) -> bool {
    row_taken(m, row) && !is_background(row_color(m, row))
}

/// The row that sets the phase of triplet `slot`: the first lit one of the
/// middle, the low and the high row, in that order.
pub open spec fn reference_row(m: LineMap, slot: int) -> Option<int> {
    if lit(m, slot + TRIPLET_STRIDE) {
        Some(slot + TRIPLET_STRIDE)
    } else if lit(m, slot) {
        Some(slot)
    } else if lit(m, slot + 2 * TRIPLET_STRIDE) {
        Some(slot + 2 * TRIPLET_STRIDE)
    } else {
        None
    }
}

/// The phase of triplet `slot`: the address of its reference row within its
/// group of addresses.
pub open spec fn reference_phase(m: LineMap, slot: int) -> Option<int> {
    match reference_row(m, slot) {
        Some(row) => Some((owner(m, row) as int) % (ADDR_GROUP as int)),
        None => None,
    }
}

/// The shortest step that brings address `h` to phase `phase`, if it is
/// taken without leaving the group of `h`.
pub open spec fn raw_delta(h: int, phase: int) -> int {
    phase - h % (ADDR_GROUP as int)
}

/// The step to the same phase in the neighbouring group.
pub open spec fn alt_delta(h: int, phase: int) -> int {
    if raw_delta(h, phase) > 0 {
        raw_delta(h, phase) - ADDR_GROUP
    } else {
        raw_delta(h, phase) + ADDR_GROUP
    }
}

/// Whether `addr` is an address that a realigned pixel may be given.
pub open spec fn alignable(addr: int) -> bool {
    0 <= addr <= MAX_ALIGNED_ADDR
}

/// Whether the step within the group is longer than half a group, so that
/// the step into the neighbouring group is the shorter one.
pub open spec fn long_step(h: int, phase: int) -> bool {
    let half = (ADDR_GROUP as int) / 2;
    raw_delta(h, phase) > half || raw_delta(h, phase) < -half
}

/// The step that is tried first: the shorter of the two.
pub open spec fn first_delta(h: int, phase: int) -> int {
    if long_step(h, phase) {
        alt_delta(h, phase)
    } else {
        raw_delta(h, phase)
    }
}

/// The step that is tried where the first one leaves the range.
pub open spec fn second_delta(h: int, phase: int) -> int {
    if long_step(h, phase) {
        raw_delta(h, phase)
    } else {
        alt_delta(h, phase)
    }
}

/// Whether some step brings address `h` to phase `phase` and ends in range.
pub open spec fn can_align(h: int, phase: int) -> bool {
    alignable(h + raw_delta(h, phase)) || alignable(h + alt_delta(h, phase))
}

/// The address that a pixel at address `h` is moved to in a triplet of
/// phase `phase`: by the shorter step if that ends in range, else by the
/// other step if that ends in range.  It stays where it is when it has the
/// phase already, and when both steps leave the range.
pub open spec fn aligned_addr(h: int, phase: int) -> int {
    if raw_delta(h, phase) == 0 {
        h
    } else if alignable(h + first_delta(h, phase)) {
        h + first_delta(h, phase)
    } else if alignable(h + second_delta(h, phase)) {
        h + second_delta(h, phase)
    } else {
        h
    }
}

/// The address that the realignment gives the pixel of row `row`.
pub open spec fn target(m: LineMap, row: int) -> int {
    match reference_phase(m, row % (TRIPLET_STRIDE as int)) {
        Some(phase) => aligned_addr(owner(m, row) as int, phase),
        None => owner(m, row) as int,
    }
}

/// Whether the realigned lines have a line at `addr`: there was one before,
/// or a pixel is moved there.
pub open spec fn placed_addr(m: LineMap, addr: u32) -> bool {
    m.contains_key(addr) || exists|row: int|
        0 <= row < W_PIXELS && row_taken(m, row) && #[trigger] target(m, row) == addr
}

/// The pixel of row `row` of the realigned line at `addr`.
pub open spec fn placed_pixel(m: LineMap, addr: u32, row: int) -> Option<PixelColor> {
    if row_taken(m, row) && target(m, row) == addr {
        Some(row_color(m, row))
    } else {
        None
    }
}

/// The realigned line at `addr`.
pub open spec fn placed_row(m: LineMap, addr: u32) -> Row {
    Seq::new(W_PIXELS as nat, |row: int| placed_pixel(m, addr, row))
}

/// The lines after the realignment.  Of the pixels that share a row, the
/// one at the lowest address is kept; it is moved to the address that has
/// the phase of its triplet.
pub open spec fn realigned(m: LineMap) -> LineMap {
    Map::new(|a: u32| placed_addr(m, a), |a: u32| placed_row(m, a))
}

/// The row moved by `offset` places towards higher rows; what would leave
/// the row at one end does not come back at the other.
pub open spec fn shifted(row: Row, offset: int) -> Row {
    Seq::new(
        W_PIXELS as nat,
        |i: int|
            if 0 <= i - offset < W_PIXELS {
                row[i - offset]
            } else {
                None
            },
    )
}

/// The lines with every row moved by `offset` places.
pub open spec fn shifted_lines(m: LineMap, offset: int) -> LineMap {
    Map::new(|a: u32| m.contains_key(a), |a: u32| shifted(m[a], offset))
}

/// The lines that are sent out for the lines `m` of one panel at one angle:
/// realigned if that is asked for, then shifted.
pub open spec fn parsed(m: LineMap, offset: int, optimize: bool) -> LineMap {
    if optimize {
        shifted_lines(realigned(m), offset)
    } else {
        shifted_lines(m, offset)
    }
}

/// Whether the colour's red, green and blue are all zero.
pub fn background(color: PixelColor) -> (b: bool)
    ensures
        b == is_background(color),
{
    color % 0x100_0000 == 0
}

/// The address that a pixel at address `h` is moved to in a triplet of
/// phase `phase`.
pub fn aligned_address(h: u32, phase: u32) -> (addr: u32)
    ensures
        addr == aligned_addr(h as int, phase as int),
{
    let group: i64 = ADDR_GROUP as i64;
    let top: i64 = MAX_ALIGNED_ADDR as i64;
    let raw: i64 = phase as i64 - (h % ADDR_GROUP) as i64;
    if raw == 0 {
        return h;
    }
    let alt: i64 = if raw > 0 {
        raw - group
    } else {
        raw + group
    };
    let long = raw > group / 2 || raw < -(group / 2);
    let first: i64 = if long {
        alt
    } else {
        raw
    };
    let second: i64 = if long {
        raw
    } else {
        alt
    };
    let wide: i64 = h as i64;
    if 0 <= wide + first && wide + first <= top {
        (wide + first) as u32
    } else if 0 <= wide + second && wide + second <= top {
        (wide + second) as u32
    } else {
        h
    }
}

/// The pixel that survives at row `row`, with the address of its line.
spec fn survivor(m: LineMap, row: int) -> Option<(u32, PixelColor)> {
    if row_taken(m, row) {
        Some((owner(m, row), row_color(m, row)))
    } else {
        None
    }
}

/// The lines after the pixels of the rows below `rows` have been placed.
spec fn placed_upto(m: LineMap, rows: int) -> LineMap {
    Map::new(
        |a: u32|
            m.contains_key(a) || exists|row: int|
                0 <= row < rows && row_taken(m, row) && #[trigger] target(m, row) == a,
        |a: u32|
            Seq::new(
                W_PIXELS as nat,
                |row: int|
                    if row < rows {
                        placed_pixel(m, a, row)
                    } else {
                        None
                    },
            ),
    )
}

/// The first pixel at row `row` among the first `n` lines, with the address
/// of its line.
spec fn first_hit(lines: Seq<ScreenLine>, n: int, row: int) -> Option<(u32, PixelColor)>
    decreases n,
{
    if n <= 0 {
        None
    } else {
        match first_hit(lines, n - 1, row) {
            Some(hit) => Some(hit),
            None => match lines[n - 1].pixels@[row] {
                Some(c) => Some((lines[n - 1].addr, c)),
                None => None,
            },
        }
    }
}

/// Where the first pixel at row `row` among the first `n` lines stands.
proof fn lemma_first_hit(lines: Seq<ScreenLine>, n: int, row: int) -> (k: int)
    requires
        0 <= n <= lines.len(),
    ensures
        match first_hit(lines, n, row) {
            Some((a, c)) => {
                &&& 0 <= k < n
                &&& lines[k].addr == a
                &&& lines[k].pixels@[row] == Some(c)
                &&& forall|j: int| 0 <= j < k ==> (#[trigger] lines[j]).pixels@[row] is None
            },
            None => forall|j: int| 0 <= j < n ==> (#[trigger] lines[j]).pixels@[row] is None,
        },
    decreases n,
{
    if n <= 0 {
        0
    } else {
        let k = lemma_first_hit(lines, n - 1, row);
        if first_hit(lines, n - 1, row) is Some {
            k
        } else {
            n - 1
        }
    }
}

/// A row has at most one surviving pixel.
pub proof fn lemma_owner_unique(m: LineMap, a: u32, row: int)
    requires
        owned(m, a, row),
    ensures
        row_taken(m, row),
        owner(m, row) == a,
{
    let b = owner(m, row);
    assert(owned(m, b, row));
    if a < b {
        assert(m.contains_key(a));
    }
    if b < a {
        assert(m.contains_key(b));
    }
}

/// The first pixel of a row among sorted lines is the one that survives.
proof fn lemma_first_hit_survives(lines: Seq<ScreenLine>, panel: usize, row: int)
    requires
        sorted_lines(lines, panel),
        0 <= row < W_PIXELS,
    ensures
        first_hit(lines, lines.len() as int, row) == survivor(lines_view(lines), row),
{
    let m = lines_view(lines);
    let n = lines.len() as int;
    let k = lemma_first_hit(lines, n, row);
    match first_hit(lines, n, row) {
        Some((a, c)) => {
            lemma_line_lookup(lines, panel, k);
            assert forall|b: u32| b < a && #[trigger] m.contains_key(b) implies m[b][row]
                is None by {
                let j = crate::line::index_of(lines, b);
                lemma_line_lookup(lines, panel, j);
                if j > k {
                    assert(lines[k].addr < lines[j].addr);
                }
                assert(lines[j].pixels@[row] is None);
            }
            assert(owned(m, a, row));
            lemma_owner_unique(m, a, row);
        },
        None => {
            if row_taken(m, row) {
                let a = owner(m, row);
                assert(owned(m, a, row));
                let j = crate::line::index_of(lines, a);
                lemma_line_lookup(lines, panel, j);
                assert(lines[j].pixels@[row] is None);
            }
        },
    }
}

/// A realigned address stays on the panel.
pub proof fn lemma_aligned_in_panel(h: int, phase: int)
    requires
        0 <= h < W_PIXELS,
        0 <= phase < ADDR_GROUP,
    ensures
        0 <= aligned_addr(h, phase) < W_PIXELS,
{
}

/// Placing the pixel of one more row.
proof fn lemma_place_step(m: LineMap, row: int)
    requires
        0 <= row < W_PIXELS,
        row_taken(m, row) ==> 0 <= target(m, row) < W_PIXELS,
    ensures
        row_taken(m, row) ==> placed_upto(m, row + 1) == put(
            placed_upto(m, row),
            target(m, row) as u32,
            row,
            row_color(m, row),
        ),
        !row_taken(m, row) ==> placed_upto(m, row + 1) == placed_upto(m, row),
{
    let before = placed_upto(m, row);
    let after = placed_upto(m, row + 1);
    let want = if row_taken(m, row) {
        put(before, target(m, row) as u32, row, row_color(m, row))
    } else {
        before
    };
    assert forall|a: u32| #[trigger] after.contains_key(a) <==> want.contains_key(a) by {
        if after.contains_key(a) && !m.contains_key(a) {
            let q = choose|q: int|
                0 <= q < row + 1 && row_taken(m, q) && #[trigger] target(m, q) == a;
            if q < row {
                assert(before.contains_key(a));
            }
        }
        if before.contains_key(a) && !m.contains_key(a) {
            let q = choose|q: int| 0 <= q < row && row_taken(m, q) && #[trigger] target(m, q) == a;
            assert(0 <= q < row + 1);
        }
        if row_taken(m, row) && a == target(m, row) {
            assert(after.contains_key(a));
        }
    }
    assert forall|a: u32| #[trigger] after.contains_key(a) implies after[a] =~= want[a] by {
        if row_taken(m, row) && a == target(m, row) && !before.contains_key(a) {
            assert(row_of(before, a) =~= empty_row());
        }
    }
    assert(after =~= want);
}

/// Sorted lines whose rows are each shifted are the shifted map.
proof fn lemma_shift_view(
    lines: Seq<ScreenLine>,
    moved: Seq<ScreenLine>,
    panel: usize,
    offset: int,
)
    requires
        sorted_lines(lines, panel),
        moved.len() == lines.len(),
        forall|k: int|
            0 <= k < lines.len() ==> {
                &&& (#[trigger] moved[k]).screen_idx == panel
                &&& moved[k].addr == lines[k].addr
                &&& moved[k].pixels@ == shifted(lines[k].pixels@, offset)
            },
    ensures
        sorted_lines(moved, panel),
        lines_view(moved) == shifted_lines(lines_view(lines), offset),
{
    let want = shifted_lines(lines_view(lines), offset);
    assert(sorted_lines(moved, panel)) by {
        assert forall|i: int, j: int| 0 <= i < j < moved.len() implies (#[trigger] moved[i]).addr
            < (#[trigger] moved[j]).addr by {
            assert(lines[i].addr < lines[j].addr);
        }
        assert forall|k: int| 0 <= k < moved.len() implies (#[trigger] moved[k]).screen_idx
            == panel && moved[k].addr < W_PIXELS by {
            assert(lines[k].addr < W_PIXELS);
        }
    }
    assert forall|a: u32| #[trigger] lines_view(moved).contains_key(a) <==> want.contains_key(
        a,
    ) by {
        if crate::line::has_addr(moved, a) {
            let k = crate::line::index_of(moved, a);
            assert(lines[k].addr == a);
        }
        if crate::line::has_addr(lines, a) {
            let k = crate::line::index_of(lines, a);
            assert(moved[k].addr == a);
        }
    }
    assert forall|a: u32| #[trigger] lines_view(moved).contains_key(a) implies lines_view(moved)[a]
        == want[a] by {
        let k = crate::line::index_of(moved, a);
        lemma_line_lookup(moved, panel, k);
        lemma_line_lookup(lines, panel, k);
    }
    assert(lines_view(moved) =~= want);
}

/// Moves the pixels of a row by `offset` places towards higher rows and
/// leaves empty the places that nothing is moved into.
pub fn shift_pixels(pixels: &[Option<PixelColor>; W_PIXELS], offset: i32) -> (out: [Option<
    PixelColor,
>; W_PIXELS])
    ensures
        out@ == shifted(pixels@, offset as int),
{
    let mut out: [Option<PixelColor>; W_PIXELS] = [None; W_PIXELS];
    for i in 0..W_PIXELS
        invariant
            forall|q: int| 0 <= q < i ==> out@[q] == shifted(pixels@, offset as int)[q],
            forall|q: int| i <= q < W_PIXELS ==> out@[q] is None,
    {
        let src: i64 = i as i64 - offset as i64;
        if 0 <= src && src < W_PIXELS as i64 {
            out[i] = pixels[src as usize];
        }
    }
    assert(out@ =~= shifted(pixels@, offset as int));
    out
}

/// For each row the pixel that survives: the one in the line at the lowest
/// address.
fn survivors(addr_map: &AddrMap) -> (info: [Option<(u32, PixelColor)>; W_PIXELS])
    requires
        addr_map.wf(),
    ensures
        forall|row: int| 0 <= row < W_PIXELS ==> info@[row] == survivor(addr_map@, row),
{
    let lines = addr_map.as_lines();
    let mut info: [Option<(u32, PixelColor)>; W_PIXELS] = [None; W_PIXELS];
    let n = lines.len();
    for k in 0..n
        invariant
            n == lines@.len(),
            forall|row: int| 0 <= row < W_PIXELS ==> info@[row] == first_hit(lines@, k as int, row),
    {
        for r in 0..W_PIXELS
            invariant
                k < n,
                n == lines@.len(),
                forall|q: int| 0 <= q < r ==> info@[q] == first_hit(lines@, k + 1, q),
                forall|q: int| r <= q < W_PIXELS ==> info@[q] == first_hit(lines@, k as int, q),
        {
            if info[r].is_none() {
                match lines[k].pixels[r] {
                    Some(c) => {
                        info[r] = Some((lines[k].addr, c));
                    },
                    None => {},
                }
            }
        }
    }
    proof {
        assert forall|row: int| 0 <= row < W_PIXELS implies info@[row] == survivor(
            addr_map@,
            row,
        ) by {
            lemma_first_hit_survives(lines@, addr_map.screen(), row);
        }
    }
    info
}

/// The address within its group of the pixel that survives at row `row`, if
/// that pixel is not background.
fn lit_phase(
    info: &[Option<(u32, PixelColor)>; W_PIXELS],
    row: usize,
    Ghost(m): Ghost<LineMap>,
) -> (phase: Option<u32>)
    requires
        row < W_PIXELS,
        forall|q: int| 0 <= q < W_PIXELS ==> info@[q] == survivor(m, q),
    ensures
        phase is Some == lit(m, row as int),
        phase matches Some(p) ==> p == owner(m, row as int) % ADDR_GROUP,
{
    assert(info@[row as int] == survivor(m, row as int));
    match info[row] {
        Some((h, c)) => {
            if background(c) {
                None
            } else {
                Some(h % ADDR_GROUP)
            }
        },
        None => None,
    }
}

/// The phase of triplet `slot`, read from the surviving pixels.
fn phase_of(
    info: &[Option<(u32, PixelColor)>; W_PIXELS],
    slot: usize,
    Ghost(m): Ghost<LineMap>,
) -> (phase: Option<u32>)
    requires
        slot < TRIPLET_STRIDE,
        forall|row: int| 0 <= row < W_PIXELS ==> info@[row] == survivor(m, row),
    ensures
        phase matches Some(p) ==> p < ADDR_GROUP,
        match phase {
            Some(p) => reference_phase(m, slot as int) == Some(p as int),
            None => reference_phase(m, slot as int) is None,
        },
{
    let middle = lit_phase(info, slot + TRIPLET_STRIDE, Ghost(m));
    if middle.is_some() {
        return middle;
    }
    let low = lit_phase(info, slot, Ghost(m));
    if low.is_some() {
        return low;
    }
    lit_phase(info, slot + 2 * TRIPLET_STRIDE, Ghost(m))
}

/// The realignment for the LED driver.  Of the pixels that share a row only
/// the one at the lowest address is kept.  In each triplet of rows that
/// has a lit pixel, every pixel is moved to the address of the reference
/// row's phase that the shorter step reaches, or the other step where the
/// shorter one leaves the range; it stays where both leave it.  Lines that
/// lose their pixels stay as empty lines.
pub fn realign(addr_map: AddrMap) -> (out: AddrMap)
    requires
        addr_map.wf(),
    ensures
        out.wf(),
        out.screen() == addr_map.screen(),
        out@ == realigned(addr_map@),
{
    let ghost m = addr_map@;
    let info = survivors(&addr_map);
    let lines = addr_map.as_lines();
    let n = lines.len();
    let mut placed = AddrMap::new(addr_map.screen_idx());
    for k in 0..n
        invariant
            n == lines@.len(),
            lines@ == addr_map.lines(),
            addr_map.wf(),
            m == addr_map@,
            placed.wf(),
            placed.screen() == addr_map.screen(),
            placed@ == Map::new(
                |a: u32| exists|j: int| 0 <= j < k && (#[trigger] lines@[j]).addr == a,
                |a: u32| empty_row(),
            ),
    {
        let ghost before = placed@;
        let added = placed.touch(lines[k].addr);
        proof {
            let after = Map::new(
                |a: u32| exists|j: int| 0 <= j < k + 1 && (#[trigger] lines@[j]).addr == a,
                |a: u32| empty_row(),
            );
            assert(lines@[k as int].addr < W_PIXELS);
            assert(added);
            assert forall|a: u32| #[trigger] placed@.contains_key(a) <==> after.contains_key(a) by {
                if before.contains_key(a) {
                    let j = choose|j: int| 0 <= j < k && (#[trigger] lines@[j]).addr == a;
                    assert(0 <= j < k + 1);
                }
                if a == lines@[k as int].addr {
                    assert(after.contains_key(a));
                }
                if after.contains_key(a) && a != lines@[k as int].addr {
                    let j = choose|j: int| 0 <= j < k + 1 && (#[trigger] lines@[j]).addr == a;
                    assert(0 <= j < k);
                }
            }
            assert(placed@ =~= after);
        }
    }
    proof {
        let blank = placed_upto(m, 0);
        assert forall|a: u32| #[trigger] placed@.contains_key(a) <==> blank.contains_key(a) by {
            if placed@.contains_key(a) {
                let j = choose|j: int| 0 <= j < n && (#[trigger] lines@[j]).addr == a;
                lemma_line_lookup(lines@, addr_map.screen(), j);
            }
            if m.contains_key(a) {
                let j = crate::line::index_of(lines@, a);
                assert(lines@[j].addr == a);
            }
        }
        assert forall|a: u32| #[trigger] placed@.contains_key(a) implies placed@[a]
            =~= blank[a] by {}
        assert(placed@ =~= blank);
    }
    for r in 0..W_PIXELS
        invariant
            m == addr_map@,
            addr_map.wf(),
            placed.wf(),
            placed.screen() == addr_map.screen(),
            forall|row: int| 0 <= row < W_PIXELS ==> info@[row] == survivor(m, row),
            placed@ == placed_upto(m, r as int),
    {
        assert(info@[r as int] == survivor(m, r as int));
        match info[r] {
            Some((h, c)) => {
                assert(row_taken(m, r as int));
                assert(owned(m, h, r as int));
                proof {
                    let j = crate::line::index_of(addr_map.lines(), h);
                    assert(addr_map.lines()[j].addr < W_PIXELS);
                }
                let t = match phase_of(&info, r % TRIPLET_STRIDE, Ghost(m)) {
                    Some(phase) => {
                        proof {
                            lemma_aligned_in_panel(h as int, phase as int);
                        }
                        aligned_address(h, phase)
                    },
                    None => h,
                };
                assert(t == target(m, r as int));
                proof {
                    lemma_place_step(m, r as int);
                }
                let written = placed.set(t, r, c);
                assert(written);
            },
            None => {
                proof {
                    lemma_place_step(m, r as int);
                }
            },
        }
    }
    proof {
        let full = placed_upto(m, W_PIXELS as int);
        assert forall|a: u32| #[trigger] full.contains_key(a) implies full[a] =~= realigned(
            m,
        )[a] by {}
        assert(full =~= realigned(m));
    }
    placed
}

/// Turns the lines that one panel shows at one angle into the lines that are
/// sent out.  With `optimze_speed_for_mbi5264` the lines are realigned for
/// the LED driver first, see [`realign`]; without it they stay as they are.
/// Then every line is shifted by `pixel_offset` rows.
pub fn parse_addr_map(
    addr_map: AddrMap,
    pixel_offset: i32,
    optimze_speed_for_mbi5264: bool,
) -> (out: Vec<ScreenLine>)
    requires
        addr_map.wf(),
    ensures
        sorted_lines(out@, addr_map.screen()),
        lines_view(out@) == parsed(addr_map@, pixel_offset as int, optimze_speed_for_mbi5264),
{
    let panel = addr_map.screen_idx();
    let settled = if optimze_speed_for_mbi5264 {
        realign(addr_map).into_lines()
    } else {
        addr_map.into_lines()
    };
    let count = settled.len();
    let mut out: Vec<ScreenLine> = Vec::with_capacity(count);
    for k in 0..count
        invariant
            count == settled@.len(),
            out@.len() == k,
            forall|j: int|
                0 <= j < k ==> {
                    &&& (#[trigger] out@[j]).screen_idx == panel
                    &&& out@[j].addr == settled@[j].addr
                    &&& out@[j].pixels@ == shifted(settled@[j].pixels@, pixel_offset as int)
                },
    {
        let line = ScreenLine {
            screen_idx: panel,
            addr: settled[k].addr,
            pixels: shift_pixels(&settled[k].pixels, pixel_offset),
        };
        out.push(line);
    }
    proof {
        lemma_shift_view(settled@, out@, panel, pixel_offset as int);
    }
    out
}

/// A realigned address has the phase asked for, or is the old address
/// because both steps to that phase leave the range.
pub proof fn lemma_aligned_phase(h: int, phase: int)
    requires
        0 <= h,
        0 <= phase < ADDR_GROUP,
    ensures
        aligned_addr(h, phase) % (ADDR_GROUP as int) == phase || (aligned_addr(h, phase) == h
            && !can_align(h, phase)),
        h % (ADDR_GROUP as int) == phase ==> aligned_addr(h, phase) == h,
        aligned_addr(h, phase) != h ==> alignable(aligned_addr(h, phase)),
{
}

/// The realigned lines hold one pixel for each row that held any: the pixel
/// that survived, in its colour, at the address it was moved to.
pub proof fn lemma_realigned_rows(m: LineMap, row: int)
    requires
        0 <= row < W_PIXELS,
    ensures
        row_taken(realigned(m), row) == row_taken(m, row),
        row_taken(m, row) ==> {
            &&& owner(realigned(m), row) == target(m, row)
            &&& row_color(realigned(m), row) == row_color(m, row)
            &&& forall|a: u32|
                #[trigger] realigned(m).contains_key(a) && realigned(m)[a][row] is Some ==> a
                    == owner(realigned(m), row)
        },
{
    let out = realigned(m);
    if row_taken(m, row) {
        let h = owner(m, row);
        assert(owned(m, h, row));
        let t = target(m, row);
        assert(0 <= t <= u32::MAX) by {
            if reference_phase(m, row % (TRIPLET_STRIDE as int)) is Some {
                let phase = reference_phase(m, row % (TRIPLET_STRIDE as int))->0;
                lemma_aligned_phase(h as int, phase);
            }
        }
        let a = t as u32;
        assert(placed_addr(m, a));
        assert(out.contains_key(a));
        assert(owned(out, a, row));
        lemma_owner_unique(out, a, row);
    }
    if row_taken(out, row) {
        let a = owner(out, row);
        assert(owned(out, a, row));
    }
}

/// What is sent out with the realignment and without offset is the
/// realigned lines.
pub proof fn lemma_parsed_realigned(m: LineMap)
    ensures
        parsed(m, 0, true) == realigned(m),
{
    assert forall|a: u32| #[trigger] realigned(m).contains_key(a) implies parsed(m, 0, true)[a]
        =~= realigned(m)[a] by {}
    assert(parsed(m, 0, true) =~= realigned(m));
}

/// After the realignment, in every triplet that has a lit row, every pixel
/// of the triplet stands at an address of the phase of the reference row, or
/// where it stood if both steps to that phase leave the range; the pixel of
/// the reference row stands where it stood.
pub proof fn lemma_alignment_closure(m: LineMap, row: int)
    requires
        0 <= row < W_PIXELS,
        row_taken(parsed(m, 0, true), row),
        reference_row(parsed(m, 0, true), row % (TRIPLET_STRIDE as int)) is Some,
    ensures
        ({
            let out = parsed(m, 0, true);
            let reference = reference_row(out, row % (TRIPLET_STRIDE as int))->0;
            let phase = (owner(out, reference) as int) % (ADDR_GROUP as int);
            &&& reference_row(m, row % (TRIPLET_STRIDE as int)) == Some(reference)
            &&& owner(out, reference) == owner(m, reference)
            &&& owner(out, row) % ADDR_GROUP == phase || (owner(out, row) == owner(m, row)
                && !can_align(owner(m, row) as int, phase))
        }),
{
    lemma_parsed_realigned(m);
    let out = realigned(m);
    let slot = row % (TRIPLET_STRIDE as int);
    lemma_realigned_rows(m, slot);
    lemma_realigned_rows(m, slot + TRIPLET_STRIDE);
    lemma_realigned_rows(m, slot + 2 * TRIPLET_STRIDE);
    lemma_realigned_rows(m, row);
    let reference = reference_row(out, slot)->0;
    assert(reference_row(m, slot) == Some(reference));
    let stood = owner(m, reference) as int;
    let phase = stood % (ADDR_GROUP as int);
    assert(reference_phase(m, slot) == Some(phase));
    assert(reference_phase(m, reference % (TRIPLET_STRIDE as int)) == Some(phase));
    lemma_aligned_phase(stood, phase);
    lemma_aligned_phase(owner(m, row) as int, phase);
}

/// Whether every row of the map has the length of a line.
pub open spec fn full_rows(m: LineMap) -> bool {
    forall|a: u32| #[trigger] m.contains_key(a) ==> m[a].len() == W_PIXELS
}

/// Without realignment and without offset the lines are sent out as they
/// are.
pub proof fn lemma_plain_unchanged(m: LineMap)
    requires
        full_rows(m),
    ensures
        parsed(m, 0, false) == m,
{
    assert forall|a: u32| #[trigger] m.contains_key(a) implies parsed(m, 0, false)[a] =~= m[a] by {}
    assert(parsed(m, 0, false) =~= m);
}

/// The row offset moves every pixel by `offset` rows and nothing else: the
/// lines stay at their addresses, the pixel of row `i` comes from row
/// `i - offset`, and rows that nothing is moved into are empty.
pub proof fn lemma_offset_law(m: LineMap, offset: int, optimize: bool)
    ensures
        parsed(m, offset, optimize).dom() == parsed(m, 0, optimize).dom(),
        forall|a: u32|
            parsed(m, 0, optimize).contains_key(a) ==> #[trigger] parsed(m, offset, optimize)[a]
                == shifted(parsed(m, 0, optimize)[a], offset),
        forall|a: u32, i: int|
            parsed(m, 0, optimize).contains_key(a) && 0 <= i < W_PIXELS ==> #[trigger] parsed(
                m,
                offset,
                optimize,
            )[a][i] == if 0 <= i - offset < W_PIXELS {
                parsed(m, 0, optimize)[a][i - offset]
            } else {
                None
            },
        forall|a: u32, i: int|
            parsed(m, 0, optimize).contains_key(a) && 0 <= i < W_PIXELS && (i < offset || i
                >= W_PIXELS + offset) ==> (#[trigger] parsed(m, offset, optimize)[a][i]) is None,
{
    assert(parsed(m, offset, optimize).dom() =~= parsed(m, 0, optimize).dom());
    assert forall|a: u32| parsed(m, 0, optimize).contains_key(a) implies #[trigger] parsed(
        m,
        offset,
        optimize,
    )[a] =~= shifted(parsed(m, 0, optimize)[a], offset) by {}
}

} // verus!

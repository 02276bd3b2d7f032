//! Scan lines, and the address-ordered collection of the scan lines that one
//! panel shows at one angle.

use vstd::prelude::*;
use crate::geometry::W_PIXELS;

verus! {

/// A packed colour: red in the lowest byte, then green, then blue; the highest
/// byte is reserved.
pub type PixelColor = u32;

/// The pixels of one scan line, by row.
pub type Row = Seq<Option<PixelColor>>;

/// The scan lines of one panel at one angle, by address.
pub type LineMap = Map<u32, Row>;

/// Everything that one panel shows on one scan line at one angle.
#[derive(Debug, Copy, Clone, PartialEq)]
pub struct ScreenLine {
    pub screen_idx: usize,
    pub addr: u32,
    pub pixels: [Option<PixelColor>; W_PIXELS],
}

/// A row without any pixel.
pub open spec fn empty_row() -> Row {
    Seq::new(W_PIXELS as nat, |i: int| None)
}

/// The lines all belong to `panel`, have addresses below `W_PIXELS`, and
/// stand in strictly increasing order of address.
pub open spec fn sorted_lines(lines: Seq<ScreenLine>, panel: usize) -> bool {
    &&& forall|k: int|
        0 <= k < lines.len() ==> (#[trigger] lines[k]).screen_idx == panel && lines[k].addr
            < W_PIXELS
    &&& forall|i: int, j: int|
        0 <= i < j < lines.len() ==> (#[trigger] lines[i]).addr < (#[trigger] lines[j]).addr
}

/// Whether one of the lines has address `addr`.
pub open spec fn has_addr(lines: Seq<ScreenLine>, addr: u32) -> bool {
    exists|k: int| 0 <= k < lines.len() && (#[trigger] lines[k]).addr == addr
}

/// The position of the line with address `addr`.
pub open spec fn index_of(lines: Seq<ScreenLine>, addr: u32) -> int {
    choose|k: int| 0 <= k < lines.len() && (#[trigger] lines[k]).addr == addr
}

/// The lines as a map from address to row.
pub open spec fn lines_view(lines: Seq<ScreenLine>) -> LineMap {
    Map::new(|a: u32| has_addr(lines, a), |a: u32| lines[index_of(lines, a)].pixels@)
}

/// The row at `addr`, empty where the map has no line there.
pub open spec fn row_of(m: LineMap, addr: u32) -> Row {
    if m.contains_key(addr) {
        m[addr]
    } else {
        empty_row()
    }
}

/// The map after `color` has been written at (`addr`, `row`).
pub open spec fn put(m: LineMap, addr: u32, row: int, color: PixelColor) -> LineMap {
    m.insert(addr, row_of(m, addr).update(row, Some(color)))
}

/// In sorted lines an address determines its line.
pub proof fn lemma_line_lookup(lines: Seq<ScreenLine>, panel: usize, k: int)
    requires
        sorted_lines(lines, panel),
        0 <= k < lines.len(),
    ensures
        has_addr(lines, lines[k].addr),
        index_of(lines, lines[k].addr) == k,
        lines_view(lines).contains_key(lines[k].addr),
        lines_view(lines)[lines[k].addr] == lines[k].pixels@,
{
    let a = lines[k].addr;
    let j = index_of(lines, a);
    assert(0 <= j < lines.len() && lines[j].addr == a);
    if j < k {
        assert(lines[j].addr < lines[k].addr);
    }
    if k < j {
        assert(lines[k].addr < lines[j].addr);
    }
}

/// Sorted lines with the same addresses have them at the same places.
pub proof fn lemma_same_addrs(a: Seq<ScreenLine>, b: Seq<ScreenLine>, panel: usize)
    requires
        sorted_lines(a, panel),
        sorted_lines(b, panel),
        lines_view(a).dom() == lines_view(b).dom(),
    ensures
        a.len() == b.len(),
        forall|i: int| 0 <= i < a.len() ==> (#[trigger] a[i]).addr == b[i].addr,
    decreases a.len(),
{
    if a.len() == 0 {
        if b.len() > 0 {
            lemma_line_lookup(b, panel, 0);
            assert(lines_view(a).dom().contains(b[0].addr));
            assert(lines_view(a).contains_key(b[0].addr));
        }
    } else {
        let n = a.len() - 1;
        lemma_line_lookup(a, panel, n);
        assert(lines_view(b).dom().contains(a[n].addr));
        assert(lines_view(b).contains_key(a[n].addr));
        let m = b.len() - 1;
        lemma_line_lookup(b, panel, m);
        assert(lines_view(a).dom().contains(b[m].addr));
        assert(lines_view(a).contains_key(b[m].addr));
        let ja = index_of(a, b[m].addr);
        let jb = index_of(b, a[n].addr);
        assert(a[n].addr == b[m].addr) by {
            if ja < n {
                assert(a[ja].addr < a[n].addr);
            }
            if jb < m {
                assert(b[jb].addr < b[m].addr);
            }
        }
        let a0 = a.drop_last();
        let b0 = b.drop_last();
        assert(sorted_lines(a0, panel));
        assert(sorted_lines(b0, panel));
        lemma_drop_last_view(a, panel);
        lemma_drop_last_view(b, panel);
        assert(lines_view(a0).dom() =~= lines_view(b0).dom());
        lemma_same_addrs(a0, b0, panel);
        assert forall|i: int| 0 <= i < a.len() implies (#[trigger] a[i]).addr == b[i].addr by {
            if i < n {
                assert(a0[i].addr == b0[i].addr);
            }
        }
    }
}

/// Sorted lines are determined by their map from address to row.
pub proof fn lemma_lines_unique(a: Seq<ScreenLine>, b: Seq<ScreenLine>, panel: usize)
    requires
        sorted_lines(a, panel),
        sorted_lines(b, panel),
        lines_view(a) == lines_view(b),
    ensures
        a == b,
{
    lemma_same_addrs(a, b, panel);
    assert forall|i: int| 0 <= i < a.len() implies a[i] == b[i] by {
        lemma_line_lookup(a, panel, i);
        lemma_line_lookup(b, panel, i);
        assert(a[i].pixels@ == b[i].pixels@);
        assert(a[i].pixels == b[i].pixels);
    }
    assert(a =~= b);
}

/// Dropping the last of sorted lines removes its address from the map and
/// changes nothing else.
proof fn lemma_drop_last_view(lines: Seq<ScreenLine>, panel: usize)
    requires
        sorted_lines(lines, panel),
        lines.len() > 0,
    ensures
        lines_view(lines.drop_last()) == lines_view(lines).remove(lines.last().addr),
{
    let rest = lines.drop_last();
    let n = lines.len() - 1;
    assert(sorted_lines(rest, panel));
    assert forall|a: u32| #[trigger]
        lines_view(rest).contains_key(a) <==> lines_view(lines).remove(lines[n].addr).contains_key(
            a,
        ) by {
        if has_addr(rest, a) {
            let k = index_of(rest, a);
            assert(lines[k].addr == a);
            assert(lines[k].addr < lines[n].addr);
        }
        if has_addr(lines, a) && a != lines[n].addr {
            let k = index_of(lines, a);
            assert(rest[k].addr == a);
        }
    }
    assert forall|a: u32| #[trigger] lines_view(rest).contains_key(a) implies lines_view(rest)[a]
        == lines_view(lines).remove(lines[n].addr)[a] by {
        let k = index_of(rest, a);
        lemma_line_lookup(rest, panel, k);
        lemma_line_lookup(lines, panel, k);
    }
    assert(lines_view(rest) =~= lines_view(lines).remove(lines[n].addr));
}

/// Replacing the pixels of one of the sorted lines writes that row into the map.
proof fn lemma_view_update(
    lines: Seq<ScreenLine>,
    panel: usize,
    k: int,
    line: ScreenLine,
    row: int,
    color: PixelColor,
)
    requires
        sorted_lines(lines, panel),
        0 <= k < lines.len(),
        0 <= row < W_PIXELS,
        line.screen_idx == panel,
        line.addr == lines[k].addr,
        line.pixels@ == lines[k].pixels@.update(row, Some(color)),
    ensures
        sorted_lines(lines.update(k, line), panel),
        lines_view(lines.update(k, line)) == put(lines_view(lines), line.addr, row, color),
{
    let after = lines.update(k, line);
    let want = put(lines_view(lines), line.addr, row, color);
    assert(sorted_lines(after, panel));
    lemma_line_lookup(lines, panel, k);
    assert forall|a: u32| #[trigger] lines_view(after).contains_key(a) <==> want.contains_key(
        a,
    ) by {
        if has_addr(after, a) {
            let j = index_of(after, a);
            assert(lines[j].addr == a);
        }
        if has_addr(lines, a) {
            let j = index_of(lines, a);
            assert(after[j].addr == a);
        }
        if a == line.addr {
            assert(after[k].addr == a);
        }
    }
    assert forall|a: u32| #[trigger] lines_view(after).contains_key(a) implies lines_view(after)[a]
        == want[a] by {
        let j = index_of(after, a);
        lemma_line_lookup(after, panel, j);
        lemma_line_lookup(lines, panel, j);
    }
    assert(lines_view(after) =~= want);
}

/// Inserting a line without pixels at its place among the sorted lines adds
/// an empty row to the map.
proof fn lemma_view_insert(lines: Seq<ScreenLine>, panel: usize, pos: int, line: ScreenLine)
    requires
        sorted_lines(lines, panel),
        0 <= pos <= lines.len(),
        line.screen_idx == panel,
        line.addr < W_PIXELS,
        forall|j: int| 0 <= j < pos ==> (#[trigger] lines[j]).addr < line.addr,
        forall|j: int| pos <= j < lines.len() ==> (#[trigger] lines[j]).addr > line.addr,
        line.pixels@ == empty_row(),
    ensures
        sorted_lines(lines.insert(pos, line), panel),
        !lines_view(lines).contains_key(line.addr),
        lines_view(lines.insert(pos, line)) == lines_view(lines).insert(line.addr, empty_row()),
{
    let after = lines.insert(pos, line);
    let want = lines_view(lines).insert(line.addr, empty_row());
    assert(sorted_lines(after, panel)) by {
        assert forall|i: int, j: int| 0 <= i < j < after.len() implies (#[trigger] after[i]).addr
            < (#[trigger] after[j]).addr by {
            let oi = if i < pos {
                i
            } else {
                i - 1
            };
            let oj = if j < pos {
                j
            } else {
                j - 1
            };
            if i != pos && j != pos {
                assert(lines[oi].addr < lines[oj].addr);
            } else if i == pos {
                assert(lines[oj].addr > line.addr);
            } else {
                assert(lines[oi].addr < line.addr);
            }
        }
    }
    assert(!has_addr(lines, line.addr)) by {
        if has_addr(lines, line.addr) {
            let j = index_of(lines, line.addr);
            if j < pos {
                assert(lines[j].addr < line.addr);
            } else {
                assert(lines[j].addr > line.addr);
            }
        }
    }
    assert forall|a: u32| #[trigger] lines_view(after).contains_key(a) <==> want.contains_key(
        a,
    ) by {
        if has_addr(after, a) && a != line.addr {
            let j = index_of(after, a);
            let oj = if j < pos {
                j
            } else {
                j - 1
            };
            assert(lines[oj].addr == a);
        }
        if has_addr(lines, a) {
            let j = index_of(lines, a);
            let nj = if j < pos {
                j
            } else {
                j + 1
            };
            assert(after[nj].addr == a);
        }
        if a == line.addr {
            assert(after[pos].addr == a);
        }
    }
    assert forall|a: u32| #[trigger] lines_view(after).contains_key(a) implies lines_view(after)[a]
        == want[a] by {
        let j = index_of(after, a);
        lemma_line_lookup(after, panel, j);
        if j != pos {
            let oj = if j < pos {
                j
            } else {
                j - 1
            };
            lemma_line_lookup(lines, panel, oj);
        }
    }
    assert(lines_view(after) =~= want);
}

/// The scan lines that one panel shows at one angle, in order of address.
pub struct AddrMap {
    screen_idx: usize,
    lines: Vec<ScreenLine>,
}

impl AddrMap {
    /// The panel that the lines belong to.
    pub closed spec fn screen(&self) -> usize {
        self.screen_idx
    }

    /// The lines, in order of address.
    pub closed spec fn lines(&self) -> Seq<ScreenLine> {
        self.lines@
    }

    /// The lines are in order and belong to the panel.
    pub open spec fn wf(&self) -> bool {
        sorted_lines(self.lines(), self.screen())
    }

    /// The lines as a map from address to row.  The panel is not part of
    /// it: `screen()` gives it, and `wf()` says that every line has it.
    pub open spec fn view(&self) -> LineMap {
        lines_view(self.lines())
    }

    /// A collection without lines for panel `screen_idx`.
    pub fn new(screen_idx: usize) -> (m: AddrMap)
        ensures
            m.wf(),
            m.screen() == screen_idx,
            m.lines() == Seq::<ScreenLine>::empty(),
            m@ == LineMap::empty(),
    {
        let m = AddrMap { screen_idx, lines: Vec::new() };
        assert(m@ =~= LineMap::empty());
        m
    }

    /// The panel that the lines belong to.
    pub fn screen_idx(&self) -> (idx: usize)
        ensures
            idx == self.screen(),
    {
        self.screen_idx
    }

    /// The position of the line at `addr`, which is added without pixels if
    /// it is not there yet.
    fn slot(&mut self, addr: u32) -> (pos: usize)
        requires
            old(self).wf(),
            addr < W_PIXELS,
        ensures
            final(self).wf(),
            final(self).screen() == old(self).screen(),
            pos < final(self).lines().len(),
            final(self).lines()[pos as int].addr == addr,
            final(self)@ == old(self)@.insert(addr, row_of(old(self)@, addr)),
    {
        let n = self.lines.len();
        let mut pos: usize = 0;
        while pos < n && self.lines[pos].addr < addr
            invariant
                n == self.lines@.len(),
                pos <= n,
                self.lines@ == old(self).lines@,
                self.screen_idx == old(self).screen_idx,
                forall|j: int| 0 <= j < pos ==> (#[trigger] self.lines@[j]).addr < addr,
            decreases n - pos,
        {
            pos = pos + 1;
        }
        if pos < n && self.lines[pos].addr == addr {
            proof {
                lemma_line_lookup(self.lines@, self.screen_idx, pos as int);
                assert(self@ =~= old(self)@.insert(addr, row_of(old(self)@, addr)));
            }
        } else {
            let line = ScreenLine { screen_idx: self.screen_idx, addr, pixels: [None; W_PIXELS] };
            assert(line.pixels@ =~= empty_row());
            proof {
                let before = self.lines@;
                assert forall|j: int| pos <= j < before.len() implies (#[trigger] before[j]).addr
                    > addr by {
                    if j > pos {
                        assert(before[pos as int].addr < before[j].addr);
                    }
                }
                lemma_view_insert(before, self.screen_idx, pos as int, line);
            }
            self.lines.insert(pos, line);
        }
        pos
    }

    /// Makes sure that there is a line at `addr`, adding one without pixels
    /// if need be.  Returns `false`, and changes nothing, when the address
    /// lies outside the panel.
    pub fn touch(&mut self, addr: u32) -> (done: bool)
        requires
            old(self).wf(),
        ensures
            final(self).wf(),
            final(self).screen() == old(self).screen(),
            done == (addr < W_PIXELS),
            done ==> final(self)@ == old(self)@.insert(addr, row_of(old(self)@, addr)),
            !done ==> final(self).lines() == old(self).lines(),
    {
        if addr as usize >= W_PIXELS {
            return false;
        }
        let _ = self.slot(addr);
        true
    }

    /// Writes `color` at row `row` of the line at `addr`, adding the line if
    /// it is not there yet.  Returns `false`, and changes nothing, when the
    /// address or the row lies outside the panel.
    pub fn set(&mut self, addr: u32, row: usize, color: PixelColor) -> (done: bool)
        requires
            old(self).wf(),
        ensures
            final(self).wf(),
            final(self).screen() == old(self).screen(),
            done == (addr < W_PIXELS && row < W_PIXELS),
            done ==> final(self)@ == put(old(self)@, addr, row as int, color),
            !done ==> final(self).lines() == old(self).lines(),
    {
        if addr as usize >= W_PIXELS || row >= W_PIXELS {
            return false;
        }
        let pos = self.slot(addr);
        let ghost before = self.lines@;
        proof {
            lemma_line_lookup(before, self.screen_idx, pos as int);
        }
        self.lines[pos].pixels[row] = Some(color);
        proof {
            lemma_view_update(
                before,
                self.screen_idx,
                pos as int,
                self.lines@[pos as int],
                row as int,
                color,
            );
            assert(self.lines@ =~= before.update(pos as int, self.lines@[pos as int]));
            assert(self@ =~= put(old(self)@, addr, row as int, color));
        }
        true
    }

    /// The lines, in order of address.
    pub fn as_lines(&self) -> (lines: &Vec<ScreenLine>)
        ensures
            lines@ == self.lines(),
    {
        &self.lines
    }

    /// The lines, in order of address.
    pub fn into_lines(self) -> (lines: Vec<ScreenLine>)
        ensures
            lines@ == self.lines(),
    {
        self.lines
    }
}

} // verus!

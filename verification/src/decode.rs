//! From scan lines back to the panel pixels that they light.

use vstd::prelude::*;
use vstd::std_specs::iter::IteratorSpec;
use crate::codec::Codec;
use crate::encode::AngleMap;
use crate::geometry::W_PIXELS;
use crate::keys::lemma_increasing_angles;
use crate::line::ScreenLine;
use crate::lut::LutEntry;

verus! {

/// The lit pixels of the rows below `rows` of the line, by row.
pub open spec fn line_points(angle: u32, line: ScreenLine, rows: int) -> Seq<LutEntry>
    decreases rows,
{
    if rows <= 0 {
        Seq::empty()
    } else {
        let rest = line_points(angle, line, rows - 1);
        if line.pixels@[rows - 1] is Some {
            rest.push(
                LutEntry {
                    angle,
                    panel: line.screen_idx,
                    column: line.addr,
                    row: (rows - 1) as u32,
                },
            )
        } else {
            rest
        }
    }
}

/// The lit pixels of the lines, line by line.
pub open spec fn decoded(angle: u32, lines: Seq<ScreenLine>) -> Seq<LutEntry>
    decreases lines.len(),
{
    if lines.len() == 0 {
        Seq::empty()
    } else {
        decoded(angle, lines.drop_last()) + line_points(angle, lines.last(), W_PIXELS as int)
    }
}

/// The lit pixels of the three panels at one angle, panel by panel.
pub open spec fn decoded_frame(angle: u32, frame: [Vec<ScreenLine>; 3]) -> Seq<LutEntry> {
    decoded(angle, frame[0]@) + decoded(angle, frame[1]@) + decoded(angle, frame[2]@)
}

/// The lit pixels of the schedule at the angles below `angles`, angle by angle.
pub open spec fn decoded_upto(map: Map<u32, [Vec<ScreenLine>; 3]>, angles: int) -> Seq<LutEntry>
    decreases angles,
{
    if angles <= 0 {
        Seq::empty()
    } else {
        let rest = decoded_upto(map, angles - 1);
        let angle = (angles - 1) as u32;
        if map.contains_key(angle) {
            rest + decoded_frame(angle, map[angle])
        } else {
            rest
        }
    }
}

/// Angles that the schedule does not hold add nothing.
proof fn lemma_decoded_gap(map: Map<u32, [Vec<ScreenLine>; 3]>, from: int, to: int)
    requires
        0 <= from <= to <= 0x1_0000_0000,
        forall|a: u32| from <= a < to ==> !map.contains_key(a),
    ensures
        decoded_upto(map, to) == decoded_upto(map, from),
    decreases to - from,
{
    if from < to {
        lemma_decoded_gap(map, from, to - 1);
    }
}

/// The angles of the schedule in increasing order.
pub fn sorted_angles(angle_map: &AngleMap) -> (angles: Vec<u32>)
    ensures
        angles@.to_set() == angle_map@.dom(),
        forall|i: int, j: int| 0 <= i < j < angles@.len() ==> angles@[i] < angles@[j],
{
    let mut angles: Vec<u32> = Vec::new();
    let ghost full = vstd::std_specs::btree::spec_keys_iter(angle_map).remaining();
    for angle in it: angle_map.keys()
        invariant
            it.seq() == full,
            full == vstd::std_specs::btree::spec_keys_iter(angle_map).remaining(),
            angles@ == it.seq().take(it.index() as int).map_values(|a: &u32| *a),
    {
        angles.push(*angle);
        assert(it.seq().take(it.index() + 1) == it.seq().take(it.index() as int).push(
            it.seq()[it.index() as int],
        ));
    }
    proof {
        assert(full.take(full.len() as int) == full);
        assert(full.unref() == angles@);
        lemma_increasing_angles(full);
    }
    angles
}

impl Codec {
    /// The panel pixels that `lines` light at `angle`: one for each occupied
    /// row, line by line and row by row.
    pub fn decode(&self, angle: u32, lines: &[ScreenLine]) -> (points: Vec<LutEntry>)
        ensures
            points@ == decoded(angle, lines@),
    {
        let mut points: Vec<LutEntry> = Vec::new();
        let n = lines.len();
        for k in 0..n
            invariant
                n == lines@.len(),
                points@ == decoded(angle, lines@.take(k as int)),
        {
            let line = &lines[k];
            let ghost before = points@;
            for r in 0..W_PIXELS
                invariant
                    *line == lines@[k as int],
                    points@ == before + line_points(angle, *line, r as int),
            {
                if line.pixels[r].is_some() {
                    points.push(
                        LutEntry {
                            angle,
                            panel: line.screen_idx,
                            column: line.addr,
                            row: r as u32,
                        },
                    );
                }
                assert(points@ =~= before + line_points(angle, *line, r + 1));
            }
            proof {
                assert(lines@.take(k + 1).drop_last() =~= lines@.take(k as int));
                assert(lines@.take(k + 1).last() == lines@[k as int]);
            }
        }
        assert(lines@.take(n as int) =~= lines@);
        points
    }

    /// The panel pixels that the schedule lights: those of each angle in
    /// increasing order of angle, and for each angle those of the panels in
    /// order.
    pub fn decode_all(&self, angle_map: AngleMap) -> (points: Vec<LutEntry>)
        ensures
            points@ == decoded_upto(angle_map@, 0x1_0000_0000),
    {
        let angles = sorted_angles(&angle_map);
        let mut points: Vec<LutEntry> = Vec::new();
        let n = angles.len();
        let ghost map = angle_map@;
        for k in 0..n
            invariant
                n == angles@.len(),
                map == angle_map@,
                angles@.to_set() == map.dom(),
                forall|i: int, j: int| 0 <= i < j < angles@.len() ==> angles@[i] < angles@[j],
                points@ == decoded_upto(
                    map,
                    if k == 0 {
                        0
                    } else {
                        angles@[k - 1] + 1
                    },
                ),
        {
            let angle = angles[k];
            let ghost from: int = if k == 0 {
                0
            } else {
                angles@[k - 1] + 1
            };
            proof {
                assert(angles@.to_set().contains(angles@[k as int]));
                assert forall|a: u32| from <= a < angle implies !map.contains_key(a) by {
                    if map.contains_key(a) {
                        assert(angles@.to_set().contains(a));
                        let i = choose|i: int| 0 <= i < angles@.len() && angles@[i] == a;
                        if i < k {
                            if i < k - 1 {
                                assert(angles@[i] < angles@[k - 1]);
                            }
                        } else if i > k {
                            assert(angles@[k as int] < angles@[i]);
                        }
                    }
                }
                if k > 0 {
                    assert(angles@[k - 1] < angles@[k as int]);
                }
                lemma_decoded_gap(map, from, angle as int);
            }
            match angle_map.get(&angle) {
                Some(frame) => {
                    let mut low = self.decode(angle, frame[0].as_slice());
                    let mut middle = self.decode(angle, frame[1].as_slice());
                    let mut high = self.decode(angle, frame[2].as_slice());
                    points.append(&mut low);
                    points.append(&mut middle);
                    points.append(&mut high);
                    assert(points@ =~= decoded_upto(map, angle as int) + decoded_frame(
                        angle,
                        map[angle],
                    ));
                },
                None => {},
            }
        }
        proof {
            let from: int = if n == 0 {
                0
            } else {
                angles@[n - 1] + 1
            };
            assert forall|a: u32| from <= a < 0x1_0000_0000 implies !map.contains_key(a) by {
                if map.contains_key(a) {
                    assert(angles@.to_set().contains(a));
                    let i = choose|i: int| 0 <= i < angles@.len() && angles@[i] == a;
                    if i < n - 1 {
                        assert(angles@[i] < angles@[n - 1]);
                    }
                }
            }
            lemma_decoded_gap(map, from, 0x1_0000_0000);
        }
        points
    }
}

} // verus!

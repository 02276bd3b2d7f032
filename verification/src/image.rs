//! The record that is sent to the hardware for one angle: for each row the
//! colour to show and the address of the line that shows it.

use vstd::prelude::*;
use crate::decode::sorted_angles;
use crate::encode::AngleMap;
use crate::line::{PixelColor, ScreenLine};

verus! {

/// Red, green, blue and the address of the line.
pub type RGBH = [u8; 4];

/// Number of rows of the record.
pub const IMG_HEIGHT: usize = 192;

/// A quarter of the rows of the record.
pub const IMG_WIDTH: usize = IMG_HEIGHT / 4;

/// Number of bytes of a record: the angle, then four for each row.
pub const IMG_BYTES: usize = 4 + 4 * IMG_HEIGHT;

/// What is shown at one angle.
#[derive(Debug, Copy, Clone, PartialEq)]
pub struct AngleImage {
    pub angle: u32,
    pub coloum: [RGBH; IMG_HEIGHT],
}

/// Byte `i` of `x`, the lowest first.
pub open spec fn byte_of(x: u32, i: int) -> u8 {
    if i == 0 {
        (x % 256) as u8
    } else if i == 1 {
        (x / 0x100 % 256) as u8
    } else if i == 2 {
        (x / 0x1_0000 % 256) as u8
    } else {
        (x / 0x100_0000 % 256) as u8
    }
}

/// The record of a pixel of colour `color` in the line at `addr`.
pub open spec fn rgbh(color: PixelColor, addr: u32) -> (u8, u8, u8, u8) {
    (byte_of(color, 0), byte_of(color, 1), byte_of(color, 2), byte_of(addr, 0))
}

/// The record of a row once `line` has been looked at: the pixel of the
/// line takes the row if the row is free or held by a line at a higher
/// address.
pub open spec fn painted_cell(cell: Option<(u8, u8, u8, u8)>, line: ScreenLine, row: int) -> Option<
    (u8, u8, u8, u8),
> {
    match line.pixels@[row] {
        None => cell,
        Some(color) => match cell {
            Some(held) => if line.addr < held.3 {
                Some(rgbh(color, line.addr))
            } else {
                cell
            },
            None => Some(rgbh(color, line.addr)),
        },
    }
}

/// The record of a row once the lines have been looked at in order.
pub open spec fn painted(lines: Seq<ScreenLine>, row: int) -> Option<(u8, u8, u8, u8)>
    decreases lines.len(),
{
    if lines.len() == 0 {
        None
    } else {
        painted_cell(painted(lines.drop_last(), row), lines.last(), row)
    }
}

/// The four bytes of a row: those of its record, or zeros where the row is
/// free.
pub open spec fn cell_bytes(cell: Option<(u8, u8, u8, u8)>) -> Seq<u8> {
    match cell {
        Some(c) => seq![c.0, c.1, c.2, c.3],
        None => seq![0u8, 0u8, 0u8, 0u8],
    }
}

/// Whether `image` is the record of what the three panels show at its angle.
pub open spec fn image_of(image: AngleImage, frame: [Vec<ScreenLine>; 3]) -> bool {
    forall|row: int|
        0 <= row < IMG_HEIGHT ==> (#[trigger] image.coloum@[row])@ == cell_bytes(
            painted(frame[0]@ + frame[1]@ + frame[2]@, row),
        )
}

/// The character of a decimal digit.
pub open spec fn digit_char(d: u8) -> char {
    ((48 + d) as u8) as char
}

/// The number in decimal, with at least two digits.
pub open spec fn two_digits(h: u8) -> Seq<char> {
    if h < 10 {
        seq!['0', digit_char(h)]
    } else if h < 100 {
        seq![digit_char(h / 10), digit_char(h % 10)]
    } else {
        seq![digit_char(h / 100), digit_char(h / 10 % 10), digit_char(h % 10)]
    }
}

/// The addresses of the rows below `rows`, each in decimal with at least
/// two digits.
pub open spec fn heights_text(coloum: Seq<RGBH>, rows: int) -> Seq<char>
    decreases rows,
{
    if rows <= 0 {
        Seq::empty()
    } else {
        heights_text(coloum, rows - 1) + two_digits(coloum[rows - 1]@[3])
    }
}

/// The bytes of the rows below `rows`.
pub open spec fn rows_bytes(coloum: Seq<RGBH>, rows: int) -> Seq<u8>
    decreases rows,
{
    if rows <= 0 {
        Seq::empty()
    } else {
        rows_bytes(coloum, rows - 1) + coloum[rows - 1]@
    }
}

/// The four bytes of the angle, the lowest first.
pub open spec fn angle_bytes(angle: u32) -> Seq<u8> {
    seq![byte_of(angle, 0), byte_of(angle, 1), byte_of(angle, 2), byte_of(angle, 3)]
}

/// Appends a character to the string: `String::push` of the standard
/// library, which the contract takes to add exactly that character at the
/// end.
#[verifier::external_body]
fn push_char(text: &mut String, c: char)
    ensures
        final(text)@ == old(text)@.push(c),
{
    text.push(c);
}

/// The three low bytes of the colour and the low byte of the address.
fn pack(color: PixelColor, addr: u32) -> (cell: (u8, u8, u8, u8))
    ensures
        cell == rgbh(color, addr),
{
    (
        (color % 256) as u8,
        (color / 0x100 % 256) as u8,
        (color / 0x1_0000 % 256) as u8,
        (addr % 256) as u8,
    )
}

/// Looks at more lines.
fn paint(
    cells: &mut [Option<(u8, u8, u8, u8)>; IMG_HEIGHT],
    lines: &Vec<ScreenLine>,
    Ghost(before): Ghost<Seq<ScreenLine>>,
)
    requires
        forall|row: int| 0 <= row < IMG_HEIGHT ==> old(cells)@[row] == painted(before, row),
    ensures
        forall|row: int|
            0 <= row < IMG_HEIGHT ==> final(cells)@[row] == painted(before + lines@, row),
{
    let n = lines.len();
    assert(before + lines@.take(0) =~= before);
    for k in 0..n
        invariant
            n == lines@.len(),
            forall|row: int|
                0 <= row < IMG_HEIGHT ==> cells@[row] == painted(
                    before + lines@.take(k as int),
                    row,
                ),
    {
        let ghost seen = before + lines@.take(k as int);
        let ghost next = before + lines@.take(k + 1);
        assert(next.drop_last() =~= seen);
        assert(next.last() == lines@[k as int]);
        for r in 0..IMG_HEIGHT
            invariant
                k < n,
                n == lines@.len(),
                seen == before + lines@.take(k as int),
                next == before + lines@.take(k + 1),
                next.drop_last() == seen,
                next.last() == lines@[k as int],
                forall|row: int| 0 <= row < r ==> cells@[row] == painted(next, row),
                forall|row: int| r <= row < IMG_HEIGHT ==> cells@[row] == painted(seen, row),
        {
            assert(painted(next, r as int) == painted_cell(
                painted(seen, r as int),
                lines@[k as int],
                r as int,
            ));
            match lines[k].pixels[r] {
                Some(color) => {
                    let addr = lines[k].addr;
                    match cells[r] {
                        Some(held) => {
                            if addr < held.3 as u32 {
                                cells[r] = Some(pack(color, addr));
                            }
                        },
                        None => {
                            cells[r] = Some(pack(color, addr));
                        },
                    }
                },
                None => {},
            }
        }
    }
    assert(lines@.take(n as int) =~= lines@);
}

impl AngleImage {
    /// A record for `angle` in which every row is free.
    pub fn new(angle: u32) -> (image: AngleImage)
        ensures
            image.angle == angle,
            forall|row: int| 0 <= row < IMG_HEIGHT ==> image.coloum@[row]@ == cell_bytes(None),
    {
        let image = AngleImage { angle, coloum: [[0;4];IMG_HEIGHT] };
        assert forall|row: int| 0 <= row < IMG_HEIGHT implies image.coloum@[row]@ == cell_bytes(
            None,
        ) by {
            assert(image.coloum@[row]@ =~= cell_bytes(None));
        }
        image
    }

    /// The record of what the three panels show at `angle`.  Where several
    /// lines hold a pixel in one row, the line at the lowest address gives
    /// the row its colour and address, and among lines at the same address
    /// the first.
    pub fn from_frame(angle: u32, frame: &[Vec<ScreenLine>; 3]) -> (image: AngleImage)
        ensures
            image.angle == angle,
            image_of(image, *frame),
    {
        let mut cells: [Option<(u8, u8, u8, u8)>; IMG_HEIGHT] = [None;IMG_HEIGHT];
        let ghost none = Seq::<ScreenLine>::empty();
        paint(&mut cells, &frame[0], Ghost(none));
        assert(none + frame[0]@ =~= frame[0]@);
        paint(&mut cells, &frame[1], Ghost(frame[0]@));
        paint(&mut cells, &frame[2], Ghost(frame[0]@ + frame[1]@));
        let mut image = AngleImage::new(angle);
        let ghost lines = frame[0]@ + frame[1]@ + frame[2]@;
        for r in 0..IMG_HEIGHT
            invariant
                image.angle == angle,
                forall|row: int| 0 <= row < IMG_HEIGHT ==> cells@[row] == painted(lines, row),
                forall|row: int| 0 <= row < r ==> image.coloum@[row]@ == cell_bytes(cells@[row]),
                forall|row: int|
                    r <= row < IMG_HEIGHT ==> image.coloum@[row]@ == cell_bytes(None),
        {
            match cells[r] {
                Some(c) => {
                    let bytes: RGBH = [c.0, c.1, c.2, c.3];
                    assert(bytes@ =~= cell_bytes(Some(c)));
                    image.coloum[r] = bytes;
                },
                None => {},
            }
        }
        image
    }

    /// The records of a schedule, one for each of its angles, in increasing
    /// order of angle.
    pub fn from_schedule(angle_map: &AngleMap) -> (images: Vec<AngleImage>)
        ensures
            images@.len() == angle_map@.dom().len(),
            forall|i: int, j: int|
                0 <= i < j < images@.len() ==> (#[trigger] images@[i]).angle < (
                #[trigger] images@[j]).angle,
            forall|i: int|
                0 <= i < images@.len() ==> angle_map@.contains_key((#[trigger] images@[i]).angle)
                    && image_of(images@[i], angle_map@[images@[i].angle]),
            forall|angle: u32| #[trigger]
                angle_map@.contains_key(angle) ==> exists|i: int|
                    0 <= i < images@.len() && (#[trigger] images@[i]).angle == angle,
    {
        let angles = sorted_angles(angle_map);
        let n = angles.len();
        let mut images: Vec<AngleImage> = Vec::with_capacity(n);
        proof {
            angles@.unique_seq_to_set();
        }
        for k in 0..n
            invariant
                n == angles@.len(),
                angles@.to_set() == angle_map@.dom(),
                images@.len() == k,
                forall|i: int|
                    0 <= i < k ==> (#[trigger] images@[i]).angle == angles@[i] && image_of(
                        images@[i],
                        angle_map@[angles@[i]],
                    ),
        {
            let angle = angles[k];
            assert(angles@.to_set().contains(angles@[k as int]));
            match angle_map.get(&angle) {
                Some(frame) => {
                    images.push(AngleImage::from_frame(angle, frame));
                },
                None => {},
            }
        }
        proof {
            assert forall|i: int| 0 <= i < images@.len() implies angle_map@.contains_key(
                (#[trigger] images@[i]).angle,
            ) && image_of(images@[i], angle_map@[images@[i].angle]) by {
                assert(angles@.to_set().contains(angles@[i]));
            }
            assert forall|angle: u32| #[trigger] angle_map@.contains_key(angle) implies exists|
                i: int,
            | 0 <= i < images@.len() && (#[trigger] images@[i]).angle == angle by {
                assert(angles@.to_set().contains(angle));
                let i = choose|i: int| 0 <= i < angles@.len() && angles@[i] == angle;
                assert(images@[i].angle == angle);
            }
        }
        images
    }

    /// The addresses of all rows in decimal, each with at least two digits,
    /// and a line feed at the end.
    pub fn heights(&self) -> (text: String)
        ensures
            text@ == heights_text(self.coloum@, IMG_HEIGHT as int).push('\n'),
    {
        let mut text = String::new();
        assert(text@ =~= heights_text(self.coloum@, 0));
        for r in 0..IMG_HEIGHT
            invariant
                text@ == heights_text(self.coloum@, r as int),
        {
            let h: u8 = self.coloum[r][3];
            let ghost before = text@;
            if h >= 100 {
                push_char(&mut text, (48 + h / 100) as char);
            }
            push_char(&mut text, (48 + h / 10 % 10) as char);
            push_char(&mut text, (48 + h % 10) as char);
            assert(text@ =~= before + two_digits(h));
        }
        push_char(&mut text, '\n');
        text
    }

    /// The record as bytes: the angle, lowest byte first, then the four
    /// bytes of each row.
    pub fn to_bytes(&self) -> (bytes: Vec<u8>)
        ensures
            bytes@ == angle_bytes(self.angle) + rows_bytes(self.coloum@, IMG_HEIGHT as int),
    {
        let mut bytes: Vec<u8> = Vec::with_capacity(IMG_BYTES);
        bytes.push((self.angle % 256) as u8);
        bytes.push((self.angle / 0x100 % 256) as u8);
        bytes.push((self.angle / 0x1_0000 % 256) as u8);
        bytes.push((self.angle / 0x100_0000 % 256) as u8);
        assert(bytes@ =~= angle_bytes(self.angle) + rows_bytes(self.coloum@, 0));
        for r in 0..IMG_HEIGHT
            invariant
                bytes@ == angle_bytes(self.angle) + rows_bytes(self.coloum@, r as int),
        {
            let ghost before = bytes@;
            let cell = self.coloum[r];
            bytes.push(cell[0]);
            bytes.push(cell[1]);
            bytes.push(cell[2]);
            bytes.push(cell[3]);
            assert(bytes@ =~= before + cell@);
        }
        bytes
    }
}

} // verus!

//! The line processing against a plain model that works on a map from
//! address to row, on pseudo-random lines.

use std::collections::BTreeMap;
use vdrm_alg::{
    parse_addr_map, AddrMap, AngleMap, Codec, EncodeError, LookupTable, LutEntry, PixelSurface,
    ScreenLine, W_PIXELS,
};

type Rows = [Option<u32>; W_PIXELS];

struct Lcg(u64);

impl Lcg {
    fn next(&mut self, below: u32) -> u32 {
        self.0 = self.0.wrapping_mul(6364136223846793005).wrapping_add(1442695040888963407);
        ((self.0 >> 33) as u32) % below
    }
}

/// With the realignment: one pixel per row, then the move by triplets.
/// Then the shift.  `bounded` decides what becomes of a pixel that the
/// shorter step would take above 143: the other step is tried and the pixel
/// stays if that fails too, or the pixel is moved within its group all the
/// same.
fn model(
    mut map: BTreeMap<u32, Rows>,
    screen_idx: usize,
    offset: i32,
    optimize: bool,
    bounded: bool,
) -> Vec<ScreenLine> {
    if optimize {
        let mut info: [Option<([u8; 4], u32)>; W_PIXELS] = [None; W_PIXELS];
        for (addr, rows) in map.iter_mut() {
            for (color, slot) in rows.iter_mut().zip(&mut info) {
                let Some(rgbh) = color.as_ref() else {
                    continue;
                };
                let [r, g, b, _a] = rgbh.to_le_bytes();
                match slot {
                    Some(_) => *color = None,
                    None => *slot = Some(([r, g, b, *addr as u8], *addr)),
                }
            }
        }
        for i in 0..64usize {
            let regions = [i + 64, i, i + 128];
            let mut reference: Option<u8> = None;
            for region in regions {
                let Some(pixel) = info[region] else {
                    continue;
                };
                if pixel.0[..3] == [0; 3] {
                    continue;
                }
                reference = Some(pixel.0[3]);
                break;
            }
            let Some(reference) = reference else {
                continue;
            };
            let phase = reference % 16;
            for region in regions {
                let Some((rgbh, line_addr)) = info[region] else {
                    continue;
                };
                let h = rgbh[3];
                if h % 16 == phase {
                    continue;
                }
                let raw = phase as i16 - (h % 16) as i16;
                let other = if raw > 0 { raw - 16 } else { raw + 16 };
                let in_range = |delta: i16| (0..=143).contains(&(h as i16 + delta));
                let delta = if raw.abs() > 8 && in_range(other) {
                    other
                } else if !bounded || in_range(raw) {
                    raw
                } else if in_range(other) {
                    other
                } else {
                    continue;
                };
                let moved = (h as i16 + delta) as u32;
                let pixel = map.get_mut(&line_addr).unwrap()[region].take().unwrap();
                map.entry(moved).or_insert([None; W_PIXELS])[region] = Some(pixel);
            }
        }
    }
    map.into_iter()
        .map(|(addr, mut pixels)| {
            let shift = offset.unsigned_abs() as usize;
            if shift >= W_PIXELS {
                pixels = [None; W_PIXELS];
            } else if offset > 0 {
                pixels.rotate_right(shift);
                pixels.iter_mut().take(shift).for_each(|p| *p = None);
            } else if offset < 0 {
                pixels.rotate_left(shift);
                pixels.iter_mut().rev().take(shift).for_each(|p| *p = None);
            }
            ScreenLine { screen_idx, addr, pixels }
        })
        .collect()
}

fn random_case(rng: &mut Lcg, addrs: u32, pixels: u32) -> (BTreeMap<u32, Rows>, AddrMap) {
    let screen_idx = rng.next(3) as usize;
    let mut map: BTreeMap<u32, Rows> = BTreeMap::new();
    let mut lines = AddrMap::new(screen_idx);
    for _ in 0..pixels {
        let addr = rng.next(addrs);
        let row = rng.next(W_PIXELS as u32) as usize;
        // a few background colours among the lit ones
        let color = match rng.next(4) {
            0 => rng.next(2) << 24,
            _ => rng.next(0xff_ffff) + 1,
        };
        map.entry(addr).or_insert([None; W_PIXELS])[row] = Some(color);
        assert!(lines.set(addr, row, color));
    }
    (map, lines)
}

#[test]
fn lines_up_to_the_highest_aligned_address_follow_the_model() {
    let mut rng = Lcg(1);
    for case in 0..300 {
        let pixels = 1 + rng.next(400);
        let (map, lines) = random_case(&mut rng, 144, pixels);
        let screen_idx = lines.screen_idx();
        let offset = [0, 0, 1, -1, 7, -30, 191, -191, 192, 500][case % 10];
        let optimize = case % 3 != 0;
        // below 144 the shorter step never leaves the range
        let want = model(map.clone(), screen_idx, offset, optimize, false);
        assert_eq!(model(map, screen_idx, offset, optimize, true), want);
        assert_eq!(parse_addr_map(lines, offset, optimize), want);
    }
}

#[test]
fn lines_at_any_address_follow_the_bounded_model() {
    let mut rng = Lcg(2);
    let mut differ = 0;
    for case in 0..300 {
        let pixels = 1 + rng.next(400);
        let (map, lines) = random_case(&mut rng, 192, pixels);
        let screen_idx = lines.screen_idx();
        let offset = [0, 3, -3][case % 3];
        let want = model(map.clone(), screen_idx, offset, true, true);
        if model(map, screen_idx, offset, true, false) != want {
            differ += 1;
        }
        let got = parse_addr_map(lines, offset, true);
        assert_eq!(got, want);
        for line in &got {
            assert!(line.addr < 192);
        }
    }
    // the bound matters
    assert!(differ > 0);
}

#[test]
fn sparse_lines_follow_the_model() {
    let mut rng = Lcg(3);
    for case in 0..300 {
        let pixels = 1 + rng.next(6);
        let (map, lines) = random_case(&mut rng, 192, pixels);
        let screen_idx = lines.screen_idx();
        let optimize = case % 2 == 0;
        let want = model(map, screen_idx, 0, optimize, true);
        assert_eq!(parse_addr_map(lines, 0, optimize), want);
    }
}

/// Each voxel is written to the pixel of each of its entries; then the
/// lines of each panel at each angle go through the model above.
fn model_encode(
    entries: &BTreeMap<(usize, u32, u32, u32), LutEntry>,
    surface: &PixelSurface,
    offset: i32,
    optimize: bool,
) -> Result<AngleMap, EncodeError> {
    let mut frames: BTreeMap<u32, [BTreeMap<u32, Rows>; 3]> = BTreeMap::new();
    let mut writers: BTreeMap<LutKey, (u32, u32, u32)> = BTreeMap::new();
    for &(x, y, (z, color)) in surface {
        for panel in 0..3 {
            let Some(e) = entries.get(&(panel, x, y, z)) else {
                continue;
            };
            let key = (e.angle, e.panel, e.column, e.row);
            if let Some(first) = writers.insert(key, (x, y, z)) {
                if first != (x, y, z) {
                    return Err(EncodeError::Collision { first, second: (x, y, z), entry: *e });
                }
            }
            let frame = frames.entry(e.angle).or_default();
            frame[panel].entry(e.column).or_insert([None; W_PIXELS])[e.row as usize] = Some(color);
        }
    }
    let mut out = AngleMap::new();
    for (angle, frame) in frames {
        let [a, b, c] = frame;
        let lines = [
            model(a, 0, offset, optimize, true),
            model(b, 1, offset, optimize, true),
            model(c, 2, offset, optimize, true),
        ];
        if lines.iter().flatten().any(|l| l.pixels.iter().any(|p| p.is_some())) {
            out.insert(angle, lines);
        }
    }
    Ok(out)
}

type LutKey = (u32, usize, u32, u32);

/// A table in which no two voxels share a pixel.
fn random_table(rng: &mut Lcg, voxels: u32) -> (Codec, BTreeMap<(usize, u32, u32, u32), LutEntry>) {
    let mut entries = BTreeMap::new();
    for _ in 0..voxels {
        let (x, y, z) = (rng.next(6), rng.next(6), rng.next(4));
        let panel = rng.next(3) as usize;
        let e = LutEntry { angle: rng.next(5), panel, column: rng.next(192), row: rng.next(192) };
        entries.insert((panel, x, y, z), e);
    }
    let mut seen: BTreeMap<LutKey, ()> = BTreeMap::new();
    entries.retain(|_, e| seen.insert((e.angle, e.panel, e.column, e.row), ()).is_none());
    let mut table = LookupTable::new();
    for (&(_, x, y, z), e) in &entries {
        table.record(x, y, z, *e).unwrap();
    }
    (Codec::from_table(table), entries)
}

fn random_surface(rng: &mut Lcg, voxels: u32) -> PixelSurface {
    (0..voxels)
        .map(|_| (rng.next(7), rng.next(6), (rng.next(4), rng.next(0xff_ffff) + rng.next(2))))
        .collect()
}

#[test]
fn schedules_follow_the_model() {
    let mut rng = Lcg(4);
    for case in 0..40 {
        let voxels = 1 + rng.next(200);
        let (codec, entries) = random_table(&mut rng, voxels);
        let lit = rng.next(300);
        let surface = random_surface(&mut rng, lit);
        let offset = [0, 2, -2, 190][case % 4];
        let optimize = case % 2 == 0;
        let got = codec.encode(&surface, offset, optimize);
        assert!(got.is_ok());
        assert_eq!(got, model_encode(&entries, &surface, offset, optimize));
    }
}

#[test]
fn clashes_follow_the_model() {
    let mut rng = Lcg(5);
    let (mut clashes, mut clean) = (0, 0);
    for _ in 0..40 {
        // few pixels for many voxels, so that voxels share pixels
        let mut table = LookupTable::new();
        let mut entries = BTreeMap::new();
        for _ in 0..30 {
            let (x, y, z) = (rng.next(6), rng.next(6), rng.next(4));
            let panel = rng.next(3) as usize;
            let e = LutEntry { angle: rng.next(2), panel, column: rng.next(3), row: rng.next(3) };
            table.record(x, y, z, e).unwrap();
            entries.insert((panel, x, y, z), e);
        }
        let codec = Codec::from_table(table);
        let lit = rng.next(12);
        let surface = random_surface(&mut rng, lit);
        let got = codec.encode(&surface, 0, true);
        match got {
            Ok(_) => clean += 1,
            Err(_) => clashes += 1,
        }
        assert_eq!(got, model_encode(&entries, &surface, 0, true));
    }
    assert!(clashes > 0 && clean > 0);
}

use geo::{ClosestPoint, EuclideanDistance, EuclideanLength, LineInterpolatePoint};
use vdrm_alg::{
    gen_pyramid_surface, AngleMap, BuildAction, BuildEvent, Codec, LutEntry, PixelSurface,
    TOTAL_ANGLES, W_PIXELS,
};

const CIRCLE_R: f32 = 1.;
const POINT_SIZE: f32 = 2. * CIRCLE_R / W_PIXELS as f32;
const SCREEN_OFFSET: f32 = std::f32::consts::SQRT_2;

fn panels() -> [geo::Line<f32>; 3] {
    let l = 1. + SCREEN_OFFSET;
    let depth = 2f32;
    let a: (f32, f32) = (0., l);
    let rad = std::f32::consts::PI / 9.;
    let b: (f32, f32) = (0. - depth * rad.sin(), l + depth * rad.cos());
    let x_offset = -b.0 / 4.0;
    let offset_rad = (x_offset / l).asin();
    let y_offset = offset_rad.cos() * l - l;
    let a = (a.0 + x_offset, a.1 + y_offset);
    let b = (b.0 + x_offset, b.1 + y_offset);
    let rad = std::f32::consts::FRAC_PI_8;
    let c = (-l * rad.sin(), l * rad.cos());
    let rad = std::f32::consts::PI / 9.;
    let d = (c.0 + depth * rad.sin(), c.1 + depth * rad.cos());
    let e = (l * rad.sin(), l * rad.cos());
    let f = (e.0 - depth * rad.sin(), e.1 + depth * rad.cos());
    [geo::Line::new(a, b), geo::Line::new(c, d), geo::Line::new(e, f)]
}

fn pixel_to_v(p: u32) -> f32 {
    p as f32 * POINT_SIZE + 0.5 * POINT_SIZE - CIRCLE_R
}

fn pixel_to_h(p: u32) -> f32 {
    (p as f32) * POINT_SIZE
}

fn v_to_raw(v: f32) -> Option<u32> {
    let v = (v + CIRCLE_R) / POINT_SIZE - 0.5;
    if v < -POINT_SIZE {
        return None;
    }
    Some(v as u32)
}

fn h_to_raw(h: f32) -> Option<u32> {
    let h = h + POINT_SIZE;
    if h < -POINT_SIZE {
        return None;
    }
    Some((h / POINT_SIZE) as u32)
}

fn mirror_mat(angle: u32) -> glam::Mat3A {
    let angle_f = (angle as f32 * 360. / TOTAL_ANGLES as f32).to_radians();
    let sin = angle_f.sin();
    let cos = angle_f.cos();
    glam::Mat3A::from_cols(
        glam::Vec3A::new(sin * sin, -sin * cos, -cos),
        glam::Vec3A::new(-sin * cos, cos * cos, -sin),
        glam::Vec3A::new(-cos, -sin, 0.),
    )
}

fn build(angle_range: std::ops::Range<usize>) -> Codec {
    let panels = panels();
    let metas: Vec<_> = panels
        .iter()
        .map(|line| {
            let p_o = glam::Vec3A::new(line.start.x, line.start.y, -1. - SCREEN_OFFSET);
            let v_oa = glam::Vec3A::new(0., 0., POINT_SIZE);
            let step = line.line_interpolate_point(POINT_SIZE / line.euclidean_length()).unwrap()
                - line.start.into();
            let v_ob = glam::Vec3A::new(step.x(), step.y(), 0.);
            (p_o, v_oa, v_ob)
        })
        .collect();
    let mut codec = Codec::new(angle_range);
    let mut reflected = (glam::Vec3A::ZERO, glam::Vec3A::ZERO, glam::Vec3A::ZERO);
    let mut pending = codec.pending();
    loop {
        let event = match pending {
            BuildAction::Done => break,
            BuildAction::Cull { angle, panel } => {
                let mat = mirror_mat(angle);
                let center = mat * glam::Vec3A::new(0., SCREEN_OFFSET, -1.5 - SCREEN_OFFSET);
                let center_xy = geo::Point::new(center.x, center.y);
                let close = match panels[panel].closest_point(&center_xy) {
                    geo::Closest::Intersection(p) => p,
                    geo::Closest::SinglePoint(p) => p,
                    geo::Closest::Indeterminate => unreachable!(),
                };
                let (p_o, v_oa, v_ob) = metas[panel];
                reflected = (mat * p_o, mat * v_oa, mat * v_ob);
                BuildEvent::Culled(close.euclidean_distance(&center_xy) > 2f32.sqrt())
            }
            BuildAction::Project { column, row, .. } => {
                let p = reflected.0 + reflected.1 * (row as f32) + reflected.2 * (column as f32);
                let raw = match (
                    v_to_raw(p.x),
                    v_to_raw(p.y - SCREEN_OFFSET),
                    h_to_raw(-p.z - 1.0 - SCREEN_OFFSET),
                ) {
                    (Some(x), Some(y), Some(z)) => Some((x, y, z)),
                    _ => None,
                };
                BuildEvent::Projected(raw)
            }
        };
        pending = codec.advance(event).unwrap();
    }
    codec
}

fn view_point(pixel: &LutEntry) -> (f32, f32, f32) {
    let line = panels()[pixel.panel];
    let fraction = (pixel_to_v(pixel.column) + CIRCLE_R) / (CIRCLE_R * 2.);
    let xy: geo::Coord<f32> = line.line_interpolate_point(fraction).unwrap().into();
    let p = glam::Vec3A::new(xy.x, xy.y, pixel_to_v(pixel.row) - SCREEN_OFFSET);
    let v = mirror_mat(pixel.angle) * p;
    (v.x, v.y, v.z)
}

fn bounds(points: &[(f32, f32, f32)]) -> [(f32, f32); 3] {
    let mut b = [(f32::MAX, f32::MIN); 3];
    for &(x, y, z) in points {
        for (i, v) in [x, y, z].into_iter().enumerate() {
            b[i].0 = b[i].0.min(v);
            b[i].1 = b[i].1.max(v);
        }
    }
    b
}

fn real_points(surface: &PixelSurface) -> Vec<(f32, f32, f32)> {
    surface
        .iter()
        .map(|&(x, y, (z, _))| {
            (pixel_to_v(x), pixel_to_v(y) + SCREEN_OFFSET, -pixel_to_h(z) - 1. - SCREEN_OFFSET)
        })
        .collect()
}

/// For each angle and panel, the address and colour of each row.
fn rows_of(map: &AngleMap) -> Vec<((u32, usize, usize), (u32, u32))> {
    let mut rows = Vec::new();
    for (angle, frame) in map {
        for (panel, lines) in frame.iter().enumerate() {
            for l in lines {
                assert_eq!(l.screen_idx, panel);
                for (row, p) in l.pixels.iter().enumerate() {
                    if let Some(c) = p {
                        rows.push(((*angle, panel, row), (l.addr, *c)));
                    }
                }
            }
        }
    }
    rows.sort();
    rows
}

#[test]
fn pyramid_schedule_covers_a_band_of_angles() {
    let codec = build(0..TOTAL_ANGLES);
    assert!(codec.is_built());
    let map = codec.encode(&gen_pyramid_surface(), 0, true).unwrap();
    assert!(!map.is_empty());
    let keys: Vec<u32> = map.keys().copied().collect();
    for w in keys.windows(2) {
        assert_eq!(w[1], w[0] + 1);
    }
    // somewhat more than a quarter of the revolution sees the mirror
    assert!(keys.len() > TOTAL_ANGLES / 4 && keys.len() < TOTAL_ANGLES / 3);
    for frame in map.values() {
        assert!(frame.iter().flatten().any(|l| l.pixels.iter().any(|p| p.is_some())));
        for lines in frame {
            for w in lines.windows(2) {
                assert!(w[0].addr < w[1].addr);
            }
        }
    }
}

#[test]
fn pyramid_decodes_to_the_volume() {
    let codec = build(0..TOTAL_ANGLES);
    let pyramid = gen_pyramid_surface();
    let real = bounds(&real_points(&pyramid));
    // the realignment moves a pixel by up to eight addresses
    for (optimize, cells) in [(false, 3.), (true, 11.)] {
        let map = codec.encode(&pyramid, 0, optimize).unwrap();
        let pixels = codec.decode_all(map);
        assert!(pixels.len() > 30_000);
        let view: Vec<_> = pixels.iter().map(view_point).collect();
        let seen = bounds(&view);
        for axis in 0..3 {
            assert!((seen[axis].0 - real[axis].0).abs() < cells * POINT_SIZE);
            assert!((seen[axis].1 - real[axis].1).abs() < cells * POINT_SIZE);
        }
    }
}

#[test]
fn pyramid_is_shown_once_per_row() {
    let codec = build(0..TOTAL_ANGLES);
    let map = codec.encode(&gen_pyramid_surface(), 0, true).unwrap();
    let rows = rows_of(&map);
    for w in rows.windows(2) {
        assert!(w[0].0 < w[1].0);
    }
}

#[test]
fn pyramid_offset_moves_every_row() {
    let codec = build(100..500);
    let pyramid = gen_pyramid_surface();
    let plain = rows_of(&codec.encode(&pyramid, 0, true).unwrap());
    for k in [1i32, 17, -40, 191] {
        let moved = rows_of(&codec.encode(&pyramid, k, true).unwrap());
        let want: Vec<_> = plain
            .iter()
            .filter(|((_, _, row), _)| (0..W_PIXELS as i32).contains(&(*row as i32 + k)))
            .map(|&((angle, panel, row), v)| ((angle, panel, (row as i32 + k) as usize), v))
            .collect();
        assert_eq!(moved, want);
        assert!(moved.len() < plain.len());
    }
}

#[test]
fn pyramid_is_aligned_by_triplets() {
    let codec = build(200..260);
    let pyramid = gen_pyramid_surface();
    let plain = rows_of(&codec.encode(&pyramid, 0, false).unwrap());
    let tuned = rows_of(&codec.encode(&pyramid, 0, true).unwrap());
    // where the pixel of each row stood: at the lowest address of the row
    let mut stood = std::collections::BTreeMap::new();
    for &(key, value) in &plain {
        stood.entry(key).or_insert(value);
    }
    assert!(stood.len() < plain.len());
    assert_eq!(stood.len(), tuned.len());
    let lookup: std::collections::BTreeMap<_, _> = tuned.iter().copied().collect();
    let mut moved = 0;
    for (&(angle, panel, row), &(addr, color)) in &lookup {
        let (old_addr, old_color): (u32, u32) = stood[&(angle, panel, row)];
        assert_eq!(color, old_color);
        let slot = row % 64;
        let reference = [slot + 64, slot, slot + 128]
            .into_iter()
            .find(|r| matches!(stood.get(&(angle, panel, *r)), Some((_, c)) if c & 0xff_ffff != 0));
        match reference {
            Some(r) => {
                let (ref_addr, _) = stood[&(angle, panel, r)];
                assert_eq!(lookup[&(angle, panel, r)].0, ref_addr);
                if addr % 16 != ref_addr % 16 {
                    // both steps leave the range
                    assert_eq!(addr, old_addr);
                    assert!(addr >= 144);
                }
            }
            None => assert_eq!(addr, old_addr),
        }
        if addr != old_addr {
            moved += 1;
            assert!(addr <= 143);
            assert!((addr as i32 - old_addr as i32).abs() <= 15);
        }
    }
    assert!(moved > 0);
}

#[test]
fn pyramid_without_realignment_shows_every_entry() {
    let codec = build(200..230);
    let pyramid = gen_pyramid_surface();
    let mut want = Vec::new();
    for &(x, y, (z, color)) in &pyramid {
        for panel in 0..3 {
            if let Some(e) = codec.lookup_table().get(panel, x, y, z) {
                want.push(((e.angle, panel, e.row as usize), (e.column, color)));
            }
        }
    }
    want.sort();
    assert!(!want.is_empty());
    assert_eq!(rows_of(&codec.encode(&pyramid, 0, false).unwrap()), want);
}

#[test]
fn building_and_encoding_twice_agree() {
    let pyramid = gen_pyramid_surface();
    let first = build(300..340).encode(&pyramid, 3, true).unwrap();
    let second = build(300..340).encode(&pyramid, 3, true).unwrap();
    assert!(!first.is_empty());
    assert_eq!(first, second);
}

#[test]
fn partial_range_holds_only_its_angles() {
    let codec = build(300..340);
    let map = codec.encode(&gen_pyramid_surface(), 0, false).unwrap();
    assert!(!map.is_empty());
    assert!(map.keys().all(|a| (300..340).contains(a)));
}

#[test]
fn merged_parts_are_the_whole() {
    let pyramid = gen_pyramid_surface();
    let whole = build(300..340);
    let merged = build(300..317).merge(build(317..340)).unwrap();
    for angle in [300u32, 316, 317, 339] {
        assert!(whole.encode(&pyramid, 0, false).unwrap().contains_key(&angle));
    }
    assert_eq!(merged.encode(&pyramid, 0, true), whole.encode(&pyramid, 0, true));
    for (x, y, z) in [(96, 96, 95), (50, 100, 20), (150, 90, 3)] {
        for panel in 0..3 {
            assert_eq!(
                merged.lookup_table().get(panel, x, y, z),
                whole.lookup_table().get(panel, x, y, z)
            );
        }
    }
}

#[test]
fn decoded_pixel_is_the_pixel_that_lit_the_voxel() {
    let codec = build(200..300);
    let table = codec.lookup_table();
    let mut checked = 0;
    for &(x, y, (z, _)) in gen_pyramid_surface().iter().step_by(37) {
        for panel in 0..3 {
            let Some(entry) = table.get(panel, x, y, z) else { continue };
            checked += 1;
            let surface: PixelSurface = vec![(x, y, (z, 0x00ff_ffff))];
            let map = codec.encode(&surface, 0, true).unwrap();
            let pixels = codec.decode(entry.angle, &map[&entry.angle][panel]);
            assert_eq!(pixels, vec![entry]);
            // the point of the panel that the pixel was taken for while the table was built
            let line = panels()[panel];
            let step = line.line_interpolate_point(POINT_SIZE / line.euclidean_length()).unwrap()
                - line.start.into();
            let built = (
                line.start.x + step.x() * entry.column as f32,
                line.start.y + step.y() * entry.column as f32,
                -1. - SCREEN_OFFSET + POINT_SIZE * entry.row as f32,
            );
            // the point of the panel that decoding gives: the centre of the pixel
            let fraction = (pixel_to_v(entry.column) + CIRCLE_R) / (CIRCLE_R * 2.);
            let xy: geo::Coord<f32> = line.line_interpolate_point(fraction).unwrap().into();
            let decoded = (xy.x, xy.y, pixel_to_v(entry.row) - SCREEN_OFFSET);
            assert!((built.0 - decoded.0).abs() < POINT_SIZE);
            assert!((built.1 - decoded.1).abs() < POINT_SIZE);
            assert!((built.2 - decoded.2).abs() < POINT_SIZE);
            // and its image in the mirror lies in the voxel
            let seen = mirror_mat(entry.angle) * glam::Vec3A::new(built.0, built.1, built.2);
            let cell = (
                v_to_raw(seen.x).unwrap(),
                v_to_raw(seen.y - SCREEN_OFFSET).unwrap(),
                h_to_raw(-seen.z - 1.0 - SCREEN_OFFSET).unwrap(),
            );
            assert_eq!(vdrm_alg::geometry::voxel_index(cell.0, cell.1, cell.2), Some((x, y, z)));
        }
    }
    assert!(checked > 10);
}

#[test]
fn more_angles_never_lose_a_voxel() {
    let few = build(300..310);
    let more = build(300..330);
    let (mut covered_few, mut covered_more) = (0u32, 0u32);
    for x in 0..W_PIXELS as u32 {
        for y in 0..W_PIXELS as u32 {
            for z in (0..96).step_by(5) {
                for panel in 0..3 {
                    let a = few.lookup_table().get(panel, x, y, z).is_some();
                    let b = more.lookup_table().get(panel, x, y, z).is_some();
                    assert!(!a || b);
                    covered_few += a as u32;
                    covered_more += b as u32;
                }
            }
        }
    }
    assert!(covered_few > 0);
    assert!(covered_more > covered_few);
}

use fontpatch::codec::LocationIndex;
use fontpatch::contour::{draw, draw_contour, render_glyph};
use fontpatch::outline::{
    compose, contour_ends, merge, outline, place, simple_shape, Component, ExtractError, OutlineProgram, Placement,
    Point, RawPoint,
};
use fontpatch::pen::{Bounds, Command, Pen};

fn triangle() -> Vec<u8> {
    vec![0, 1, 0, 0, 0, 0, 0, 10, 0, 10, 0, 2, 0, 0, 0x31, 0x33, 0x27, 10, 10, 10]
}

fn composite(child: u16, flags: u16, args: &[u8]) -> Vec<u8> {
    let mut g = vec![0xFF, 0xFF, 0, 0, 0, 0, 0, 0, 0, 0];
    g.extend_from_slice(&flags.to_be_bytes());
    g.extend_from_slice(&child.to_be_bytes());
    g.extend_from_slice(args);
    g
}

/// Glyph 0: a triangle. Glyph 1: a composite of itself. Glyph 2: the
/// triangle moved by (5, 7). Glyph 3: empty. Glyph 4: glyph 2 at half size.
fn glyphs() -> (LocationIndex, Vec<u8>) {
    let mut glyf = triangle();
    let mut offsets: Vec<u32> = vec![0];
    offsets.push(glyf.len() as u32);
    glyf.extend(composite(1, 0x0002, &[0, 0]));
    offsets.push(glyf.len() as u32);
    glyf.extend(composite(0, 0x0002, &[5, 7]));
    offsets.push(glyf.len() as u32);
    offsets.push(glyf.len() as u32);
    glyf.extend(composite(2, 0x000A, &[1, 0, 0x20, 0x00]));
    offsets.push(glyf.len() as u32);
    (LocationIndex { long: true, offsets }, glyf)
}

fn on(x: i64, y: i64) -> Point {
    Point { x, y, on_curve: true }
}

fn off(x: i64, y: i64) -> Point {
    Point { x, y, on_curve: false }
}

#[test]
fn triangle_outline() {
    let (index, glyf) = glyphs();
    let p = outline(0, &index, &glyf, 8).unwrap();
    assert_eq!(p.points, vec![on(0, 0), on(10_000, 0), on(0, 10_000)]);
    assert_eq!(p.ends, vec![3]);
    assert_eq!(p.contour_count(), 1);
}

#[test]
fn triangle_box_is_ten_by_ten() {
    let (index, glyf) = glyphs();
    let r = render_glyph(0, &index, &glyf, 8).unwrap();
    assert_eq!((r.min_x, r.min_y, r.width, r.height), (0, 0, 10_000, 10_000));
    assert_eq!(r.shift, 10_000);
    assert_eq!(
        r.commands,
        vec![
            Command::MoveTo { x: 0, y: 0 },
            Command::LineTo { x: 10_000, y: 0 },
            Command::LineTo { x: 0, y: 10_000 },
            Command::Close,
        ]
    );
}

#[test]
fn glyph_id_equal_to_the_count_is_out_of_range() {
    let (index, glyf) = glyphs();
    assert_eq!(outline(5, &index, &glyf, 8).unwrap_err(), ExtractError::OutOfRange);
    assert_eq!(outline(6, &index, &glyf, 8).unwrap_err(), ExtractError::OutOfRange);
    assert_eq!(outline(u32::MAX, &index, &glyf, 8).unwrap_err(), ExtractError::OutOfRange);
    assert!(outline(4, &index, &glyf, 8).is_ok());
    let none = LocationIndex { long: true, offsets: vec![] };
    assert_eq!(outline(0, &none, &glyf, 8).unwrap_err(), ExtractError::OutOfRange);
}

#[test]
fn component_cycle_exceeds_the_depth() {
    let (index, glyf) = glyphs();
    for depth in [0u32, 1, 8, 50] {
        assert_eq!(outline(1, &index, &glyf, depth).unwrap_err(), ExtractError::CycleOrDepthExceeded);
    }
}

#[test]
fn depth_counts_levels_of_components() {
    let (index, glyf) = glyphs();
    assert_eq!(outline(2, &index, &glyf, 0).unwrap_err(), ExtractError::CycleOrDepthExceeded);
    assert!(outline(2, &index, &glyf, 1).is_ok());
    assert_eq!(outline(4, &index, &glyf, 1).unwrap_err(), ExtractError::CycleOrDepthExceeded);
    assert!(outline(4, &index, &glyf, 2).is_ok());
    assert!(outline(0, &index, &glyf, 0).is_ok());
}

#[test]
fn empty_glyph_gives_an_empty_path() {
    let (index, glyf) = glyphs();
    let p = outline(3, &index, &glyf, 8).unwrap();
    assert_eq!(p.points.len(), 0);
    assert_eq!(p.ends.len(), 0);
    let r = render_glyph(3, &index, &glyf, 0).unwrap();
    assert_eq!(r.commands.len(), 0);
    assert_eq!((r.min_x, r.min_y, r.width, r.height, r.shift), (0, 0, 0, 0, 0));
}

#[test]
fn component_is_moved_by_its_offset() {
    let (index, glyf) = glyphs();
    let p = outline(2, &index, &glyf, 8).unwrap();
    assert_eq!(p.points, vec![on(5_000, 7_000), on(15_000, 7_000), on(5_000, 17_000)]);
    assert_eq!(p.ends, vec![3]);
}

#[test]
fn nested_component_is_scaled() {
    let (index, glyf) = glyphs();
    let p = outline(4, &index, &glyf, 8).unwrap();
    assert_eq!(p.points, vec![on(3_500, 3_500), on(8_500, 3_500), on(3_500, 8_500)]);
}

#[test]
fn offsets_outside_the_data_are_malformed() {
    let (_, glyf) = glyphs();
    let past = LocationIndex { long: true, offsets: vec![0, 1000] };
    assert_eq!(outline(0, &past, &glyf, 8).unwrap_err(), ExtractError::Malformed);
    let back = LocationIndex { long: true, offsets: vec![20, 0] };
    assert_eq!(outline(0, &back, &glyf, 8).unwrap_err(), ExtractError::Malformed);
    let cut = LocationIndex { long: true, offsets: vec![0, 4] };
    assert_eq!(outline(0, &cut, &glyf, 8).unwrap_err(), ExtractError::Malformed);
    let short = LocationIndex { long: true, offsets: vec![0, 13] };
    assert_eq!(outline(0, &short, &glyf, 8).unwrap_err(), ExtractError::Malformed);
}

#[test]
fn component_out_of_range_is_malformed() {
    let glyf = composite(9, 0x0002, &[0, 0]);
    let index = LocationIndex { long: true, offsets: vec![0, glyf.len() as u32] };
    assert_eq!(outline(0, &index, &glyf, 8).unwrap_err(), ExtractError::Malformed);
}

#[test]
fn simple_shape_checks_the_contour_ends() {
    let pts = vec![
        RawPoint { x: 1, y: 2, on_curve: true },
        RawPoint { x: -3, y: 4, on_curve: false },
        RawPoint { x: 5, y: 6, on_curve: true },
    ];
    let p = simple_shape(&pts, &vec![0, 2]).unwrap();
    assert_eq!(p.points, vec![on(1_000, 2_000), off(-3_000, 4_000), on(5_000, 6_000)]);
    assert_eq!(p.ends, vec![1, 3]);
    assert_eq!(simple_shape(&pts, &vec![1]).unwrap_err(), ExtractError::Malformed);
    assert_eq!(simple_shape(&pts, &vec![2, 2]).unwrap_err(), ExtractError::Malformed);
    assert_eq!(simple_shape(&pts, &vec![]).unwrap_err(), ExtractError::Malformed);
    assert_eq!(simple_shape(&vec![], &vec![]).unwrap().points.len(), 0);
}

#[test]
fn place_rounds_down_and_wants_the_matched_points() {
    let none = OutlineProgram { points: vec![], ends: vec![] };
    let sh = OutlineProgram { points: vec![on(3, -3), off(1_000, 2_000)], ends: vec![2] };
    let half = Component { glyph: 0, placement: Placement::Offset { x: 1, y: -1 }, xx: 8192, yx: 0, xy: 0, yy: 8192 };
    let p = place(&half, &none, sh.clone()).unwrap();
    assert_eq!(p.points, vec![on(1_001, -1_002), off(1_500, 0)]);
    assert_eq!(p.ends, vec![2]);
    let turn = Component { glyph: 0, placement: Placement::Offset { x: 0, y: 0 }, xx: 0, yx: 16384, xy: -16384, yy: 0 };
    assert_eq!(place(&turn, &none, sh.clone()).unwrap().points, vec![on(3, 3), off(-2_000, 1_000)]);
    let matched = Component { glyph: 0, placement: Placement::Points { base: 0, component: 0 }, xx: 16384, yx: 0, xy: 0, yy: 16384 };
    assert_eq!(place(&matched, &none, sh).unwrap_err(), ExtractError::Malformed);
    let far = OutlineProgram { points: vec![on(i64::MAX, 0)], ends: vec![1] };
    assert_eq!(place(&half, &none, far).unwrap_err(), ExtractError::Malformed);
}

#[test]
fn merge_shifts_the_contour_ends() {
    let mut a = OutlineProgram { points: vec![on(0, 0), on(1, 1)], ends: vec![2] };
    let b = OutlineProgram { points: vec![on(2, 2), on(3, 3), on(4, 4)], ends: vec![1, 3] };
    merge(&mut a, b);
    assert_eq!(a.points.len(), 5);
    assert_eq!(a.ends, vec![2, 3, 5]);
}

#[test]
fn compose_of_no_components_is_empty() {
    let (index, glyf) = glyphs();
    let p = compose(&Vec::<Component>::new(), &index, &glyf, 0).unwrap();
    assert_eq!(p.points.len(), 0);
}

#[test]
fn two_off_curve_points_imply_their_midpoint() {
    let pts = vec![on(0, 0), off(10, 0), off(10, 11), on(0, 10)];
    let mut pen = Pen::new();
    draw_contour(&pts, 0, 4, &mut pen);
    let r = pen.finish();
    assert_eq!(
        r.commands,
        vec![
            Command::MoveTo { x: 0, y: 0 },
            Command::QuadTo { cx: 10, cy: 0, x: 10, y: 5 },
            Command::QuadTo { cx: 10, cy: 11, x: 0, y: 10 },
            Command::Close,
        ]
    );
}

#[test]
fn contour_of_off_curve_points_starts_between_last_and_first() {
    let pts = vec![off(0, 0), off(4, 0), off(4, 4), off(0, 4)];
    let mut pen = Pen::new();
    draw_contour(&pts, 0, 4, &mut pen);
    let r = pen.finish();
    assert_eq!(
        r.commands,
        vec![
            Command::MoveTo { x: 0, y: 2 },
            Command::QuadTo { cx: 0, cy: 0, x: 2, y: 0 },
            Command::QuadTo { cx: 4, cy: 0, x: 4, y: 2 },
            Command::QuadTo { cx: 4, cy: 4, x: 2, y: 4 },
            Command::QuadTo { cx: 0, cy: 4, x: 0, y: 2 },
            Command::Close,
        ]
    );
}

#[test]
fn contour_starting_off_curve_starts_at_its_last_point() {
    let pts = vec![off(-3, 0), on(0, 5), on(0, -5)];
    let mut pen = Pen::new();
    draw_contour(&pts, 0, 3, &mut pen);
    assert_eq!(
        pen.finish().commands,
        vec![
            Command::MoveTo { x: 0, y: -5 },
            Command::QuadTo { cx: -3, cy: 0, x: 0, y: 5 },
            Command::Close,
        ]
    );
}

#[test]
fn midpoint_rounds_down() {
    let pts = vec![on(0, 0), off(-3, 1), off(0, 2)];
    let mut pen = Pen::new();
    draw_contour(&pts, 0, 3, &mut pen);
    assert_eq!(
        pen.finish().commands,
        vec![
            Command::MoveTo { x: 0, y: 0 },
            Command::QuadTo { cx: -3, cy: 1, x: -2, y: 1 },
            Command::QuadTo { cx: 0, cy: 2, x: 0, y: 0 },
            Command::Close,
        ]
    );
}

#[test]
fn draw_walks_every_contour() {
    let program = OutlineProgram { points: vec![on(0, 0), on(1, 0), on(5, 5), on(6, 5)], ends: vec![2, 2, 4] };
    let mut pen = Pen::new();
    draw(&program, &mut pen);
    let r = pen.finish();
    assert_eq!(r.commands.len(), 6);
    assert_eq!(r.commands[3], Command::MoveTo { x: 5, y: 5 });
    assert_eq!((r.min_x, r.min_y, r.width, r.height), (0, 0, 6, 5));
}

#[test]
fn pen_box_holds_control_points() {
    let mut pen = Pen::new();
    assert_eq!(pen.bounds(), None);
    pen.move_to(1, 2);
    pen.quad_to(-7, 30, 4, 5);
    pen.cubic_to(0, 0, 50, -9, 3, 3);
    pen.line_to(2, 2);
    pen.close();
    assert_eq!(pen.bounds(), Some(Bounds { min_x: -7, min_y: -9, max_x: 50, max_y: 30 }));
    let r = pen.finish();
    assert_eq!((r.min_x, r.min_y, r.width, r.height, r.shift), (-7, -9, 57, 39, 21));
    assert_eq!(r.commands.len(), 5);
    assert_eq!(r.commands[2], Command::CubicTo { cx0: 0, cy0: 0, cx1: 50, cy1: -9, x: 3, y: 3 });
}

#[test]
fn pen_box_of_extreme_coordinates() {
    let mut pen = Pen::new();
    pen.move_to(i64::MIN, i64::MIN);
    pen.line_to(i64::MAX, i64::MAX);
    let r = pen.finish();
    assert_eq!(r.width, u64::MAX as i128);
    assert_eq!(r.shift, -1);
}

#[test]
fn pen_without_commands_has_the_empty_box() {
    let r = Pen::new().finish();
    assert_eq!((r.min_x, r.min_y, r.width, r.height, r.shift), (0, 0, 0, 0, 0));
    let mut pen = Pen::new();
    pen.close();
    let r = pen.finish();
    assert_eq!(r.commands, vec![Command::Close]);
    assert_eq!((r.width, r.height), (0, 0));
}

#[test]
fn cut_glyph_data_is_an_error_or_an_outline() {
    let (_, glyf) = glyphs();
    for end in 1..glyf.len() {
        for start in [0usize, 20, 36] {
            if start >= end {
                continue;
            }
            let index = LocationIndex { long: true, offsets: vec![start as u32, end as u32] };
            match outline(0, &index, &glyf, 3) {
                Ok(p) => assert!(p.ends.iter().all(|e| *e <= p.points.len())),
                Err(e) => assert_ne!(e, ExtractError::OutOfRange),
            }
        }
    }
}

#[test]
fn equal_offsets_are_an_empty_glyph_wherever_they_point() {
    let (_, glyf) = glyphs();
    let past = LocationIndex { long: true, offsets: vec![1000, 1000, 2000] };
    let p = outline(0, &past, &glyf, 8).unwrap();
    assert_eq!((p.points.len(), p.ends.len()), (0, 0));
    assert_eq!(outline(1, &past, &glyf, 8).unwrap_err(), ExtractError::Malformed);
    let at_end = LocationIndex { long: true, offsets: vec![glyf.len() as u32, glyf.len() as u32] };
    assert_eq!(outline(0, &at_end, &glyf, 0).unwrap().points.len(), 0);
}

#[test]
fn contour_ends_follow_the_header() {
    assert_eq!(contour_ends(&triangle()), Some(vec![2]));
    let two = [0, 2, 0, 0, 0, 0, 0, 0, 0, 0, 0, 3, 1, 7, 0, 0];
    assert_eq!(contour_ends(&two), Some(vec![3, 0x107]));
    assert_eq!(contour_ends(&two[..13]), None);
    assert_eq!(contour_ends(&two[..9]), None);
    assert_eq!(contour_ends(&[0, 0, 0, 0, 0, 0, 0, 0, 0, 0]), Some(vec![]));
    assert_eq!(contour_ends(&composite(0, 2, &[0, 0])), None);
}

#[test]
fn place_by_matching_points() {
    let acc = OutlineProgram { points: vec![on(5_000, 7_000), on(15_000, 7_000)], ends: vec![2] };
    let sh = OutlineProgram { points: vec![on(1_000, 1_000), on(3_000, 5_000)], ends: vec![2] };
    let same = Component { glyph: 0, placement: Placement::Points { base: 1, component: 0 }, xx: 16384, yx: 0, xy: 0, yy: 16384 };
    assert_eq!(place(&same, &acc, sh.clone()).unwrap().points, vec![on(15_000, 7_000), on(17_000, 11_000)]);
    let half = Component { glyph: 0, placement: Placement::Points { base: 0, component: 1 }, xx: 8192, yx: 0, xy: 0, yy: 8192 };
    assert_eq!(place(&half, &acc, sh.clone()).unwrap().points, vec![on(4_000, 5_000), on(5_000, 7_000)]);
    let no_base = Component { glyph: 0, placement: Placement::Points { base: 2, component: 0 }, xx: 16384, yx: 0, xy: 0, yy: 16384 };
    assert_eq!(place(&no_base, &acc, sh.clone()).unwrap_err(), ExtractError::Malformed);
    let no_point = Component { glyph: 0, placement: Placement::Points { base: 0, component: 2 }, xx: 16384, yx: 0, xy: 0, yy: 16384 };
    assert_eq!(place(&no_point, &acc, sh).unwrap_err(), ExtractError::Malformed);
}

#[test]
fn composite_with_matched_points() {
    let mut glyf = triangle();
    let first = glyf.len() as u32;
    let mut g = composite(0, 0x0022, &[5, 7]);
    g.extend_from_slice(&[0, 0, 0, 0, 1, 0]);
    glyf.extend(g);
    let index = LocationIndex { long: true, offsets: vec![0, first, glyf.len() as u32] };
    let p = outline(1, &index, &glyf, 8).unwrap();
    assert_eq!(
        p.points,
        vec![
            on(5_000, 7_000),
            on(15_000, 7_000),
            on(5_000, 17_000),
            on(15_000, 7_000),
            on(25_000, 7_000),
            on(15_000, 17_000),
        ]
    );
    assert_eq!(p.ends, vec![3, 6]);
}

//! Painting a stroke.

use watershed_editor::brush::{
    covered_cells, lay_down, Brush, BrushMode, CellRect, Window,
};
use watershed_editor::raster::{Raster, UVec2};
use watershed_editor::single::Single;

fn single(value: f32) -> Single {
    Single(value.to_bits())
}

fn number(value: Single) -> f32 {
    f32::from_bits(value.0)
}

fn to_f32(byte: u8) -> f32 {
    byte as f32 / 255.0
}

fn weight_at(brush: &Brush, distance: f32) -> f32 {
    if !brush.reaches(single(distance)) {
        return 0.0;
    }
    let radius = number(brush.radius_cells);
    let inner = radius * (1.0 - number(brush.falloff).clamp(0.0, 1.0));
    if distance <= inner {
        return 1.0;
    }
    let t = (radius - distance) / (radius - inner);
    t * t * (3.0 - 2.0 * t)
}

fn distance_to_segment(from: (f32, f32), to: (f32, f32), at: (f32, f32)) -> f32 {
    let along = (to.0 - from.0, to.1 - from.1);
    let length_squared = along.0 * along.0 + along.1 * along.1;
    let t = if length_squared <= f32::EPSILON {
        0.0
    } else {
        (((at.0 - from.0) * along.0 + (at.1 - from.1) * along.1) / length_squared).clamp(0.0, 1.0)
    };
    (at.0 - from.0 - along.0 * t).hypot(at.1 - from.1 - along.1 * t)
}

fn distance_to_polyline(points: &[(f32, f32)], at: (f32, f32)) -> f32 {
    match points.len() {
        0 => f32::INFINITY,
        1 => distance_to_segment(points[0], points[0], at),
        _ => points
            .windows(2)
            .map(|pair| distance_to_segment(pair[0], pair[1], at))
            .fold(f32::INFINITY, f32::min),
    }
}

/// Draws a stroke through `points`, in document cells.
fn stroke(
    brush: &Brush,
    raster: &mut Raster<u8>,
    size: UVec2,
    points: &[(f32, f32)],
) -> CellRect {
    let per = (
        size.x as f32 / raster.size.x as f32,
        size.y as f32 / raster.size.y as f32,
    );
    let radius = number(brush.radius_cells);
    let first = points.first().copied().unwrap_or((0.0, 0.0));
    let (mut least, mut most) = (first, first);
    for point in points {
        least = (least.0.min(point.0), least.1.min(point.1));
        most = (most.0.max(point.0), most.1.max(point.1));
    }
    let low = (
        ((least.0 - radius) / per.0 - 0.5).floor() as i64,
        ((least.1 - radius) / per.1 - 0.5).floor() as i64,
    );
    let end = (
        ((most.0 + radius) / per.0 - 0.5).floor() as i64 + 1,
        ((most.1 + radius) / per.1 - 0.5).floor() as i64 + 1,
    );
    let mut bytes = Vec::new();
    if let Some(texels) = brush.touched_texels(raster.size, size, points.len(), low, end) {
        let window = Window::of(raster, texels, brush.mode == BrushMode::Smooth);
        for j in texels.min.y..texels.max.y {
            for i in texels.min.x..texels.max.x {
                let cell = ((i as f32 + 0.5) * per.0, (j as f32 + 0.5) * per.1);
                let weight = weight_at(brush, distance_to_polyline(points, cell));
                if weight <= 0.0 {
                    bytes.push(None);
                    continue;
                }
                let current = to_f32(*raster.get(i, j).unwrap());
                let strength = number(brush.strength);
                let rate = (strength * weight).clamp(0.0, 1.0);
                let value = match brush.mode {
                    BrushMode::Add => current + strength * weight,
                    BrushMode::Subtract => current - strength * weight,
                    BrushMode::SetTo => current + (number(brush.value) - current) * rate,
                    BrushMode::Smooth => {
                        let around = window.around(i, j);
                        let total: f32 = around.iter().map(|byte| to_f32(*byte)).sum();
                        current + (total / around.len() as f32 - current) * rate
                    }
                };
                bytes.push(Some((value.clamp(0.0, 1.0) * 255.0).round() as u8));
            }
        }
    }
    brush.stroke(raster, size, points.len(), low, end, &bytes)
}

fn raster(size: u32) -> Raster<u8> {
    Raster::new(UVec2::splat(size), 0u8)
}

/// Half of the band a stroke is kept in, as the byte holding it.
const MIDDLE: f32 = 128.0 / 255.0;

fn middling(size: u32) -> Raster<u8> {
    Raster::new(UVec2::splat(size), 128u8)
}

fn at(raster: &Raster<u8>, x: u32, y: u32) -> f32 {
    raster.get(x, y).copied().map_or(0.0, to_f32)
}

fn document(size: u32) -> UVec2 {
    UVec2::splat(size)
}

// Pins the three points that make the falloff a brush rather than a step: full
// at the centre, nothing at the rim, and monotone in between.
#[test]
fn a_brush_is_full_strength_at_its_centre_and_nothing_at_its_rim() {
    let brush = Brush { radius_cells: single(10.0), falloff: single(1.0), ..Brush::default() };
    assert_eq!(weight_at(&brush, 0.0), 1.0);
    assert_eq!(weight_at(&brush, 10.0), 0.0);
    assert_eq!(weight_at(&brush, 11.0), 0.0);
    assert!(weight_at(&brush, 5.0) > 0.0 && weight_at(&brush, 5.0) < 1.0);
    assert!(weight_at(&brush, 2.0) > weight_at(&brush, 8.0));
}

// A falloff of zero divides by a zero-width band; the guard has to resolve it to
// full strength.
#[test]
fn a_brush_with_no_falloff_is_a_hard_disc() {
    let brush = Brush { radius_cells: single(10.0), falloff: single(0.0), ..Brush::default() };
    assert_eq!(weight_at(&brush, 0.0), 1.0);
    assert_eq!(weight_at(&brush, 9.9), 1.0);
    assert_eq!(weight_at(&brush, 10.0), 0.0);
}

// The basic stroke, and the containment of it: a brush that wrote outside its
// radius would corrupt ground the user never dragged over.
#[test]
fn a_stroke_raises_what_it_covers_and_leaves_the_rest_of_the_raster_alone() {
    let mut raster = raster(64);
    let brush = Brush {
        radius_cells: single(8.0),
        falloff: single(0.5),
        strength: single(0.5),
        mode: BrushMode::Add,
        ..Brush::default()
    };
    let touched = stroke(&brush, &mut raster, document(64), &[(32.0, 32.0)]);

    assert!(at(&raster, 32, 32) > 0.0);
    assert_eq!(at(&raster, 0, 0), 0.0);
    assert_eq!(at(&raster, 63, 63), 0.0);
    assert!(touched.contains(32, 32));
    assert!(!touched.contains(0, 0));
}

// The rectangle a stroke reports is what the caller re-bakes, so a cell that moved and
// is not in it is a stale patch left on the screen.
#[test]
fn every_cell_a_stroke_moved_is_inside_the_rectangle_it_reports() {
    let mut raster = raster(64);
    let brush = Brush { radius_cells: single(6.0), strength: single(0.5), ..Brush::default() };
    let touched = stroke(&brush, &mut raster, document(64), &[(10.0, 12.0), (48.0, 40.0)]);

    for y in 0..64 {
        for x in 0..64 {
            if at(&raster, x, y) != 0.0 {
                assert!(touched.contains(x, y), "{x},{y} moved outside the rectangle");
            }
        }
    }
}

// A stroke is one polyline rather than a stamp per point, so subdividing it must not
// change the answer: otherwise how fast the mouse was moving would decide how high a
// ridge came out.
#[test]
fn subdividing_a_stroke_does_not_change_what_it_lays_down() {
    let brush = Brush { radius_cells: single(8.0), strength: single(0.5), ..Brush::default() };
    let ends = [(8.0, 32.0), (56.0, 32.0)];
    let subdivided = [(8.0, 32.0), (20.0, 32.0), (32.0, 32.0), (44.0, 32.0), (56.0, 32.0)];

    let mut coarse = raster(64);
    let mut fine = raster(64);
    stroke(&brush, &mut coarse, document(64), &ends);
    stroke(&brush, &mut fine, document(64), &subdivided);

    for (a, b) in coarse.data.iter().zip(&fine.data) {
        assert_eq!(a, b, "{a} against {b}");
    }
}

// Subtracting exists so the strength can stay a magnitude; that only holds if the
// two modes are exact mirrors, including through the falloff.
#[test]
fn subtracting_is_adding_in_the_other_direction() {
    let mut raised = middling(32);
    let mut lowered = middling(32);
    let brush = Brush {
        radius_cells: single(6.0),
        strength: single(0.4),
        mode: BrushMode::Add,
        ..Brush::default()
    };
    let points = [(16.0, 16.0)];
    stroke(&brush, &mut raised, document(32), &points);
    let away = Brush { mode: BrushMode::Subtract, ..brush };
    stroke(&away, &mut lowered, document(32), &points);

    for (index, (up, down)) in raised.data.iter().zip(&lowered.data).enumerate() {
        let up = to_f32(*up) - MIDDLE;
        let down = to_f32(*down) - MIDDLE;
        assert!((up + down).abs() < 1.0 / 255.0, "texel {index}: {up} against {down}");
    }
}

// Setting is a rate towards a target, so even at full strength it must not
// overshoot.
#[test]
fn setting_moves_toward_the_value_and_never_past_it() {
    let mut raster = raster(32);
    let brush = Brush {
        radius_cells: single(6.0),
        falloff: single(0.5),
        strength: single(1.0),
        value: single(0.75),
        mode: BrushMode::SetTo,
    };
    stroke(&brush, &mut raster, document(32), &[(16.0, 16.0)]);

    assert!((at(&raster, 16, 16) - 0.75).abs() < 1.0 / 255.0);
    for value in &raster.data {
        let value = to_f32(*value);
        assert!((0.0..=0.75 + 1.0 / 255.0).contains(&value), "{value} left the band");
    }
}

// Smoothing reads its neighbours from a snapshot; this pins that it both lowers
// the spike and raises the ring beside it, and that it stays inside its radius.
#[test]
fn smoothing_pulls_a_spike_down_without_moving_the_ground_around_it() {
    let mut raster = raster(32);
    raster.set(16, 16, 255u8);
    let before = raster.data.to_vec();

    let brush = Brush {
        radius_cells: single(3.0),
        falloff: single(0.0),
        strength: single(1.0),
        mode: BrushMode::Smooth,
        ..Brush::default()
    };
    stroke(&brush, &mut raster, document(32), &[(16.5, 16.5)]);

    assert!(at(&raster, 16, 16) < 0.5);
    assert!(at(&raster, 15, 16) > 0.0);
    assert_eq!(raster.data[0], before[0]);
}

// A coarse layer is stretched over the document rather than matching it, so a
// stroke in cell coordinates has to land in the same place whatever resolution
// it is painted at.
#[test]
fn a_stroke_lands_in_the_same_place_on_a_coarse_raster_as_on_a_fine_one() {
    let brush = Brush {
        radius_cells: single(16.0),
        falloff: single(0.5),
        strength: single(1.0),
        ..Brush::default()
    };
    let mut fine = Raster::new(UVec2::splat(64), 0u8);
    let mut coarse = Raster::new(UVec2::splat(16), 0u8);
    let points = [(16.0, 16.0)];
    stroke(&brush, &mut fine, document(64), &points);
    stroke(&brush, &mut coarse, document(64), &points);

    assert!(at(&fine, 16, 16) > 0.5);
    assert!(at(&coarse, 4, 4) > 0.5);
    assert_eq!(at(&coarse, 15, 15), 0.0);
}

// A stroke off the left edge lands nowhere rather than on the first texel.
#[test]
fn a_stroke_outside_the_document_writes_nothing_rather_than_wrapping() {
    let mut raster = raster(32);
    let brush = Brush { radius_cells: single(4.0), strength: single(1.0), ..Brush::default() };
    let touched = stroke(&brush, &mut raster, document(32), &[(-100.0, -100.0)]);
    assert!(touched.is_empty());
    assert!(raster.data.iter().all(|byte| *byte == 0));
}

// Both are states the editor passes through on the way to a real stroke: a
// press before any motion, and a radius dragged to zero.
#[test]
fn a_stroke_with_no_points_and_a_brush_with_no_radius_do_nothing() {
    let mut raster = raster(32);
    let brush = Brush { strength: single(1.0), ..Brush::default() };
    assert!(stroke(&brush, &mut raster, document(32), &[]).is_empty());
    let point = Brush { radius_cells: single(0.0), ..brush };
    assert!(stroke(&point, &mut raster, document(32), &[(16.0, 16.0)]).is_empty());
    assert!(raster.data.iter().all(|byte| *byte == 0));
}

// A rectangle holds its first corner and not its last.
#[test]
fn a_rectangle_holds_its_first_corner_and_not_its_last() {
    let rect = CellRect::new(UVec2::new(2, 3), UVec2::new(5, 4));
    assert!(rect.contains(2, 3) && rect.contains(4, 3));
    assert!(!rect.contains(5, 3) && !rect.contains(2, 4) && !rect.contains(1, 3));
    assert_eq!((rect.width(), rect.height()), (3, 1));
    let wider = rect.expand(3);
    assert_eq!(wider, CellRect::new(UVec2::new(0, 0), UVec2::new(8, 7)));
    let whole = CellRect::from_size(UVec2::new(6, 6));
    assert_eq!(wider.intersect(whole), CellRect::new(UVec2::new(0, 0), UVec2::new(6, 6)));
    assert!(CellRect::empty().is_empty());
    assert_eq!(CellRect::new(UVec2::new(5, 5), UVec2::new(2, 2)).width(), 0);
}

// The cells of some texels are rounded outwards.
#[test]
fn the_cells_of_a_texel_are_rounded_outwards() {
    let texels = CellRect::new(UVec2::new(1, 1), UVec2::new(2, 2));
    let cells = covered_cells(texels, UVec2::splat(3), UVec2::splat(10));
    assert_eq!(cells, CellRect::new(UVec2::new(3, 3), UVec2::new(7, 7)));
}

// A window is the texels of a rectangle and those around it, as far as the raster goes.
#[test]
fn a_window_reads_around_a_texel_as_far_as_the_raster_goes() {
    let raster = Raster::from_vec(UVec2::new(3, 2), vec![1u8, 2, 3, 4, 5, 6]).unwrap();
    let texel = CellRect::new(UVec2::new(0, 0), UVec2::new(1, 1));
    let window = Window::of(&raster, texel, true);
    assert_eq!(window.at(1, 1), Some(5));
    assert_eq!(window.at(2, 0), None);
    assert_eq!(window.around(0, 0), vec![1, 2, 4, 5]);
    assert!(Window::of(&raster, texel, false).around(0, 0).is_empty());
}

// Bytes are laid down row by row, and a texel without one is left as it was.
#[test]
fn a_texel_with_no_byte_is_left_as_it_was() {
    let mut raster = Raster::new(UVec2::splat(3), 9u8);
    let texels = CellRect::new(UVec2::new(1, 1), UVec2::new(3, 2));
    lay_down(&mut raster, texels, &vec![Some(1), None]);
    assert_eq!(raster.data, vec![9, 9, 9, 9, 1, 9, 9, 9, 9]);
    let brush = Brush::default();
    let rect = brush.stroke(&mut raster, UVec2::splat(3), 1, (0, 0), (3, 3), &vec![Some(1)]);
    assert!(rect.is_empty());
    assert_eq!(raster.data[0], 9);
}

// The brush a session starts with.
#[test]
fn a_new_brush_adds_softly() {
    let brush = Brush::default();
    assert_eq!(brush.mode, BrushMode::Add);
    assert_eq!(BrushMode::default(), BrushMode::Add);
    assert_eq!(brush.falloff, single(0.5));
    assert_eq!(brush.strength, single(0.25));
    assert_eq!(brush.value, single(1.0));
}

//! Bresenham segments and sub-cell polylines.

use chandelier::line::rasterize;
use chandelier::{draw_segment, Canvas, Marker, Paint};

fn at(canvas: &Canvas, col: u16, row: u16) -> Option<(char, Paint)> {
    canvas
        .marks()
        .iter()
        .rev()
        .find(|m| m.col == col && m.row == row)
        .map(|m| (m.glyph, m.paint))
}

fn grid(canvas: &Canvas) -> Vec<String> {
    (0..canvas.height())
        .map(|y| (0..canvas.width()).map(|x| at(canvas, x, y).map_or(' ', |(g, _)| g)).collect())
        .collect()
}

#[test]
fn a_segment_visits_every_point_from_end_to_end() {
    assert_eq!(draw_segment((0, 0), (3, 0)), vec![(0, 0), (1, 0), (2, 0), (3, 0)]);
    assert_eq!(draw_segment((2, 5), (2, 3)), vec![(2, 5), (2, 4), (2, 3)]);
    assert_eq!(draw_segment((0, 0), (2, 2)), vec![(0, 0), (1, 1), (2, 2)]);
    assert_eq!(draw_segment((4, 4), (4, 4)), vec![(4, 4)]);
}

#[test]
fn a_shallow_segment_steps_in_y_every_other_column() {
    assert_eq!(draw_segment((0, 0), (4, 2)), vec![(0, 0), (1, 1), (2, 1), (3, 2), (4, 2)]);
    assert_eq!(draw_segment((4, 2), (0, 0)), vec![(4, 2), (3, 1), (2, 1), (1, 0), (0, 0)]);
}

#[test]
fn segments_are_eight_connected() {
    for (a, b) in [((0, 0), (7, 3)), ((5, 1), (0, 9)), ((3, 3), (9, 3)), ((6, 2), (1, 2))] {
        let pts = draw_segment(a, b);
        assert_eq!(pts.first(), Some(&a));
        assert_eq!(pts.last(), Some(&b));
        for w in pts.windows(2) {
            assert!((w[1].0 - w[0].0).abs() <= 1 && (w[1].1 - w[0].1).abs() <= 1);
            assert_ne!(w[0], w[1]);
        }
    }
}

#[test]
fn a_braille_line_folds_its_dots_into_one_glyph_per_cell() {
    // A horizontal run along the top dot row of two cells.
    let mut canvas = Canvas::new(2, 1);
    rasterize(&mut canvas, &[Some((0, 0)), Some((3, 0))], Marker::Braille);
    // Both top dots of each cell: pattern 0b11 is '⠉'.
    assert_eq!(grid(&canvas), ["⠉⠉"]);
    assert_eq!(at(&canvas, 0, 0).map(|(_, p)| p), Some(Paint::Line));
}

#[test]
fn a_quadrant_line_folds_its_sub_cells_into_quadrant_glyphs() {
    // A diagonal from the top-left to the bottom-right sub-cell of two cells.
    let mut canvas = Canvas::new(2, 2);
    rasterize(&mut canvas, &[Some((0, 0)), Some((3, 3))], Marker::Quadrant);
    assert_eq!(grid(&canvas), ["▚ ", " ▚"]);
}

#[test]
fn none_breaks_the_line() {
    // Two isolated points, not joined across the gap.
    let mut canvas = Canvas::new(4, 1);
    rasterize(&mut canvas, &[Some((0, 0)), None, Some((6, 0))], Marker::Quadrant);
    assert_eq!(grid(&canvas), ["▘  ▘"]);
}

#[test]
fn block_and_box_drawing_lines_fall_back_to_quadrants() {
    assert_eq!(Marker::Block.line_rasterizer(), Marker::Quadrant);
    assert_eq!(Marker::BoxDrawing.line_rasterizer(), Marker::Quadrant);
    assert_eq!(Marker::Quadrant.line_rasterizer(), Marker::Quadrant);
    assert_eq!(Marker::Braille.line_rasterizer(), Marker::Braille);
}

#[test]
fn a_segment_lights_one_point_per_step_along_its_longer_axis() {
    for (a, b) in [((0, 0), (7, 3)), ((5, 1), (0, 9)), ((3, 3), (9, 3)), ((2, 8), (-4, 2)), ((1, 1), (1, 1))] {
        let pts = draw_segment(a, b);
        let longer = (b.0 - a.0).abs().max((b.1 - a.1).abs());
        assert_eq!(pts.len() as i64, longer + 1, "{a:?} -> {b:?}");
        for (i, p) in pts.iter().enumerate() {
            assert!(!pts[..i].contains(p), "{p:?} repeated in {pts:?}");
        }
        for w in pts.windows(2) {
            let (dx, dy) = (w[1].0 - w[0].0, w[1].1 - w[0].1);
            assert!(dx == 0 || dx == (b.0 - a.0).signum(), "{pts:?}");
            assert!(dy == 0 || dy == (b.1 - a.1).signum(), "{pts:?}");
        }
    }
}

#[test]
fn a_segment_far_from_the_origin_is_walked_without_overflow() {
    let (hi, lo) = (i64::MAX, i64::MIN);
    assert_eq!(
        draw_segment((hi - 3, lo), (hi, lo + 1)),
        vec![(hi - 3, lo), (hi - 2, lo), (hi - 1, lo + 1), (hi, lo + 1)]
    );
}

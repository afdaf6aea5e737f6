//! Box-drawing candles, drawn from fractional geometry rounded the way a
//! front end rounds it onto whole cells.

use chandelier::box_drawing::{draw_candle, footprint};
use chandelier::{BodyFill, Canvas, Footprint, Paint, Quantized};

#[derive(Clone, Copy)]
struct Geom {
    left: f64,
    right: f64,
    top: f64,
    bottom: f64,
    high: f64,
    low: f64,
    fill: BodyFill,
}

fn quantize(g: &Geom) -> Quantized {
    let center = (g.left + g.right) / 2.0;
    Quantized {
        body_top: g.top.max(0.0).round() as u32,
        body_bottom: g.bottom.max(0.0).round() as u32,
        body_left: g.left.max(0.0).round() as u32,
        body_right: g.right.max(0.0).round() as u32,
        center: (center - 0.5).round() as u32,
        high: (g.high * 2.0).round() as u32,
        low: (g.low * 2.0).round() as u32,
        fill: g.fill,
    }
}

/// A body shorter than a quarter row is a flat line in the row its midpoint
/// falls in.
fn flat(g: &Geom) -> Option<u32> {
    if g.bottom - g.top < 0.25 {
        Some(((g.top + g.bottom) / 2.0).floor() as u32)
    } else {
        None
    }
}

fn draw(w: u16, h: u16, g: &Geom) -> Canvas {
    let mut canvas = Canvas::new(w, h);
    let tee_col = ((g.left + g.right) / 2.0).floor() as u32;
    draw_candle(&mut canvas, quantize(g), tee_col, flat(g));
    canvas
}

fn at(canvas: &Canvas, col: u16, row: u16) -> Option<(char, Paint)> {
    canvas
        .marks()
        .iter()
        .rev()
        .find(|m| m.col == col && m.row == row)
        .map(|m| (m.glyph, m.paint))
}

fn symbol(canvas: &Canvas, col: u16, row: u16) -> char {
    at(canvas, col, row).map_or(' ', |(g, _)| g)
}

fn paint(canvas: &Canvas, col: u16, row: u16) -> Option<Paint> {
    at(canvas, col, row).map(|(_, p)| p)
}

fn grid(canvas: &Canvas) -> Vec<String> {
    (0..canvas.height())
        .map(|y| (0..canvas.width()).map(|x| symbol(canvas, x, y)).collect())
        .collect()
}

/// The bounding box (inclusive) of the non-empty cells, or `None` if empty.
fn bounds(canvas: &Canvas) -> Option<(u16, u16, u16, u16)> {
    let mut b: Option<(u16, u16, u16, u16)> = None;
    for y in 0..canvas.height() {
        for x in 0..canvas.width() {
            if symbol(canvas, x, y) != ' ' {
                b = Some(match b {
                    None => (x, x, y, y),
                    Some((x0, x1, y0, y1)) => (x0.min(x), x1.max(x), y0.min(y), y1.max(y)),
                });
            }
        }
    }
    b
}

fn candle(x0: f64, x1: f64, top: f64, bottom: f64, fill: BodyFill) -> Geom {
    Geom { left: x0, right: x1, top, bottom, high: top, low: bottom, fill }
}

fn hollow(x0: f64, x1: f64, top: f64, bottom: f64) -> Geom {
    candle(x0, x1, top, bottom, BodyFill::Hollow)
}

fn filled(x0: f64, x1: f64, top: f64, bottom: f64) -> Geom {
    candle(x0, x1, top, bottom, BodyFill::Filled)
}

#[test]
fn footprint_reduces_a_body_to_inclusive_cell_indices() {
    let fp = footprint(3, 3, quantize(&hollow(0.0, 3.0, 0.0, 2.0)));
    assert_eq!(fp, Footprint { row_top: 0, row_bot: 2, col_left: 0, col_right: 2 });
    assert!(fp.closeable());
}

#[test]
fn footprint_is_not_closeable_when_one_cell_wide() {
    let fp = footprint(3, 3, quantize(&hollow(0.0, 1.0, 0.0, 2.0)));
    assert_eq!(fp.col_left, fp.col_right);
    assert!(!fp.closeable());
}

#[test]
fn footprint_is_not_closeable_when_one_cell_tall() {
    // Both edges round to row 0, so there is no distinct bottom edge.
    let fp = footprint(3, 3, quantize(&hollow(0.0, 3.0, 0.0, 0.4)));
    assert_eq!(fp.row_top, fp.row_bot);
    assert!(!fp.closeable());
}

#[test]
fn three_by_three_hollow_traces_a_full_outline() {
    let canvas = draw(3, 3, &hollow(0.0, 3.0, 0.0, 2.0));
    assert_eq!(grid(&canvas), ["┌─┐", "│ │", "└─┘"]);
    assert_eq!(paint(&canvas, 0, 0), Some(Paint::Body));
    // The interior is left untouched.
    assert_eq!(at(&canvas, 1, 1), None);
}

#[test]
fn wide_hollow_fuses_the_wick_into_its_edges_with_tees() {
    let g = Geom { high: 0.0, low: 6.0, ..hollow(0.0, 3.0, 2.0, 4.0) };
    let canvas = draw(3, 6, &g);
    assert_eq!(symbol(&canvas, 1, 0), '│');
    assert_eq!(paint(&canvas, 1, 0), Some(Paint::Wick));
    assert_eq!(symbol(&canvas, 1, 2), '┴', "top edge fuses the upper wick");
    assert_eq!(paint(&canvas, 1, 2), Some(Paint::Body));
    assert_eq!(symbol(&canvas, 1, 4), '┬', "bottom edge fuses the lower wick");
    assert_eq!(symbol(&canvas, 1, 5), '│');
    assert_eq!(symbol(&canvas, 0, 2), '┌');
    assert_eq!(symbol(&canvas, 2, 2), '┐');
}

#[test]
fn narrow_hollow_leaves_corners_intact_and_the_wick_floats() {
    let g = Geom { high: 0.0, ..hollow(0.0, 2.0, 1.0, 2.0) };
    let canvas = draw(2, 4, &g);
    assert_eq!(symbol(&canvas, 0, 1), '┌');
    assert_eq!(symbol(&canvas, 1, 1), '┐', "corner is not replaced by a tee");
    assert_eq!(symbol(&canvas, 1, 0), '│', "wick floats above the corner");
    assert_eq!(paint(&canvas, 1, 0), Some(Paint::Wick));
}

#[test]
fn hollow_without_wick_reach_keeps_plain_edges() {
    let canvas = draw(3, 3, &hollow(0.0, 3.0, 0.0, 2.0));
    assert_eq!(symbol(&canvas, 1, 0), '─');
    assert_eq!(symbol(&canvas, 1, 2), '─');
}

#[test]
fn two_by_two_hollow_is_a_corners_only_ring() {
    let canvas = draw(2, 2, &hollow(0.0, 2.0, 0.0, 1.0));
    assert_eq!(grid(&canvas), ["┌┐", "└┘"]);
}

#[test]
fn three_by_three_filled_fills_the_outline_bounds_with_quadrant_blocks() {
    let canvas = draw(3, 3, &filled(0.0, 3.0, 0.0, 2.0));
    assert_eq!(grid(&canvas), ["▗▄▖", "▐█▌", "▝▀▘"]);
    assert_eq!(paint(&canvas, 1, 1), Some(Paint::Body));
}

#[test]
fn filled_and_hollow_occupy_the_same_space() {
    let filled_canvas = draw(5, 5, &filled(1.0, 4.0, 1.0, 3.0));
    let hollow_canvas = draw(5, 5, &hollow(1.0, 4.0, 1.0, 3.0));
    assert_eq!(bounds(&filled_canvas), bounds(&hollow_canvas));
    assert_eq!(bounds(&filled_canvas), Some((1, 3, 1, 3)));
}

#[test]
fn one_cell_wide_hollow_fills_the_same_space_as_filled() {
    let hollow_canvas = draw(1, 3, &hollow(0.0, 1.0, 0.0, 3.0));
    let filled_canvas = draw(1, 3, &filled(0.0, 1.0, 0.0, 3.0));
    assert_eq!(hollow_canvas.marks(), filled_canvas.marks());
}

#[test]
fn doji_with_both_wicks_is_a_cross() {
    let g = Geom { high: 0.0, low: 5.0, ..hollow(0.0, 3.0, 2.0, 2.0) };
    let canvas = draw(3, 5, &g);
    assert_eq!(grid(&canvas), [" │ ", " │ ", "─┼─", " │ ", " │ "]);
    assert_eq!(symbol(&canvas, 1, 2), '┼');
    assert_eq!(paint(&canvas, 1, 2), Some(Paint::Body));
    assert_eq!(paint(&canvas, 1, 0), Some(Paint::Wick));
}

#[test]
fn short_body_with_one_wick_is_a_tee() {
    let g = Geom { high: 0.0, low: 2.0, ..hollow(0.0, 3.0, 2.0, 2.0) };
    let canvas = draw(3, 4, &g);
    assert_eq!(symbol(&canvas, 1, 2), '┴', "the line fuses the upper wick only");
    assert_eq!(symbol(&canvas, 0, 2), '─');
    assert_eq!(symbol(&canvas, 2, 2), '─');
}

#[test]
fn flat_body_without_wicks_is_a_plain_line() {
    let canvas = draw(3, 3, &hollow(0.0, 3.0, 1.0, 1.0));
    assert_eq!(grid(&canvas), ["   ", "───", "   "]);
    assert_eq!(paint(&canvas, 1, 1), Some(Paint::Body));
}

#[test]
fn near_flat_body_lands_on_the_nearest_cell_center() {
    let g = Geom { high: 0.0, low: 4.0, ..hollow(0.0, 3.0, 1.65, 1.85) };
    let canvas = draw(3, 4, &g);
    assert_eq!(grid(&canvas), [" │ ", "─┼─", " │ ", " │ "]);
}

#[test]
fn body_above_the_flat_threshold_quantizes_to_quadrant_blocks() {
    let canvas = draw(3, 4, &hollow(0.0, 3.0, 1.1, 1.4));
    assert_eq!(grid(&canvas), ["   ", "▗▄▖", "   ", "   "]);
}

#[test]
fn filled_and_hollow_dojis_are_identical() {
    let g = |fill| Geom { high: 0.0, low: 5.0, ..candle(0.0, 3.0, 2.0, 2.0, fill) };
    let filled_canvas = draw(3, 5, &g(BodyFill::Filled));
    let hollow_canvas = draw(3, 5, &g(BodyFill::Hollow));
    assert_eq!(filled_canvas.marks(), hollow_canvas.marks());
}

#[test]
fn filled_body_draws_a_wick_above_it() {
    let g = Geom { high: 0.0, ..filled(0.0, 1.0, 2.0, 3.0) };
    let canvas = draw(1, 4, &g);
    assert_eq!(symbol(&canvas, 0, 0), '│');
    assert_eq!(paint(&canvas, 0, 0), Some(Paint::Wick));
}

//! Eighth-block candles, drawn from fractional geometry rounded the way a
//! front end rounds it onto the eighth-block grid.

use chandelier::block::{body_segment, draw_candle};
use chandelier::{BodyFill, Canvas, Paint, Quantized};

/// Fractional candle geometry, measured in rows and columns from the plot's
/// top-left corner.
struct Geom {
    left: f64,
    right: f64,
    top: f64,
    bottom: f64,
    high: f64,
    low: f64,
    fill: BodyFill,
}

fn quantize(g: &Geom) -> Quantized {
    let center = (g.left + g.right) / 2.0;
    Quantized {
        body_top: (g.top * 8.0).round() as u32,
        body_bottom: (g.bottom * 8.0).round() as u32,
        body_left: g.left.round() as u32,
        body_right: g.right.round() as u32,
        center: (center - 0.5).round() as u32,
        high: (g.high * 2.0).round() as u32,
        low: (g.low * 2.0).round() as u32,
        fill: g.fill,
    }
}

fn draw(w: u16, h: u16, g: &Geom) -> Canvas {
    let mut canvas = Canvas::new(w, h);
    draw_candle(&mut canvas, quantize(g));
    canvas
}

/// The last write at `(col, row)`.
fn at(canvas: &Canvas, col: u16, row: u16) -> Option<(char, Paint)> {
    canvas
        .marks()
        .iter()
        .rev()
        .find(|m| m.col == col && m.row == row)
        .map(|m| (m.glyph, m.paint))
}

fn symbol(canvas: &Canvas, col: u16, row: u16) -> char {
    at(canvas, col, row).map_or(' ', |(g, _)| g)
}

fn paint(canvas: &Canvas, col: u16, row: u16) -> Option<Paint> {
    at(canvas, col, row).map(|(_, p)| p)
}

const PARTIAL: [char; 7] = ['▁', '▂', '▃', '▄', '▅', '▆', '▇'];

fn is_partial(symbol: char) -> bool {
    PARTIAL.contains(&symbol)
}

/// A single-column filled candle at column 0.
fn geometry(top: f64, bottom: f64, high: f64, low: f64) -> Geom {
    Geom { left: 0.0, right: 1.0, top, bottom, high, low, fill: BodyFill::Filled }
}

/// A candle at columns `[x0, x1)` spanning the given rows, hollow.
fn hollow(x0: u16, x1: u16, top: f64, bottom: f64) -> Geom {
    Geom {
        left: f64::from(x0),
        right: f64::from(x1),
        top,
        bottom,
        high: top,
        low: bottom,
        fill: BodyFill::Hollow,
    }
}

const UNREVERSED: Paint = Paint::Segment { reversed: false };
const REVERSED: Paint = Paint::Segment { reversed: true };

#[test]
fn block_full_cell_is_a_solid_block() {
    let canvas = draw(1, 1, &geometry(0.0, 1.0, 0.0, 1.0));
    assert_eq!(symbol(&canvas, 0, 0), '█');
    assert_eq!(paint(&canvas, 0, 0), Some(UNREVERSED));
}

#[test]
fn flush_top_segment_uses_reverse_to_fill_the_top() {
    // Top half of the cell only (rows 0.0 .. 0.5 => eighths 0..4).
    let canvas = draw(1, 1, &geometry(0.0, 0.5, 0.0, 0.5));
    let s = symbol(&canvas, 0, 0);
    assert!(is_partial(s), "got {:?}", s);
    // The body in the foreground over the background, reversed by the
    // terminal so the lit eighths sit at the top.
    assert_eq!(paint(&canvas, 0, 0), Some(REVERSED));
}

#[test]
fn flush_top_segment_is_transparent_over_a_reset_background() {
    // Whatever the background is, even the terminal default, the body stays in
    // the foreground and reverse video swaps the two on display.
    let canvas = draw(1, 1, &geometry(0.0, 0.5, 0.0, 0.5));
    let s = symbol(&canvas, 0, 0);
    assert!(is_partial(s), "got {:?}", s);
    assert_eq!(s, '▄');
    assert_eq!(paint(&canvas, 0, 0), Some(REVERSED));
}

#[test]
fn bottom_anchored_segment_lights_from_the_bottom() {
    // Bottom half of the cell (rows 0.5 .. 1.0 => eighths 4..8).
    let canvas = draw(1, 1, &geometry(0.5, 1.0, 0.5, 1.0));
    let s = symbol(&canvas, 0, 0);
    assert!(is_partial(s), "got {:?}", s);
    assert_eq!(paint(&canvas, 0, 0), Some(UNREVERSED));
}

#[test]
fn wick_floats_above_the_body_without_bleeding_into_its_edge() {
    // Body top has a partial edge in row 1 (top_sub 12 => a == 4); a high
    // above it puts a wick in row 0 that floats free of the body.
    let canvas = draw(1, 4, &geometry(1.5, 3.0, 0.0, 4.0));
    assert_eq!(symbol(&canvas, 0, 0), '│');
    assert_eq!(paint(&canvas, 0, 0), Some(Paint::Wick));

    let edge = symbol(&canvas, 0, 1);
    assert!(is_partial(edge), "got {:?}", edge);
    assert_eq!(paint(&canvas, 0, 1), Some(UNREVERSED));
}

#[test]
fn lower_wick_tip_uses_a_half_glyph_when_the_low_lands_mid_cell() {
    let canvas = draw(1, 4, &geometry(0.0, 1.0, 0.0, 2.0));
    assert_eq!(symbol(&canvas, 0, 1), '│', "full wick cell below the body");
    assert_eq!(symbol(&canvas, 0, 2), '╵', "half-row tip at the low");
    assert_eq!(paint(&canvas, 0, 2), Some(Paint::Wick));
}

#[test]
fn upper_wick_tip_uses_a_half_glyph_when_the_high_lands_mid_cell() {
    let canvas = draw(1, 4, &geometry(3.0, 4.0, 2.5, 4.0));
    assert_eq!(symbol(&canvas, 0, 2), '╷', "half-row tip at the high");
    assert_eq!(paint(&canvas, 0, 2), Some(Paint::Wick));
    assert_eq!(symbol(&canvas, 0, 3), '█', "solid body cell");
}

#[test]
fn hollow_body_keeps_an_eighth_block_border_and_clears_the_interior() {
    let canvas = draw(3, 3, &hollow(0, 3, 0.0, 3.0));
    for x in 0..3 {
        assert_eq!(symbol(&canvas, x, 0), '█', "top border at {x}");
        assert_eq!(symbol(&canvas, x, 2), '█', "bottom border at {x}");
    }
    assert_eq!(symbol(&canvas, 0, 1), '█', "left wall");
    assert_eq!(symbol(&canvas, 2, 1), '█', "right wall");
    assert_eq!(paint(&canvas, 0, 0), Some(UNREVERSED));

    // The single interior cell is cleared to the background.
    assert_eq!(symbol(&canvas, 1, 1), ' ');
    assert_eq!(paint(&canvas, 1, 1), Some(Paint::Blank));
}

#[test]
fn hollow_falls_back_to_a_solid_body_below_three_columns() {
    let canvas = draw(2, 3, &hollow(0, 2, 0.0, 3.0));
    for x in 0..2 {
        for y in 0..3 {
            assert_eq!(symbol(&canvas, x, y), '█', "cell ({x}, {y}) stays solid");
        }
    }
}

#[test]
fn body_segments_pick_glyph_and_reverse_by_position() {
    assert_eq!(body_segment(0, 8), ('█', UNREVERSED));
    assert_eq!(body_segment(0, 3), ('▅', REVERSED));
    assert_eq!(body_segment(5, 8), ('▃', UNREVERSED));
    assert_eq!(body_segment(2, 5), ('▃', UNREVERSED));
}

#[test]
fn a_doji_is_still_one_eighth_tall() {
    // Open and close coincide mid-cell: the body still lights one eighth.
    let canvas = draw(1, 1, &geometry(0.5, 0.5, 0.5, 0.5));
    assert_eq!(symbol(&canvas, 0, 0), '▁');
}

#[test]
fn an_empty_plot_draws_nothing() {
    let canvas = draw(0, 0, &geometry(0.0, 1.0, 0.0, 1.0));
    assert!(canvas.marks().is_empty());
}

#[test]
fn writes_stay_inside_the_plot() {
    // A wide candle hanging off the right edge, with wicks past both ends.
    let g = Geom { left: 2.0, right: 9.0, top: -1.0, bottom: 7.0, high: -3.0, low: 12.0, fill: BodyFill::Hollow };
    let canvas = draw(4, 5, &g);
    assert!(canvas.marks().iter().all(|m| m.col < 4 && m.row < 5));
}

/// The fractional geometry a chart lays out for one candle `(open, high, low,
/// close)` whose left edge is at column `left` and which is `width` columns
/// wide, in a plot `height` rows tall whose price axis autoscales to
/// `[lo, hi]` padded by `pad` of the span at each end.
fn chart_candle(ohlc: (f64, f64, f64, f64), left: f64, width: f64, lo: f64, hi: f64, pad: f64, height: u16) -> Geom {
    let extra = (hi - lo).abs() * pad;
    let (min, max) = (lo - extra, hi + extra);
    let row = |v: f64| ((1.0 - (v - min) / (max - min)) * f64::from(height)).clamp(0.0, f64::from(height));
    let (open, high, low, close) = ohlc;
    Geom {
        left,
        right: left + width,
        top: row(open.max(close)),
        bottom: row(open.min(close)),
        high: row(high),
        low: row(low),
        fill: BodyFill::Filled,
    }
}

/// The single tall candle the rendering tests draw into a one-column plot.
fn tall_candle() -> Canvas {
    draw(1, 24, &chart_candle((100.0, 130.0, 70.0, 104.0), 0.0, 1.0, 70.0, 130.0, 0.05, 24))
}

#[test]
fn partial_body_edges_keep_the_background_and_never_overstate_the_body() {
    // A partial edge cell is painted body-on-background, never with the wick.
    let canvas = tall_candle();
    for y in 0..24 {
        if is_partial(symbol(&canvas, 0, y)) {
            assert!(
                matches!(paint(&canvas, 0, y), Some(Paint::Segment { .. })),
                "partial edge cell at row {y} should be body-on-background"
            );
        }
    }
}

#[test]
fn partial_wick_tips_use_a_half_glyph_in_the_wick_color() {
    let canvas = tall_candle();
    let mut saw_half_tip = false;
    for y in 0..24 {
        let s = symbol(&canvas, 0, y);
        if s == '╵' || s == '╷' {
            saw_half_tip = true;
            assert_eq!(paint(&canvas, 0, y), Some(Paint::Wick), "half wick tip at row {y}");
        }
    }
    assert!(saw_half_tip, "expected a half-row wick tip");
}

#[test]
fn partial_bodies_render_over_a_transparent_background() {
    // A partial body cell takes the body color over whatever the plot
    // background is, the terminal default included.
    let canvas = tall_candle();
    let mut saw_partial = false;
    for y in 0..24 {
        if is_partial(symbol(&canvas, 0, y)) {
            saw_partial = true;
            assert!(matches!(paint(&canvas, 0, y), Some(Paint::Segment { .. })), "row {y}");
        }
    }
    assert!(saw_partial, "expected at least one partial body cell");
}

#[test]
fn candle_glyph_grid_is_stable() {
    let candles = [(100.0, 106.0, 99.0, 105.0), (105.0, 109.0, 104.0, 104.5), (104.5, 105.0, 98.0, 99.0)];
    let mut canvas = Canvas::new(12, 8);
    for (i, c) in candles.iter().enumerate() {
        let g = chart_candle(*c, i as f64 * 4.0, 3.0, 98.0, 109.0, 0.05, 8);
        draw_candle(&mut canvas, quantize(&g));
    }
    let grid: Vec<String> = (0..8).map(|y| (0..12).map(|x| symbol(&canvas, x, y)).collect()).collect();
    let expected = [
        "     ╷      ",
        "     │      ",
        " ╷   │      ",
        "███ ▅▅▅ ▅▅▅ ",
        "███     ███ ",
        "███     ███ ",
        "▅▅▅     ███ ",
        " ╵       │  ",
    ];
    assert_eq!(grid, expected);
}

#[test]
fn an_empty_plot_accepts_any_geometry() {
    let q = Quantized {
        body_top: u32::MAX,
        body_bottom: u32::MAX,
        body_left: u32::MAX,
        body_right: u32::MAX,
        center: 0,
        high: 0,
        low: 0,
        fill: BodyFill::Filled,
    };
    for (w, h) in [(0, 5), (5, 0), (0, 0)] {
        let mut canvas = Canvas::new(w, h);
        draw_candle(&mut canvas, q);
        chandelier::quadrant::draw_candle(&mut canvas, q);
        chandelier::braille::draw_candle(&mut canvas, q);
        assert!(canvas.marks().is_empty());
    }
}

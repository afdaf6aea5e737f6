//! Quadrant-block candles, drawn from fractional geometry rounded the way a
//! front end rounds it onto the 2x2 sub-cell grid.

use chandelier::quadrant::{draw_candle, fill_subcells, SubRect};
use chandelier::{BodyFill, Canvas, Paint, Quantized};

struct Geom {
    left: f64,
    right: f64,
    top: f64,
    bottom: f64,
    high: f64,
    low: f64,
    fill: BodyFill,
}

fn quantize(g: &Geom) -> Quantized {
    let center = (g.left + g.right) / 2.0;
    Quantized {
        body_top: (g.top * 2.0).round() as u32,
        body_bottom: (g.bottom * 2.0).round() as u32,
        body_left: (g.left * 2.0).round() as u32,
        body_right: (g.right * 2.0).round() as u32,
        center: (center - 0.5).round() as u32,
        high: (g.high * 2.0).round() as u32,
        low: (g.low * 2.0).round() as u32,
        fill: g.fill,
    }
}

fn draw(w: u16, h: u16, g: &Geom) -> Canvas {
    let mut canvas = Canvas::new(w, h);
    draw_candle(&mut canvas, quantize(g));
    canvas
}

fn at(canvas: &Canvas, col: u16, row: u16) -> Option<(char, Paint)> {
    canvas
        .marks()
        .iter()
        .rev()
        .find(|m| m.col == col && m.row == row)
        .map(|m| (m.glyph, m.paint))
}

fn symbol(canvas: &Canvas, col: u16, row: u16) -> char {
    at(canvas, col, row).map_or(' ', |(g, _)| g)
}

fn paint(canvas: &Canvas, col: u16, row: u16) -> Option<Paint> {
    at(canvas, col, row).map(|(_, p)| p)
}

fn grid(canvas: &Canvas) -> Vec<String> {
    (0..canvas.height())
        .map(|y| (0..canvas.width()).map(|x| symbol(canvas, x, y)).collect())
        .collect()
}

fn geometry(top: f64, bottom: f64, high: f64, low: f64) -> Geom {
    Geom { left: 0.0, right: 1.0, top, bottom, high, low, fill: BodyFill::Filled }
}

fn hollow(x0: u16, x1: u16, top: f64, bottom: f64) -> Geom {
    Geom {
        left: f64::from(x0),
        right: f64::from(x1),
        top,
        bottom,
        high: top,
        low: bottom,
        fill: BodyFill::Hollow,
    }
}

#[test]
fn quadrant_full_cell_is_a_solid_block() {
    let canvas = draw(1, 1, &geometry(0.0, 1.0, 0.0, 1.0));
    assert_eq!(symbol(&canvas, 0, 0), '█');
    assert_eq!(paint(&canvas, 0, 0), Some(Paint::Body));
}

#[test]
fn top_half_is_an_upper_half_block() {
    let canvas = draw(1, 1, &geometry(0.0, 0.5, 0.0, 0.5));
    assert_eq!(symbol(&canvas, 0, 0), '▀');
    assert_eq!(paint(&canvas, 0, 0), Some(Paint::Body));
}

#[test]
fn bottom_half_is_a_lower_half_block() {
    let canvas = draw(1, 1, &geometry(0.5, 1.0, 0.5, 1.0));
    assert_eq!(symbol(&canvas, 0, 0), '▄');
    assert_eq!(paint(&canvas, 0, 0), Some(Paint::Body));
}

#[test]
fn partial_body_renders_over_a_transparent_background() {
    // The half block lights its top half in the body color over whatever the
    // background is: no reverse video is involved.
    let canvas = draw(1, 1, &geometry(0.0, 0.5, 0.0, 0.5));
    assert_eq!(symbol(&canvas, 0, 0), '▀');
    assert_eq!(paint(&canvas, 0, 0), Some(Paint::Body));
}

#[test]
fn half_width_body_lights_one_sub_cell_column() {
    let g = Geom { right: 0.5, ..geometry(0.0, 1.0, 0.0, 1.0) };
    let canvas = draw(1, 1, &g);
    assert_eq!(symbol(&canvas, 0, 0), '▌');
    assert_eq!(paint(&canvas, 0, 0), Some(Paint::Body));
}

#[test]
fn wick_uses_the_block_line_glyphs() {
    let canvas = draw(1, 4, &geometry(0.0, 1.0, 0.0, 2.0));
    assert_eq!(symbol(&canvas, 0, 1), '│', "full wick cell below the body");
    assert_eq!(symbol(&canvas, 0, 2), '╵', "half-row tip at the low");
    assert_eq!(paint(&canvas, 0, 2), Some(Paint::Wick));
}

#[test]
fn hollow_body_lights_only_its_border_sub_cells() {
    let canvas = draw(3, 3, &hollow(0, 3, 0.0, 3.0));
    assert_eq!(grid(&canvas), ["▛▀▜", "▌ ▐", "▙▄▟"]);
    assert_eq!(paint(&canvas, 0, 0), Some(Paint::Body));
    // The interior cell is untouched.
    assert_eq!(at(&canvas, 1, 1), None);
}

#[test]
fn hollow_two_by_two_clears_only_the_center_sub_cells() {
    let canvas = draw(2, 2, &hollow(0, 2, 0.0, 2.0));
    assert_eq!(grid(&canvas), ["▛▜", "▙▟"]);
}

#[test]
fn hollow_falls_back_to_a_solid_body_when_one_column_wide() {
    let canvas = draw(1, 3, &hollow(0, 1, 0.0, 3.0));
    for y in 0..3 {
        assert_eq!(symbol(&canvas, 0, y), '█', "cell (0, {y}) stays solid");
    }
}

#[test]
fn hollow_falls_back_to_a_solid_body_when_one_cell_tall() {
    let canvas = draw(3, 1, &hollow(0, 3, 0.0, 1.0));
    for x in 0..3 {
        assert_eq!(symbol(&canvas, x, 0), '█', "cell ({x}, 0) stays solid");
    }
}

#[test]
fn filling_sub_cells_folds_each_cell_into_one_glyph() {
    // Sub-cells [1, 4) x [1, 3): a 3x2 block straddling four cells.
    let mut canvas = Canvas::new(3, 3);
    fill_subcells(&mut canvas, SubRect { left: 1, right: 4, top: 1, bot: 3 }, false);
    assert_eq!(grid(&canvas), ["▗▄ ", "▝▀ ", "   "]);
    // Each touched cell is written exactly once.
    assert_eq!(canvas.marks().len(), 4);
}

#[test]
fn an_empty_rectangle_lights_nothing() {
    let mut canvas = Canvas::new(3, 3);
    fill_subcells(&mut canvas, SubRect { left: 4, right: 4, top: 0, bot: 2 }, false);
    assert!(canvas.marks().is_empty());
}

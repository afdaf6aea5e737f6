//! Box-drawing rasterizer.
//!
//! Box-drawing glyphs run their line through the center of a cell, so a body
//! outline's edges land on whole cells. A closeable hollow body is traced as a
//! rectangle outline with the wick fused into it by tees; a solid body, or an
//! outline too small to close, is filled with quadrant blocks inset to the same
//! cell-center bounds; a body too short to have height is a flat line.

use vstd::prelude::*;

use crate::canvas::{lemma_keeping_twice, overlay, Canvas, Paint};
use crate::marker::BodyFill;
use crate::quadrant::{self, SubRect};
use crate::render::{quantize_span, Quantized};
use crate::wick;

verus! {

/// A candle body reduced to the whole cells it occupies within the plot,
/// inclusive of both ends. Indices are plot-relative.
#[derive(Debug, Clone, Copy, PartialEq, Eq, Structural)]
pub struct Footprint {
    pub row_top: u32,
    pub row_bot: u32,
    pub col_left: u32,
    pub col_right: u32,
}

impl Footprint {
    /// Whether the footprint has distinct top/bottom and left/right edge
    /// cells, so a rectangle outline can be closed.
    pub open spec fn is_closeable(self) -> bool {
        self.row_bot > self.row_top && self.col_right > self.col_left
    }

    /// Whether the footprint has distinct top/bottom and left/right edge
    /// cells, so a rectangle outline can be closed. A body only one cell wide
    /// or one cell tall cannot, and is filled solid instead.
    pub fn closeable(&self) -> (b: bool)
        ensures
            b == self.is_closeable(),
    {
        self.row_bot > self.row_top && self.col_right > self.col_left
    }
}

/// The footprint of a body whose edges round to the cells `q.body_top`,
/// `q.body_bottom`, `q.body_left` and `q.body_right` (exclusive), in a plot
/// `cols` x `rows`: each edge clamped into the plot, the right edge one column
/// in from its exclusive boundary.
pub open spec fn footprint_of(q: Quantized, rows: int, cols: int) -> Footprint {
    let last_row = if rows > 0 { rows - 1 } else { 0 };
    let last_col = if cols > 0 { cols - 1 } else { 0 };
    let right = if q.body_right > 0 { q.body_right - 1 } else { 0 };
    Footprint {
        row_top: (if q.body_top < last_row { q.body_top as int } else { last_row }) as u32,
        row_bot: (if q.body_bottom < last_row { q.body_bottom as int } else { last_row }) as u32,
        col_left: (if q.body_left < last_col { q.body_left as int } else { last_col }) as u32,
        col_right: (if right < last_col { right } else { last_col }) as u32,
    }
}

fn min(a: u32, b: u32) -> (m: u32)
    ensures
        m == if a < b { a } else { b },
{
    if a < b {
        a
    } else {
        b
    }
}

/// Reduces a body's rounded edges to the whole cells it occupies in a plot
/// `width` x `height`.
pub fn footprint(width: u16, height: u16, q: Quantized) -> (fp: Footprint)
    ensures
        fp == footprint_of(q, height as int, width as int),
{
    let last_row = if height > 0 { height as u32 - 1 } else { 0 };
    let last_col = if width > 0 { width as u32 - 1 } else { 0 };
    let right = if q.body_right > 0 { q.body_right - 1 } else { 0 };
    Footprint {
        row_top: min(q.body_top, last_row),
        row_bot: min(q.body_bottom, last_row),
        col_left: min(q.body_left, last_col),
        col_right: min(right, last_col),
    }
}

/// What the rectangle outline of a closeable footprint paints at `(col, row)`.
pub open spec fn outline_cell(fp: Footprint, col: int, row: int) -> Option<(char, Paint)> {
    let (t, b, l, r) = (fp.row_top as int, fp.row_bot as int, fp.col_left as int, fp.col_right as int);
    if row == t && col == l {
        Some(('┌', Paint::Body))
    } else if row == t && col == r {
        Some(('┐', Paint::Body))
    } else if row == b && col == l {
        Some(('└', Paint::Body))
    } else if row == b && col == r {
        Some(('┘', Paint::Body))
    } else if (row == t || row == b) && l < col < r {
        Some(('─', Paint::Body))
    } else if (col == l || col == r) && t < row < b {
        Some(('│', Paint::Body))
    } else {
        None
    }
}

/// Traces the rectangle outline of a closeable `fp` in the body color,
/// leaving the interior untouched.
fn draw_outline(canvas: &mut Canvas, fp: Footprint)
    requires
        fp.is_closeable(),
    ensures
        old(canvas).adds_keeping(*final(canvas)),
        final(canvas).cols() == old(canvas).cols(),
        final(canvas).rows() == old(canvas).rows(),
        forall|c: int, r: int|
            #[trigger] final(canvas).at(c, r) == overlay(
                old(canvas).at(c, r),
                old(canvas).contains(c, r),
                outline_cell(fp, c, r),
            ),
{
    let Footprint { row_top, row_bot, col_left, col_right } = fp;
    let ghost prev = *canvas;
    canvas.put(col_left, row_top, '┌', Paint::Body);
    proof { lemma_keeping_twice(*old(canvas), prev, *canvas); }
    let ghost prev = *canvas;
    canvas.put(col_right, row_top, '┐', Paint::Body);
    proof { lemma_keeping_twice(*old(canvas), prev, *canvas); }
    let ghost prev = *canvas;
    canvas.put(col_left, row_bot, '└', Paint::Body);
    proof { lemma_keeping_twice(*old(canvas), prev, *canvas); }
    let ghost prev = *canvas;
    canvas.put(col_right, row_bot, '┘', Paint::Body);
    proof { lemma_keeping_twice(*old(canvas), prev, *canvas); }
    let mut col = col_left + 1;
    while col < col_right
        invariant
            fp.is_closeable(),
            fp == (Footprint { row_top, row_bot, col_left, col_right }),
            col_left < col <= col_right,
            canvas.cols() == old(canvas).cols(),
            canvas.rows() == old(canvas).rows(),
            old(canvas).adds_keeping(*canvas),
            forall|c: int, r: int|
                #[trigger] canvas.at(c, r) == overlay(
                    old(canvas).at(c, r),
                    old(canvas).contains(c, r),
                    if (r == row_top || r == row_bot) && (c == col_left || c == col_right || c < col) {
                        outline_cell(fp, c, r)
                    } else {
                        None
                    },
                ),
        decreases col_right - col,
    {
        let ghost prev = *canvas;
        canvas.put(col, row_top, '─', Paint::Body);
        proof { lemma_keeping_twice(*old(canvas), prev, *canvas); }
        let ghost prev = *canvas;
        canvas.put(col, row_bot, '─', Paint::Body);
        proof { lemma_keeping_twice(*old(canvas), prev, *canvas); }
        col = col + 1;
    }
    let mut row = row_top + 1;
    while row < row_bot
        invariant
            fp.is_closeable(),
            fp == (Footprint { row_top, row_bot, col_left, col_right }),
            row_top < row <= row_bot,
            canvas.cols() == old(canvas).cols(),
            canvas.rows() == old(canvas).rows(),
            old(canvas).adds_keeping(*canvas),
            forall|c: int, r: int|
                #[trigger] canvas.at(c, r) == overlay(
                    old(canvas).at(c, r),
                    old(canvas).contains(c, r),
                    if r == row_top || r == row_bot || ((c == col_left || c == col_right) && r < row) {
                        outline_cell(fp, c, r)
                    } else {
                        None
                    },
                ),
        decreases row_bot - row,
    {
        let ghost prev = *canvas;
        canvas.put(col_left, row, '│', Paint::Body);
        proof { lemma_keeping_twice(*old(canvas), prev, *canvas); }
        let ghost prev = *canvas;
        canvas.put(col_right, row, '│', Paint::Body);
        proof { lemma_keeping_twice(*old(canvas), prev, *canvas); }
        row = row + 1;
    }
}

/// The wick cell of a box-drawing candle whose body spans the cell rows
/// `row_top..=row_bot`.
pub open spec fn wick_at(q: Quantized, rows: int, row_top: int, row_bot: int, col: int, row: int) -> Option<(char, Paint)> {
    wick::wick_cell(q.center as int, q.high as int, q.low as int, row_top, row_bot, rows, col, row)
}

/// Whether the upper wick reaches past the cell row `row_top`.
pub open spec fn wick_up(q: Quantized, row_top: int) -> bool {
    q.high < 2 * row_top
}

/// Whether the lower wick reaches past the cell row `row_bot`.
pub open spec fn wick_down(q: Quantized, rows: int, row_bot: int) -> bool {
    wick::clamp_low_half(q.low as int, rows) >= 2 * (row_bot + 1)
}

/// What a closeable hollow body paints at `(col, row)`: its wick, its outline,
/// and a tee at `tee_col` on each edge the wick meets, when `tee_col` lies
/// strictly between the corners.
pub open spec fn hollow_cell(q: Quantized, tee_col: int, fp: Footprint, rows: int, col: int, row: int) -> Option<(char, Paint)> {
    let tee = fp.col_left < tee_col < fp.col_right && col == tee_col;
    if tee && row == fp.row_top && wick_up(q, fp.row_top as int) {
        Some(('┴', Paint::Body))
    } else if tee && row == fp.row_bot && wick_down(q, rows, fp.row_bot as int) {
        Some(('┬', Paint::Body))
    } else if outline_cell(fp, col, row) is Some {
        outline_cell(fp, col, row)
    } else {
        wick_at(q, rows, fp.row_top as int, fp.row_bot as int, col, row)
    }
}

fn draw_hollow(canvas: &mut Canvas, q: Quantized, tee_col: u32, fp: Footprint)
    requires
        fp.is_closeable(),
        fp.row_bot < old(canvas).rows(),
        old(canvas).rows() >= 1,
        old(canvas).rows() <= 0xffff,
    ensures
        old(canvas).adds_keeping(*final(canvas)),
        final(canvas).cols() == old(canvas).cols(),
        final(canvas).rows() == old(canvas).rows(),
        forall|c: int, r: int|
            #[trigger] final(canvas).at(c, r) == overlay(
                old(canvas).at(c, r),
                old(canvas).contains(c, r),
                hollow_cell(q, tee_col as int, fp, old(canvas).rows() as int, c, r),
            ),
{
    let ghost rows = old(canvas).rows() as int;
    let (up, down) = wick::draw(canvas, q.center, q.high, q.low, fp.row_top, fp.row_bot);
    let ghost after_wick = *canvas;
    draw_outline(canvas, fp);
    let ghost after_outline = *canvas;
    proof {
        lemma_keeping_twice(*old(canvas), after_wick, after_outline);
    }
    if tee_col > fp.col_left && tee_col < fp.col_right {
        if up {
            let ghost prev = *canvas;
            canvas.put(tee_col, fp.row_top, '┴', Paint::Body);
            proof { lemma_keeping_twice(*old(canvas), prev, *canvas); }
        }
        if down {
            let ghost prev = *canvas;
            canvas.put(tee_col, fp.row_bot, '┬', Paint::Body);
            proof { lemma_keeping_twice(*old(canvas), prev, *canvas); }
        }
    }
    assert forall|c: int, r: int|
        #[trigger] canvas.at(c, r) == overlay(
            old(canvas).at(c, r),
            old(canvas).contains(c, r),
            hollow_cell(q, tee_col as int, fp, rows, c, r),
        ) by {
        assert(after_wick.at(c, r) == overlay(
            old(canvas).at(c, r),
            old(canvas).contains(c, r),
            wick_at(q, rows, fp.row_top as int, fp.row_bot as int, c, r),
        ));
        assert(after_outline.at(c, r) == overlay(
            after_wick.at(c, r),
            old(canvas).contains(c, r),
            outline_cell(fp, c, r),
        ));
    }
}

/// The glyph a flat body takes where its wicks meet it: a cross when both
/// reach, a tee for one, and the plain line for neither.
pub open spec fn flat_glyph(up: bool, down: bool) -> char {
    if up && down {
        '┼'
    } else if up {
        '┴'
    } else if down {
        '┬'
    } else {
        '─'
    }
}

/// The row of a flat body whose midpoint floors to `mid`: clamped to the
/// plot's last row.
pub open spec fn flat_row(mid: int, rows: int) -> int {
    let last_row = if rows > 0 { rows - 1 } else { 0 };
    if mid < last_row {
        mid
    } else {
        last_row
    }
}

/// What a flat body paints at `(col, row)`: a horizontal line across the
/// footprint's columns on `flat_row`, fused with the wicks at `tee_col`, and
/// the wicks above and below that row.
pub open spec fn flat_cell(
    q: Quantized,
    tee_col: int,
    mid: int,
    fp: Footprint,
    rows: int,
    col: int,
    row: int,
) -> Option<(char, Paint)> {
    let line = flat_row(mid, rows);
    if row == line && col == tee_col {
        Some((flat_glyph(wick_up(q, line), wick_down(q, rows, line)), Paint::Body))
    } else if row == line && fp.col_left <= col <= fp.col_right {
        Some(('─', Paint::Body))
    } else {
        wick_at(q, rows, line, line, col, row)
    }
}

fn draw_flat(canvas: &mut Canvas, q: Quantized, tee_col: u32, mid: u32, fp: Footprint)
    requires
        1 <= old(canvas).rows() <= 0xffff,
        fp.col_right < 0xffff,
    ensures
        old(canvas).adds_keeping(*final(canvas)),
        final(canvas).cols() == old(canvas).cols(),
        final(canvas).rows() == old(canvas).rows(),
        forall|c: int, r: int|
            #[trigger] final(canvas).at(c, r) == overlay(
                old(canvas).at(c, r),
                old(canvas).contains(c, r),
                flat_cell(q, tee_col as int, mid as int, fp, old(canvas).rows() as int, c, r),
            ),
{
    let ghost rows = old(canvas).rows() as int;
    let last_row = canvas.height() as u32 - 1;
    let row = min(mid, last_row);
    let (up, down) = wick::draw(canvas, q.center, q.high, q.low, row, row);
    let ghost after_wick = *canvas;
    let mut col = fp.col_left;
    while col <= fp.col_right
        invariant
            fp.col_left <= col,
            col == fp.col_left || col <= fp.col_right + 1,
            fp.col_right < 0xffff,
            row == flat_row(mid as int, rows),
            canvas.cols() == old(canvas).cols(),
            canvas.rows() == old(canvas).rows(),
            old(canvas).adds_keeping(*canvas),
            forall|c: int, r: int|
                #[trigger] canvas.at(c, r) == overlay(
                    after_wick.at(c, r),
                    old(canvas).contains(c, r),
                    if r == row && fp.col_left <= c < col {
                        Some(('─', Paint::Body))
                    } else {
                        None
                    },
                ),
        decreases fp.col_right + 1 - col,
    {
        let ghost prev = *canvas;
        canvas.put(col, row, '─', Paint::Body);
        proof { lemma_keeping_twice(*old(canvas), prev, *canvas); }
        col = col + 1;
    }
    let ghost after_line = *canvas;
    let symbol = if up && down {
        '┼'
    } else if up {
        '┴'
    } else if down {
        '┬'
    } else {
        '─'
    };
    let ghost prev = *canvas;
    canvas.put(tee_col, row, symbol, Paint::Body);
    proof { lemma_keeping_twice(*old(canvas), prev, *canvas); }
    assert forall|c: int, r: int|
        #[trigger] canvas.at(c, r) == overlay(
            old(canvas).at(c, r),
            old(canvas).contains(c, r),
            flat_cell(q, tee_col as int, mid as int, fp, rows, c, r),
        ) by {
        assert(after_wick.at(c, r) == overlay(
            old(canvas).at(c, r),
            old(canvas).contains(c, r),
            wick_at(q, rows, row as int, row as int, c, r),
        ));
        assert(after_line.at(c, r) == overlay(
            after_wick.at(c, r),
            old(canvas).contains(c, r),
            if r == row && fp.col_left <= c <= fp.col_right {
                Some(('─', Paint::Body))
            } else {
                None
            },
        ));
    }
}

/// The quadrant sub-cell rectangle a solid box-drawing body fills: the
/// footprint inset by half a cell on every side, at least one sub-cell each
/// way, clamped into a plot `cols` x `rows`.
pub open spec fn solid_rect(fp: Footprint, rows: int, cols: int) -> SubRect {
    let top = 2 * fp.row_top + 1;
    let bot = 2 * fp.row_bot + 1;
    let bot = if bot <= top { top + 1 } else { bot };
    let bot = if bot < 2 * rows { bot } else { 2 * rows };
    let top = if top < bot - 1 { top } else { bot - 1 };
    let left = 2 * fp.col_left + 1;
    let right = 2 * fp.col_right + 1;
    let right = if right <= left { left + 1 } else { right };
    let right = if right < 2 * cols { right } else { 2 * cols };
    SubRect { left: left as u32, right: right as u32, top: top as u32, bot: bot as u32 }
}

/// What a solid box-drawing body paints at `(col, row)`: quadrant blocks
/// over its inset rectangle, and the wick beyond it.
pub open spec fn solid_cell(q: Quantized, fp: Footprint, rows: int, cols: int, col: int, row: int) -> Option<(char, Paint)> {
    let rect = solid_rect(fp, rows, cols);
    if quadrant::fill_cell(rect, false, col, row) is Some {
        quadrant::fill_cell(rect, false, col, row)
    } else {
        wick_at(q, rows, rect.top as int / 2, (rect.bot as int - 1) / 2, col, row)
    }
}

fn fill_solid(canvas: &mut Canvas, q: Quantized, fp: Footprint)
    requires
        1 <= old(canvas).rows() <= 0xffff,
        1 <= old(canvas).cols() <= 0xffff,
        fp.row_top < old(canvas).rows(),
        fp.row_bot < old(canvas).rows(),
        fp.col_left < old(canvas).cols(),
        fp.col_right < old(canvas).cols(),
    ensures
        old(canvas).adds_keeping(*final(canvas)),
        final(canvas).cols() == old(canvas).cols(),
        final(canvas).rows() == old(canvas).rows(),
        forall|c: int, r: int|
            #[trigger] final(canvas).at(c, r) == overlay(
                old(canvas).at(c, r),
                old(canvas).contains(c, r),
                solid_cell(q, fp, old(canvas).rows() as int, old(canvas).cols() as int, c, r),
            ),
{
    let ghost rows = old(canvas).rows() as int;
    let ghost cols = old(canvas).cols() as int;
    let max_sub_y = canvas.height() as u32 * 2;
    let max_sub_x = canvas.width() as u32 * 2;
    let (top, bot) = quantize_span(fp.row_top * 2 + 1, fp.row_bot * 2 + 1, max_sub_y);
    let left = fp.col_left * 2 + 1;
    let mut right = fp.col_right * 2 + 1;
    if right <= left {
        right = left + 1;
    }
    let right = min(right, max_sub_x);
    let rect = SubRect { left, right, top, bot };
    assert(rect == solid_rect(fp, rows, cols));
    wick::draw(canvas, q.center, q.high, q.low, top / 2, (bot - 1) / 2);
    let ghost after_wick = *canvas;
    quadrant::fill_subcells(canvas, rect, false);
    proof {
        lemma_keeping_twice(*old(canvas), after_wick, *canvas);
    }
    assert forall|c: int, r: int|
        #[trigger] canvas.at(c, r) == overlay(
            old(canvas).at(c, r),
            old(canvas).contains(c, r),
            solid_cell(q, fp, rows, cols, c, r),
        ) by {
        assert(after_wick.at(c, r) == overlay(
            old(canvas).at(c, r),
            old(canvas).contains(c, r),
            wick_at(q, rows, top as int / 2, (bot as int - 1) / 2, c, r),
        ));
    }
}

/// What one box-drawing candle paints at `(col, row)` in a plot `cols` x
/// `rows`.
pub open spec fn candle_cell(
    q: Quantized,
    tee_col: int,
    flat: Option<u32>,
    rows: int,
    cols: int,
    col: int,
    row: int,
) -> Option<(char, Paint)> {
    let fp = footprint_of(q, rows, cols);
    match flat {
        Some(mid) => flat_cell(q, tee_col, mid as int, fp, rows, col, row),
        None => if q.fill == BodyFill::Hollow && fp.is_closeable() {
            hollow_cell(q, tee_col, fp, rows, col, row)
        } else {
            solid_cell(q, fp, rows, cols, col, row)
        },
    }
}

/// Draws one candle with box-drawing glyphs.
///
/// `q.body_top`, `q.body_bottom`, `q.body_left` and `q.body_right` are the
/// body's edges rounded to whole cells (the right edge exclusive), `q.center`
/// is the wick's column and `q.high` and `q.low` are in half rows. `tee_col`
/// is the column holding the body's horizontal center, where a wick fuses into
/// an edge. `flat` is `Some(mid)` for a body too short to have height, whose
/// midpoint falls in row `mid`: it is drawn as a flat line regardless of fill.
/// Otherwise a closeable hollow body is traced as an outline and anything else
/// is filled solid. An empty plot draws nothing.
pub fn draw_candle(canvas: &mut Canvas, q: Quantized, tee_col: u32, flat: Option<u32>)
    ensures
        old(canvas).adds_keeping(*final(canvas)),
        final(canvas).cols() == old(canvas).cols(),
        final(canvas).rows() == old(canvas).rows(),
        forall|c: int, r: int|
            #[trigger] final(canvas).at(c, r) == if old(canvas).cols() == 0 || old(canvas).rows() == 0 {
                old(canvas).at(c, r)
            } else {
                overlay(
                    old(canvas).at(c, r),
                    old(canvas).contains(c, r),
                    candle_cell(q, tee_col as int, flat, old(canvas).rows() as int, old(canvas).cols() as int, c, r),
                )
            },
{
    let width = canvas.width();
    let height = canvas.height();
    if width == 0 || height == 0 {
        return;
    }
    let fp = footprint(width, height, q);
    match flat {
        Some(mid) => draw_flat(canvas, q, tee_col, mid, fp),
        None => {
            if q.fill == BodyFill::Hollow && fp.closeable() {
                draw_hollow(canvas, q, tee_col, fp);
            } else {
                fill_solid(canvas, q, fp);
            }
        },
    }
}

/// Whether `(col, row)` is one of the cells of `fp`.
pub open spec fn in_footprint(fp: Footprint, col: int, row: int) -> bool {
    fp.row_top <= row <= fp.row_bot && fp.col_left <= col <= fp.col_right
}

/// A filled and a hollow body of the same closeable footprint occupy the same
/// space: the solid fill touches exactly the footprint's cells, and the
/// outline stays within them while reaching all four corners.
pub proof fn lemma_filled_and_hollow_share_the_footprint(fp: Footprint, rows: int, cols: int)
    requires
        fp.is_closeable(),
        fp.row_bot < rows <= 0xffff,
        fp.col_right < cols <= 0xffff,
    ensures
        forall|c: int, r: int|
            #[trigger] quadrant::fill_cell(solid_rect(fp, rows, cols), false, c, r) is Some <==> in_footprint(fp, c, r),
        forall|c: int, r: int| #[trigger] outline_cell(fp, c, r) is Some ==> in_footprint(fp, c, r),
        outline_cell(fp, fp.col_left as int, fp.row_top as int) is Some,
        outline_cell(fp, fp.col_right as int, fp.row_top as int) is Some,
        outline_cell(fp, fp.col_left as int, fp.row_bot as int) is Some,
        outline_cell(fp, fp.col_right as int, fp.row_bot as int) is Some,
{
    let rect = solid_rect(fp, rows, cols);
    assert(rect == SubRect {
        left: (2 * fp.col_left + 1) as u32,
        right: (2 * fp.col_right + 1) as u32,
        top: (2 * fp.row_top + 1) as u32,
        bot: (2 * fp.row_bot + 1) as u32,
    });
    assert forall|c: int, r: int|
        #[trigger] quadrant::fill_cell(rect, false, c, r) is Some <==> in_footprint(fp, c, r) by {
        if in_footprint(fp, c, r) {
            let x = if c == fp.col_left { 2 * c + 1 } else { 2 * c };
            let y = if r == fp.row_top { 2 * r + 1 } else { 2 * r };
            assert(quadrant::sub_lit(rect, false, x, y));
        }
    }
}

/// A body too short to have height is the same flat line whether it is
/// filled or hollow.
pub proof fn lemma_flat_ignores_fill(q: Quantized, tee_col: int, mid: u32, rows: int, cols: int)
    ensures
        forall|c: int, r: int|
            #[trigger] candle_cell(q, tee_col, Some(mid), rows, cols, c, r) == candle_cell(
                Quantized { fill: BodyFill::Filled, ..q },
                tee_col,
                Some(mid),
                rows,
                cols,
                c,
                r,
            ),
{
}

/// Whether the box-drawing glyph `c` has a stroke running up out of its cell.
pub open spec fn stroke_up(c: char) -> bool {
    c == '│' || c == '┴' || c == '┼' || c == '└' || c == '┘' || c == '├' || c == '┤' || c == '╵'
}

/// Whether the box-drawing glyph `c` has a stroke running down out of its cell.
pub open spec fn stroke_down(c: char) -> bool {
    c == '│' || c == '┬' || c == '┼' || c == '┌' || c == '┐' || c == '├' || c == '┤' || c == '╷'
}

/// Whether the box-drawing glyph `c` has strokes running out of both sides of
/// its cell.
pub open spec fn stroke_across(c: char) -> bool {
    c == '─' || c == '┬' || c == '┴' || c == '┼'
}

/// Whether the box-drawing glyph `c` has a stroke running out of its cell's
/// left side.
pub open spec fn stroke_left(c: char) -> bool {
    c == '─' || c == '┐' || c == '┘' || c == '┬' || c == '┴' || c == '┼' || c == '┤'
}

/// Whether the box-drawing glyph `c` has a stroke running out of its cell's
/// right side.
pub open spec fn stroke_right(c: char) -> bool {
    c == '─' || c == '┌' || c == '└' || c == '┬' || c == '┴' || c == '┼' || c == '├'
}

/// A closeable outline is one closed rectangle of strokes through the cell
/// centers of its footprint's edge cells: each of its cells strokes toward
/// exactly the neighbouring cells of the outline, and no other cell is drawn.
pub proof fn lemma_outline_is_closed(fp: Footprint, col: int, row: int)
    requires
        fp.is_closeable(),
    ensures
        ({
            let (t, b, l, r) = (fp.row_top as int, fp.row_bot as int, fp.col_left as int, fp.col_right as int);
            let on_side = (col == l || col == r) && t <= row <= b;
            let on_end = (row == t || row == b) && l <= col <= r;
            &&& (outline_cell(fp, col, row) is Some) == (on_side || on_end)
            &&& outline_cell(fp, col, row) matches Some((g, p)) ==> {
                &&& p == Paint::Body
                &&& stroke_up(g) == (on_side && row > t)
                &&& stroke_down(g) == (on_side && row < b)
                &&& stroke_left(g) == (on_end && col > l)
                &&& stroke_right(g) == (on_end && col < r)
            }
        }),
{
}

/// Where the wick column crosses a hollow body's top or bottom edge strictly
/// between its corners, the edge turns out toward the wick exactly when the
/// wick reaches past that edge, and keeps running along the edge either way.
pub proof fn lemma_hollow_tees_meet_the_wicks(q: Quantized, tee_col: int, fp: Footprint, rows: int)
    requires
        fp.is_closeable(),
        fp.col_left < tee_col < fp.col_right,
    ensures
        ({
            &&& hollow_cell(q, tee_col, fp, rows, tee_col, fp.row_top as int) matches Some((g, p))
            &&& p == Paint::Body
            &&& stroke_left(g) && stroke_right(g) && stroke_down(g) == false
            &&& stroke_up(g) == (q.high < 2 * fp.row_top)
        }),
        ({
            let low = if q.low < 2 * rows - 1 { q.low as int } else { 2 * rows - 1 };
            &&& hollow_cell(q, tee_col, fp, rows, tee_col, fp.row_bot as int) matches Some((g, p))
            &&& p == Paint::Body
            &&& stroke_left(g) && stroke_right(g) && stroke_up(g) == false
            &&& stroke_down(g) == (low >= 2 * (fp.row_bot + 1))
        }),
{
}

/// A flat body is a horizontal line on the row its midpoint falls in, and
/// where the wick column crosses it the line turns up exactly when the high
/// lies above that row and down exactly when the (clamped) low lies below it:
/// a cross for both wicks, a tee toward the one there is, a plain line for
/// neither. Every other column of the footprint carries the plain line.
pub proof fn lemma_flat_body_meets_its_wicks(q: Quantized, tee_col: int, mid: u32, rows: int, cols: int, col: int)
    requires
        1 <= rows <= 0xffff,
        1 <= cols <= 0xffff,
        0 <= tee_col < cols,
    ensures
        ({
            let line = if mid < rows - 1 { mid as int } else { rows - 1 };
            let low = if q.low < 2 * rows - 1 { q.low as int } else { 2 * rows - 1 };
            let fp = footprint_of(q, rows, cols);
            &&& candle_cell(q, tee_col, Some(mid), rows, cols, tee_col, line) matches Some((g, p))
            &&& p == Paint::Body
            &&& stroke_across(g)
            &&& stroke_up(g) == (q.high < 2 * line)
            &&& stroke_down(g) == (low >= 2 * (line + 1))
            &&& (col != tee_col && fp.col_left <= col <= fp.col_right) ==> candle_cell(
                q,
                tee_col,
                Some(mid),
                rows,
                cols,
                col,
                line,
            ) == Some(('─', Paint::Body))
        }),
{
}

/// Whether one box-drawing candle paints the cell `(col, row)` of a plot
/// `cols` x `rows`.
pub open spec fn drawn(q: Quantized, tee_col: int, flat: Option<u32>, rows: int, cols: int, col: int, row: int) -> bool {
    0 <= col < cols && 0 <= row < rows && candle_cell(q, tee_col, flat, rows, cols, col, row) is Some
}

/// Whether the candle paints some cell at column `x` or to its left.
pub open spec fn reaches_left(q: Quantized, tee_col: int, flat: Option<u32>, rows: int, cols: int, x: int) -> bool {
    exists|c: int, r: int| #[trigger] drawn(q, tee_col, flat, rows, cols, c, r) && c <= x
}

/// Whether the candle paints some cell at column `x` or to its right.
pub open spec fn reaches_right(q: Quantized, tee_col: int, flat: Option<u32>, rows: int, cols: int, x: int) -> bool {
    exists|c: int, r: int| #[trigger] drawn(q, tee_col, flat, rows, cols, c, r) && c >= x
}

/// Whether the candle paints some cell at row `y` or above it.
pub open spec fn reaches_up(q: Quantized, tee_col: int, flat: Option<u32>, rows: int, cols: int, y: int) -> bool {
    exists|c: int, r: int| #[trigger] drawn(q, tee_col, flat, rows, cols, c, r) && r <= y
}

/// Whether the candle paints some cell at row `y` or below it.
pub open spec fn reaches_down(q: Quantized, tee_col: int, flat: Option<u32>, rows: int, cols: int, y: int) -> bool {
    exists|c: int, r: int| #[trigger] drawn(q, tee_col, flat, rows, cols, c, r) && r >= y
}

/// Where a closeable body is traced as an outline, the hollow candle paints
/// only cells the filled one paints too, and every cell the filled one paints
/// beyond the hollow one's lies in the footprint, whose four corners the
/// hollow one paints.
proof fn lemma_hollow_within_filled(q: Quantized, tee_col: int, rows: int, cols: int)
    requires
        1 <= rows <= 0xffff,
        1 <= cols <= 0xffff,
        footprint_of(q, rows, cols).is_closeable(),
    ensures
        ({
            let f = Quantized { fill: BodyFill::Filled, ..q };
            let h = Quantized { fill: BodyFill::Hollow, ..q };
            let fp = footprint_of(q, rows, cols);
            &&& forall|c: int, r: int|
                #[trigger] drawn(h, tee_col, None, rows, cols, c, r) ==> drawn(f, tee_col, None, rows, cols, c, r)
            &&& forall|c: int, r: int|
                #[trigger] drawn(f, tee_col, None, rows, cols, c, r) ==> drawn(h, tee_col, None, rows, cols, c, r)
                    || in_footprint(fp, c, r)
            &&& drawn(h, tee_col, None, rows, cols, fp.col_left as int, fp.row_top as int)
            &&& drawn(h, tee_col, None, rows, cols, fp.col_right as int, fp.row_bot as int)
        }),
{
    let f = Quantized { fill: BodyFill::Filled, ..q };
    let h = Quantized { fill: BodyFill::Hollow, ..q };
    let fp = footprint_of(q, rows, cols);
    assert(footprint_of(f, rows, cols) == fp);
    assert(footprint_of(h, rows, cols) == fp);
    lemma_filled_and_hollow_share_the_footprint(fp, rows, cols);
    let rect = solid_rect(fp, rows, cols);
    assert(rect.top as int / 2 == fp.row_top);
    assert((rect.bot as int - 1) / 2 == fp.row_bot);
    assert forall|c: int, r: int| #[trigger] drawn(h, tee_col, None, rows, cols, c, r) implies drawn(
        f,
        tee_col,
        None,
        rows,
        cols,
        c,
        r,
    ) by {
        if quadrant::fill_cell(rect, false, c, r) is None {
            assert(outline_cell(fp, c, r) is None);
            assert(!(fp.col_left < tee_col < fp.col_right && c == tee_col && (r == fp.row_top || r == fp.row_bot)));
            assert(wick_at(h, rows, fp.row_top as int, fp.row_bot as int, c, r) == wick_at(
                f,
                rows,
                fp.row_top as int,
                fp.row_bot as int,
                c,
                r,
            ));
        }
    }
    assert forall|c: int, r: int| #[trigger] drawn(f, tee_col, None, rows, cols, c, r) implies drawn(
        h,
        tee_col,
        None,
        rows,
        cols,
        c,
        r,
    ) || in_footprint(fp, c, r) by {
        if !in_footprint(fp, c, r) {
            assert(quadrant::fill_cell(rect, false, c, r) is None);
            assert(outline_cell(fp, c, r) is None);
            assert(wick_at(h, rows, fp.row_top as int, fp.row_bot as int, c, r) == wick_at(
                f,
                rows,
                fp.row_top as int,
                fp.row_bot as int,
                c,
                r,
            ));
        }
    }
}

/// A filled and a hollow candle of the same geometry cover the same bounding
/// box: for every column and row, one paints a cell at or beyond it on a side
/// exactly when the other does. A body drawn flat, or one too small to close
/// an outline, is drawn identically either way.
pub proof fn lemma_filled_and_hollow_share_the_bounding_box(
    q: Quantized,
    tee_col: int,
    flat: Option<u32>,
    rows: int,
    cols: int,
)
    requires
        0 <= rows <= 0xffff,
        0 <= cols <= 0xffff,
    ensures
        ({
            let f = Quantized { fill: BodyFill::Filled, ..q };
            let h = Quantized { fill: BodyFill::Hollow, ..q };
            &&& forall|x: int|
                #[trigger] reaches_left(f, tee_col, flat, rows, cols, x) == reaches_left(h, tee_col, flat, rows, cols, x)
            &&& forall|x: int|
                #[trigger] reaches_right(f, tee_col, flat, rows, cols, x) == reaches_right(h, tee_col, flat, rows, cols, x)
            &&& forall|y: int|
                #[trigger] reaches_up(f, tee_col, flat, rows, cols, y) == reaches_up(h, tee_col, flat, rows, cols, y)
            &&& forall|y: int|
                #[trigger] reaches_down(f, tee_col, flat, rows, cols, y) == reaches_down(h, tee_col, flat, rows, cols, y)
            &&& (flat is Some || !footprint_of(q, rows, cols).is_closeable()) ==> forall|c: int, r: int|
                #[trigger] candle_cell(f, tee_col, flat, rows, cols, c, r) == candle_cell(h, tee_col, flat, rows, cols, c, r)
        }),
{
    let f = Quantized { fill: BodyFill::Filled, ..q };
    let h = Quantized { fill: BodyFill::Hollow, ..q };
    let fp = footprint_of(q, rows, cols);
    assert(footprint_of(f, rows, cols) == fp);
    assert(footprint_of(h, rows, cols) == fp);
    if flat is Some || !fp.is_closeable() || rows == 0 || cols == 0 {
        assert forall|c: int, r: int|
            #[trigger] drawn(f, tee_col, flat, rows, cols, c, r) == drawn(h, tee_col, flat, rows, cols, c, r) by {
            if flat is Some || !fp.is_closeable() {
                assert(candle_cell(f, tee_col, flat, rows, cols, c, r) == candle_cell(h, tee_col, flat, rows, cols, c, r));
            }
        }
        assert forall|x: int| #[trigger] reaches_left(f, tee_col, flat, rows, cols, x) == reaches_left(h, tee_col, flat, rows, cols, x) by {
            if reaches_left(f, tee_col, flat, rows, cols, x) {
                let (c, r) = choose|c: int, r: int| #[trigger] drawn(f, tee_col, flat, rows, cols, c, r) && c <= x;
                assert(drawn(h, tee_col, flat, rows, cols, c, r));
            }
            if reaches_left(h, tee_col, flat, rows, cols, x) {
                let (c, r) = choose|c: int, r: int| #[trigger] drawn(h, tee_col, flat, rows, cols, c, r) && c <= x;
                assert(drawn(f, tee_col, flat, rows, cols, c, r));
            }
        }
        assert forall|x: int| #[trigger] reaches_right(f, tee_col, flat, rows, cols, x) == reaches_right(h, tee_col, flat, rows, cols, x) by {
            if reaches_right(f, tee_col, flat, rows, cols, x) {
                let (c, r) = choose|c: int, r: int| #[trigger] drawn(f, tee_col, flat, rows, cols, c, r) && c >= x;
                assert(drawn(h, tee_col, flat, rows, cols, c, r));
            }
            if reaches_right(h, tee_col, flat, rows, cols, x) {
                let (c, r) = choose|c: int, r: int| #[trigger] drawn(h, tee_col, flat, rows, cols, c, r) && c >= x;
                assert(drawn(f, tee_col, flat, rows, cols, c, r));
            }
        }
        assert forall|y: int| #[trigger] reaches_up(f, tee_col, flat, rows, cols, y) == reaches_up(h, tee_col, flat, rows, cols, y) by {
            if reaches_up(f, tee_col, flat, rows, cols, y) {
                let (c, r) = choose|c: int, r: int| #[trigger] drawn(f, tee_col, flat, rows, cols, c, r) && r <= y;
                assert(drawn(h, tee_col, flat, rows, cols, c, r));
            }
            if reaches_up(h, tee_col, flat, rows, cols, y) {
                let (c, r) = choose|c: int, r: int| #[trigger] drawn(h, tee_col, flat, rows, cols, c, r) && r <= y;
                assert(drawn(f, tee_col, flat, rows, cols, c, r));
            }
        }
        assert forall|y: int| #[trigger] reaches_down(f, tee_col, flat, rows, cols, y) == reaches_down(h, tee_col, flat, rows, cols, y) by {
            if reaches_down(f, tee_col, flat, rows, cols, y) {
                let (c, r) = choose|c: int, r: int| #[trigger] drawn(f, tee_col, flat, rows, cols, c, r) && r >= y;
                assert(drawn(h, tee_col, flat, rows, cols, c, r));
            }
            if reaches_down(h, tee_col, flat, rows, cols, y) {
                let (c, r) = choose|c: int, r: int| #[trigger] drawn(h, tee_col, flat, rows, cols, c, r) && r >= y;
                assert(drawn(f, tee_col, flat, rows, cols, c, r));
            }
        }
    } else {
        lemma_hollow_within_filled(q, tee_col, rows, cols);
        let (l, t, rr, b) = (fp.col_left as int, fp.row_top as int, fp.col_right as int, fp.row_bot as int);
        assert(drawn(h, tee_col, flat, rows, cols, l, t));
        assert(drawn(h, tee_col, flat, rows, cols, rr, b));
        assert forall|x: int| #[trigger] reaches_left(f, tee_col, flat, rows, cols, x) == reaches_left(h, tee_col, flat, rows, cols, x) by {
            if reaches_left(f, tee_col, flat, rows, cols, x) {
                let (c, r) = choose|c: int, r: int| #[trigger] drawn(f, tee_col, flat, rows, cols, c, r) && c <= x;
                if !drawn(h, tee_col, flat, rows, cols, c, r) {
                    assert(drawn(h, tee_col, flat, rows, cols, l, t) && l <= x);
                }
            }
            if reaches_left(h, tee_col, flat, rows, cols, x) {
                let (c, r) = choose|c: int, r: int| #[trigger] drawn(h, tee_col, flat, rows, cols, c, r) && c <= x;
                assert(drawn(f, tee_col, flat, rows, cols, c, r));
            }
        }
        assert forall|x: int| #[trigger] reaches_right(f, tee_col, flat, rows, cols, x) == reaches_right(h, tee_col, flat, rows, cols, x) by {
            if reaches_right(f, tee_col, flat, rows, cols, x) {
                let (c, r) = choose|c: int, r: int| #[trigger] drawn(f, tee_col, flat, rows, cols, c, r) && c >= x;
                if !drawn(h, tee_col, flat, rows, cols, c, r) {
                    assert(drawn(h, tee_col, flat, rows, cols, rr, b) && rr >= x);
                }
            }
            if reaches_right(h, tee_col, flat, rows, cols, x) {
                let (c, r) = choose|c: int, r: int| #[trigger] drawn(h, tee_col, flat, rows, cols, c, r) && c >= x;
                assert(drawn(f, tee_col, flat, rows, cols, c, r));
            }
        }
        assert forall|y: int| #[trigger] reaches_up(f, tee_col, flat, rows, cols, y) == reaches_up(h, tee_col, flat, rows, cols, y) by {
            if reaches_up(f, tee_col, flat, rows, cols, y) {
                let (c, r) = choose|c: int, r: int| #[trigger] drawn(f, tee_col, flat, rows, cols, c, r) && r <= y;
                if !drawn(h, tee_col, flat, rows, cols, c, r) {
                    assert(drawn(h, tee_col, flat, rows, cols, l, t) && t <= y);
                }
            }
            if reaches_up(h, tee_col, flat, rows, cols, y) {
                let (c, r) = choose|c: int, r: int| #[trigger] drawn(h, tee_col, flat, rows, cols, c, r) && r <= y;
                assert(drawn(f, tee_col, flat, rows, cols, c, r));
            }
        }
        assert forall|y: int| #[trigger] reaches_down(f, tee_col, flat, rows, cols, y) == reaches_down(h, tee_col, flat, rows, cols, y) by {
            if reaches_down(f, tee_col, flat, rows, cols, y) {
                let (c, r) = choose|c: int, r: int| #[trigger] drawn(f, tee_col, flat, rows, cols, c, r) && r >= y;
                if !drawn(h, tee_col, flat, rows, cols, c, r) {
                    assert(drawn(h, tee_col, flat, rows, cols, rr, b) && b >= y);
                }
            }
            if reaches_down(h, tee_col, flat, rows, cols, y) {
                let (c, r) = choose|c: int, r: int| #[trigger] drawn(h, tee_col, flat, rows, cols, c, r) && r >= y;
                assert(drawn(f, tee_col, flat, rows, cols, c, r));
            }
        }
    }
}

} // verus!

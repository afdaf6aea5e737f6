//! Quadrant-block rasterizer: a 2x2 grid of sub-cells per cell, so bodies
//! resolve to half a row and half a column. Wicks are drawn by the shared
//! wick module.

use vstd::prelude::*;

use crate::canvas::{lemma_keeping_twice, overlay, Canvas, Paint};
use crate::marker::BodyFill;
use crate::render::{on_border, quantize_span, Quantized};
use crate::wick;

verus! {

/// Sub-cells per terminal cell along each axis.
pub const SUB: u32 = 2;

/// The quadrant glyph whose lit sub-cells are `bits`: top-left is `1`,
/// top-right `2`, bottom-left `4` and bottom-right `8`.
pub open spec fn quadrant_glyph(bits: int) -> char {
    if bits == 0 {
        ' '
    } else if bits == 1 {
        '▘'
    } else if bits == 2 {
        '▝'
    } else if bits == 3 {
        '▀'
    } else if bits == 4 {
        '▖'
    } else if bits == 5 {
        '▌'
    } else if bits == 6 {
        '▞'
    } else if bits == 7 {
        '▛'
    } else if bits == 8 {
        '▗'
    } else if bits == 9 {
        '▚'
    } else if bits == 10 {
        '▐'
    } else if bits == 11 {
        '▜'
    } else if bits == 12 {
        '▄'
    } else if bits == 13 {
        '▙'
    } else if bits == 14 {
        '▟'
    } else {
        '█'
    }
}

/// Whether the Unicode block element `c` fills quadrant `sub` of its cell:
/// 0 the top left, 1 the top right, 2 the bottom left, 3 the bottom right.
pub open spec fn quadrant_fills(c: char, sub: int) -> bool {
    if sub == 0 {
        c == '▘' || c == '▀' || c == '▌' || c == '▚' || c == '▙' || c == '▛' || c == '▜' || c == '█'
    } else if sub == 1 {
        c == '▝' || c == '▀' || c == '▐' || c == '▞' || c == '▛' || c == '▜' || c == '▟' || c == '█'
    } else if sub == 2 {
        c == '▖' || c == '▄' || c == '▌' || c == '▞' || c == '▙' || c == '▛' || c == '▟' || c == '█'
    } else {
        c == '▗' || c == '▄' || c == '▐' || c == '▚' || c == '▙' || c == '▜' || c == '▟' || c == '█'
    }
}

/// The glyph for a set of lit quadrants fills exactly those quadrants: bit
/// `sub` of `bits` (top left, top right, bottom left, bottom right) is set
/// just when the glyph fills quadrant `sub`, so no two patterns share a glyph.
pub proof fn lemma_quadrant_glyph_fills_its_bits(bits: int, sub: int)
    requires
        0 <= bits < 16,
        0 <= sub < 4,
    ensures
        quadrant_fills(quadrant_glyph(bits), sub) == ((bits / (if sub == 0 { 1int } else if sub == 1 { 2 } else if sub == 2 { 4 } else { 8 })) % 2 == 1),
{
}

/// Filling a rectangle of sub-cells fills, in each cell's glyph, exactly the
/// quadrants whose sub-cells lie in the rectangle (on its one-sub-cell border,
/// when hollow).
pub proof fn lemma_fill_shows_its_sub_cells(rect: SubRect, hollow: bool, x: int, y: int)
    requires
        0 <= x,
        0 <= y,
    ensures
        ({
            let lit = rect.left <= x < rect.right && rect.top <= y < rect.bot && (!hollow || x == rect.left
                || x + 1 == rect.right || y == rect.top || y + 1 == rect.bot);
            lit == (fill_cell(rect, hollow, x / 2, y / 2) matches Some((g, _)) && quadrant_fills(
                g,
                2 * (y % 2) + x % 2,
            ))
        }),
{
    let bits = cell_bits(rect, hollow, x / 2, y / 2);
    let sub = 2 * (y % 2) + x % 2;
    assert(0 <= bits < 16);
    lemma_quadrant_glyph_fills_its_bits(bits, sub);
    assert(x == 2 * (x / 2) + x % 2);
    assert(y == 2 * (y / 2) + y % 2);
}

pub(crate) fn glyph(bits: u32) -> (c: char)
    requires
        bits < 16,
    ensures
        c == quadrant_glyph(bits as int),
{
    match bits {
        0 => ' ',
        1 => '▘',
        2 => '▝',
        3 => '▀',
        4 => '▖',
        5 => '▌',
        6 => '▞',
        7 => '▛',
        8 => '▗',
        9 => '▚',
        10 => '▐',
        11 => '▜',
        12 => '▄',
        13 => '▙',
        14 => '▟',
        _ => '█',
    }
}

/// A rectangle of sub-cells `[left, right) x [top, bot)` within a plot.
#[derive(Debug, Clone, Copy, PartialEq, Eq, Structural)]
pub struct SubRect {
    pub left: u32,
    pub right: u32,
    pub top: u32,
    pub bot: u32,
}

/// Whether the sub-cell `(x, y)` is lit when filling `rect`: every sub-cell
/// of the rectangle, or only its one-sub-cell border when `hollow`.
pub open spec fn sub_lit(rect: SubRect, hollow: bool, x: int, y: int) -> bool {
    &&& rect.left <= x < rect.right
    &&& rect.top <= y < rect.bot
    &&& (!hollow || x == rect.left || x + 1 == rect.right || y == rect.top || y + 1 == rect.bot)
}

/// The lit sub-cells of the cell `(col, row)` as quadrant bits.
pub open spec fn cell_bits(rect: SubRect, hollow: bool, col: int, row: int) -> int {
    (if sub_lit(rect, hollow, 2 * col, 2 * row) { 1int } else { 0 })
        + (if sub_lit(rect, hollow, 2 * col + 1, 2 * row) { 2int } else { 0 })
        + (if sub_lit(rect, hollow, 2 * col, 2 * row + 1) { 4int } else { 0 })
        + (if sub_lit(rect, hollow, 2 * col + 1, 2 * row + 1) { 8int } else { 0 })
}

/// What filling `rect` paints at `(col, row)`: the quadrant glyph of the
/// cell's lit sub-cells in the body color, and nothing in a cell with none.
pub open spec fn fill_cell(rect: SubRect, hollow: bool, col: int, row: int) -> Option<(char, Paint)> {
    if cell_bits(rect, hollow, col, row) != 0 {
        Some((quadrant_glyph(cell_bits(rect, hollow, col, row)), Paint::Body))
    } else {
        None
    }
}

fn lit(rect: SubRect, hollow: bool, x: u32, y: u32) -> (b: bool)
    ensures
        b == sub_lit(rect, hollow, x as int, y as int),
{
    rect.left <= x && x < rect.right && rect.top <= y && y < rect.bot && (!hollow || on_border(
        x,
        y,
        rect.left,
        rect.right,
        rect.top,
        rect.bot,
    ))
}

/// Fills `rect` with quadrant glyphs in the body color. When `hollow`, only
/// the border sub-cells are lit, tracing a one-sub-cell ring; a rectangle too
/// small to have an interior is drawn solid either way. Cells with no lit
/// sub-cell are left untouched.
pub fn fill_subcells(canvas: &mut Canvas, rect: SubRect, hollow: bool)
    requires
        rect.right <= 0x1_0000 * 2,
        rect.bot <= 0x1_0000 * 2,
    ensures
        old(canvas).adds_keeping(*final(canvas)),
        final(canvas).cols() == old(canvas).cols(),
        final(canvas).rows() == old(canvas).rows(),
        forall|c: int, r: int|
            #[trigger] final(canvas).at(c, r) == overlay(
                old(canvas).at(c, r),
                old(canvas).contains(c, r),
                fill_cell(rect, hollow, c, r),
            ),
{
    if rect.left >= rect.right || rect.top >= rect.bot {
        assert forall|c: int, r: int| #[trigger] fill_cell(rect, hollow, c, r) is None by {}
        return;
    }
    let col_first = rect.left / SUB;
    let col_last = (rect.right - 1) / SUB;
    let row_first = rect.top / SUB;
    let row_last = (rect.bot - 1) / SUB;
    let mut col = col_first;
    while col <= col_last
        invariant
            col_first == rect.left / 2,
            col_last == (rect.right - 1) / 2,
            row_first == rect.top / 2,
            row_last == (rect.bot - 1) / 2,
            rect.left < rect.right <= 0x1_0000 * 2,
            rect.top < rect.bot <= 0x1_0000 * 2,
            col_first <= col <= col_last + 1,
            canvas.cols() == old(canvas).cols(),
            canvas.rows() == old(canvas).rows(),
                old(canvas).adds_keeping(*canvas),
            forall|c: int, r: int|
                #[trigger] canvas.at(c, r) == overlay(
                    old(canvas).at(c, r),
                    old(canvas).contains(c, r),
                    if c < col {
                        fill_cell(rect, hollow, c, r)
                    } else {
                        None
                    },
                ),
        decreases col_last + 1 - col,
    {
        let mut row = row_first;
        while row <= row_last
            invariant
                col_first == rect.left / 2,
                col_last == (rect.right - 1) / 2,
                row_first == rect.top / 2,
                row_last == (rect.bot - 1) / 2,
                rect.left < rect.right <= 0x1_0000 * 2,
                rect.top < rect.bot <= 0x1_0000 * 2,
                col_first <= col <= col_last,
                row_first <= row <= row_last + 1,
                canvas.cols() == old(canvas).cols(),
                canvas.rows() == old(canvas).rows(),
                old(canvas).adds_keeping(*canvas),
                forall|c: int, r: int|
                    #[trigger] canvas.at(c, r) == overlay(
                        old(canvas).at(c, r),
                        old(canvas).contains(c, r),
                        if c < col || (c == col && r < row) {
                            fill_cell(rect, hollow, c, r)
                        } else {
                            None
                        },
                    ),
            decreases row_last + 1 - row,
        {
            let x = col * SUB;
            let y = row * SUB;
            let mut bits: u32 = 0;
            if lit(rect, hollow, x, y) {
                bits = bits + 1;
            }
            if lit(rect, hollow, x + 1, y) {
                bits = bits + 2;
            }
            if lit(rect, hollow, x, y + 1) {
                bits = bits + 4;
            }
            if lit(rect, hollow, x + 1, y + 1) {
                bits = bits + 8;
            }
            assert(bits == cell_bits(rect, hollow, col as int, row as int));
            if bits != 0 {
                let ghost prev = *canvas;
                canvas.put(col, row, glyph(bits), Paint::Body);
                proof { lemma_keeping_twice(*old(canvas), prev, *canvas); }
            }
            row = row + 1;
        }
        proof {
            assert forall|c: int, r: int|
                c == col && r > row_last implies #[trigger] fill_cell(rect, hollow, c, r) is None by {}
        }
        col = col + 1;
    }
    proof {
        assert forall|c: int, r: int|
            (c < col_first || c > col_last || r < row_first || r > row_last) implies #[trigger] fill_cell(
                rect,
                hollow,
                c,
                r,
            ) is None by {}
    }
}

/// The body sub-cell rectangle of a quadrant candle in a plot `cols` x
/// `rows` cells.
pub open spec fn body_rect(q: Quantized, rows: int, cols: int) -> SubRect {
    let max_y = 2 * rows;
    let max_x = 2 * cols;
    let bot = if q.body_bottom <= q.body_top {
        q.body_top + 1
    } else {
        q.body_bottom as int
    };
    let bot = if bot < max_y {
        bot
    } else {
        max_y
    };
    let top = if q.body_top < bot - 1 {
        q.body_top as int
    } else {
        bot - 1
    };
    let right = if q.body_right <= q.body_left {
        q.body_left + 1
    } else {
        q.body_right as int
    };
    let right = if right < max_x {
        right
    } else {
        max_x
    };
    SubRect { left: q.body_left, right: right as u32, top: top as u32, bot: bot as u32 }
}

/// What one quadrant candle paints at `(col, row)` in a plot `cols` x `rows`.
pub open spec fn candle_cell(q: Quantized, rows: int, cols: int, col: int, row: int) -> Option<(char, Paint)> {
    let rect = body_rect(q, rows, cols);
    let hollow = q.fill == BodyFill::Hollow;
    if fill_cell(rect, hollow, col, row) is Some {
        fill_cell(rect, hollow, col, row)
    } else {
        wick::wick_cell(
            q.center as int,
            q.high as int,
            q.low as int,
            rect.top as int / 2,
            (rect.bot as int - 1) / 2,
            rows,
            col,
            row,
        )
    }
}

/// Draws one candle with quadrant blocks.
///
/// `q.body_top` and `q.body_bottom` are in half rows, `q.body_left` and
/// `q.body_right` in half columns, `q.center` is the wick's whole column, and
/// `q.high` and `q.low` are in half rows. The body spans at least one
/// sub-cell each way; a hollow body lights only its border sub-cells. An empty
/// plot draws nothing.
pub fn draw_candle(canvas: &mut Canvas, q: Quantized)
    requires
        old(canvas).cols() == 0 || old(canvas).rows() == 0 || (q.body_top < u32::MAX && q.body_left < u32::MAX),
    ensures
        old(canvas).adds_keeping(*final(canvas)),
        final(canvas).cols() == old(canvas).cols(),
        final(canvas).rows() == old(canvas).rows(),
        forall|c: int, r: int|
            #[trigger] final(canvas).at(c, r) == if old(canvas).cols() == 0 || old(canvas).rows() == 0 {
                old(canvas).at(c, r)
            } else {
                overlay(
                    old(canvas).at(c, r),
                    old(canvas).contains(c, r),
                    candle_cell(q, old(canvas).rows() as int, old(canvas).cols() as int, c, r),
                )
            },
{
    let width = canvas.width();
    let height = canvas.height();
    if width == 0 || height == 0 {
        return;
    }
    let ghost rows = height as int;
    let ghost cols = width as int;
    let max_sub_y = height as u32 * SUB;
    let max_sub_x = width as u32 * SUB;

    let (top_sub, bot_sub) = quantize_span(q.body_top, q.body_bottom, max_sub_y);

    let left_sub = q.body_left;
    let mut right_sub = q.body_right;
    if right_sub <= left_sub {
        right_sub = left_sub + 1;
    }
    let right_sub = if right_sub < max_sub_x {
        right_sub
    } else {
        max_sub_x
    };

    let row_top = top_sub / SUB;
    let row_bot = (bot_sub - 1) / SUB;
    let ghost start = *canvas;
    wick::draw(canvas, q.center, q.high, q.low, row_top, row_bot);
    let ghost after_wick = *canvas;

    let rect = SubRect { left: left_sub, right: right_sub, top: top_sub, bot: bot_sub };
    assert(rect == body_rect(q, rows, cols));
    fill_subcells(canvas, rect, q.fill == BodyFill::Hollow);
    proof {
        lemma_keeping_twice(start, after_wick, *canvas);
    }
    assert forall|c: int, r: int|
        #[trigger] canvas.at(c, r) == overlay(
            start.at(c, r),
            start.contains(c, r),
            candle_cell(q, rows, cols, c, r),
        ) by {
        assert(after_wick.at(c, r) == overlay(
            start.at(c, r),
            start.contains(c, r),
            wick::wick_cell(q.center as int, q.high as int, q.low as int, row_top as int, row_bot as int, rows, c, r),
        ));
    }
}

/// A hollow fill lights only sub-cells the solid fill lights, and lights all
/// of the border ones, so the outline has exactly the extent of the solid
/// body. A rectangle at most two sub-cells wide or tall has no interior, so
/// its hollow fill is its solid fill.
pub proof fn lemma_hollow_outline(rect: SubRect)
    ensures
        forall|x: int, y: int| #[trigger] sub_lit(rect, true, x, y) ==> sub_lit(rect, false, x, y),
        forall|x: int, y: int|
            #[trigger] sub_lit(rect, false, x, y) && (x == rect.left || x + 1 == rect.right || y == rect.top || y + 1
                == rect.bot) ==> sub_lit(rect, true, x, y),
        rect.right <= rect.left + 2 || rect.bot <= rect.top + 2 ==> forall|c: int, r: int|
            #[trigger] fill_cell(rect, true, c, r) == fill_cell(rect, false, c, r),
{
    if rect.right <= rect.left + 2 || rect.bot <= rect.top + 2 {
        assert forall|c: int, r: int| #[trigger] fill_cell(rect, true, c, r) == fill_cell(rect, false, c, r) by {
            assert(cell_bits(rect, true, c, r) == cell_bits(rect, false, c, r));
        }
    }
}

/// A hollow quadrant candle whose body is at most two sub-cells wide or tall
/// draws exactly what the same candle filled draws.
pub proof fn lemma_thin_hollow_is_solid(q: Quantized, rows: int, cols: int)
    requires
        rows >= 1,
        cols >= 1,
        q.fill == BodyFill::Hollow,
        ({
            let rect = body_rect(q, rows, cols);
            rect.right <= rect.left + 2 || rect.bot <= rect.top + 2
        }),
    ensures
        forall|c: int, r: int|
            #[trigger] candle_cell(q, rows, cols, c, r) == candle_cell(
                Quantized { fill: BodyFill::Filled, ..q },
                rows,
                cols,
                c,
                r,
            ),
{
    let rect = body_rect(q, rows, cols);
    lemma_hollow_outline(rect);
    assert(body_rect(Quantized { fill: BodyFill::Filled, ..q }, rows, cols) == rect);
    assert forall|c: int, r: int|
        #[trigger] candle_cell(q, rows, cols, c, r) == candle_cell(
            Quantized { fill: BodyFill::Filled, ..q },
            rows,
            cols,
            c,
            r,
        ) by {
        assert(fill_cell(rect, true, c, r) == fill_cell(rect, false, c, r));
    }
}

} // verus!

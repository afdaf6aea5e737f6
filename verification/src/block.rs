//! Eighth-block rasterizer: bodies resolve to an eighth of a row, wick tips
//! to half a row, and bodies span whole columns.

use vstd::prelude::*;

use crate::canvas::{lemma_keeping_then_resetting, lemma_resetting_twice, overlay, Canvas, Paint};
use crate::marker::BodyFill;
use crate::render::{quantize_span, Quantized};
use crate::wick;

verus! {

/// Vertical sub-cell steps per terminal row (one eighth-block each).
pub const EIGHTHS_PER_ROW: u32 = 8;

/// The eighth-block glyph lit `n` eighths from the bottom of the cell (`0` is
/// empty, `8` is full).
pub open spec fn eighth_glyph(n: int) -> char {
    if n <= 0 {
        ' '
    } else if n == 1 {
        '▁'
    } else if n == 2 {
        '▂'
    } else if n == 3 {
        '▃'
    } else if n == 4 {
        '▄'
    } else if n == 5 {
        '▅'
    } else if n == 6 {
        '▆'
    } else if n == 7 {
        '▇'
    } else {
        '█'
    }
}

/// How many eighths of its cell, counted up from the bottom, the block
/// element `c` fills: none for a space, all for a full block, and `n` for the
/// lower `n` eighths block U+2580 + `n`; `-1` for any other character.
pub open spec fn lower_eighths(c: char) -> int {
    if c == ' ' {
        0
    } else if c == '█' {
        8
    } else if 0x2581 <= (c as int) <= 0x2587 {
        c as int - 0x2580
    } else {
        -1
    }
}

/// The eighth-block glyph for `n` fills exactly the lower `n` eighths of its
/// cell, for every `n` from none to all.
pub proof fn lemma_eighth_glyph_fills_n(n: int)
    requires
        0 <= n <= 8,
    ensures
        lower_eighths(eighth_glyph(n)) == n,
{
}

/// A body segment over the eighths `[a, b)` of a cell, counted from its top,
/// shows the body over exactly `b - a` eighths: in reverse video, over the
/// top `b` eighths the glyph leaves unfilled, exactly when the segment is
/// flush with the top and ends inside the cell; otherwise over the `b - a`
/// lower eighths the glyph fills.
pub proof fn lemma_segment_shows_its_span(a: int, b: int)
    requires
        0 <= a < b <= 8,
    ensures
        ({
            let (g, p) = segment(a, b);
            &&& (p == Paint::Segment { reversed: true }) == (a == 0 && b < 8)
            &&& (p == Paint::Segment { reversed: true } || p == Paint::Segment { reversed: false })
            &&& p == Paint::Segment { reversed: true } ==> 8 - lower_eighths(g) == b
            &&& p == Paint::Segment { reversed: false } ==> lower_eighths(g) == b - a
        }),
{
}

/// The glyph and paint of a body segment lit over `[a, b)` eighths from the
/// top of its cell: a full block for a full cell, the lower `8 - b` eighths in
/// reverse video for a segment flush with the cell top, and `b - a` eighths lit
/// from the bottom otherwise.
pub open spec fn segment(a: int, b: int) -> (char, Paint) {
    if b - a == 8 {
        ('█', Paint::Segment { reversed: false })
    } else if a == 0 {
        (eighth_glyph(8 - b), Paint::Segment { reversed: true })
    } else {
        (eighth_glyph(b - a), Paint::Segment { reversed: false })
    }
}

fn eighths(n: u32) -> (c: char)
    requires
        n <= 8,
    ensures
        c == eighth_glyph(n as int),
{
    match n {
        0 => ' ',
        1 => '▁',
        2 => '▂',
        3 => '▃',
        4 => '▄',
        5 => '▅',
        6 => '▆',
        7 => '▇',
        _ => '█',
    }
}

/// The glyph and paint for a body segment lit over `[a, b)` eighths from the
/// top of the cell.
pub fn body_segment(a: u16, b: u16) -> (r: (char, Paint))
    requires
        a < b <= 8,
    ensures
        r == segment(a as int, b as int),
{
    if b - a == 8 {
        ('█', Paint::Segment { reversed: false })
    } else if a == 0 {
        (eighths((8 - b) as u32), Paint::Segment { reversed: true })
    } else {
        (eighths((b - a) as u32), Paint::Segment { reversed: false })
    }
}

/// The body's top and bottom eighths after quantizing, in a plot `rows` tall.
pub open spec fn body_span(q: Quantized, rows: int) -> (int, int) {
    let max = 8 * rows;
    let h = if q.body_bottom <= q.body_top {
        q.body_top + 1
    } else {
        q.body_bottom as int
    };
    let h = if h < max {
        h
    } else {
        max
    };
    let l = if q.body_top < h - 1 {
        q.body_top as int
    } else {
        h - 1
    };
    (l, h)
}

/// The body's last column (exclusive): at least one column wide, clipped to a
/// plot `cols` wide.
pub open spec fn body_col_end(q: Quantized, cols: int) -> int {
    let right = if q.body_right <= q.body_left {
        q.body_left + 1
    } else {
        q.body_right as int
    };
    if right < cols {
        right
    } else {
        cols
    }
}

/// What the body paints at `(col, row)`, before a hollow body is cleared.
pub open spec fn body_cell(q: Quantized, rows: int, cols: int, col: int, row: int) -> Option<(char, Paint)> {
    let (top, bot) = body_span(q, rows);
    let cell_top = 8 * row;
    let a = (if top > cell_top { top } else { cell_top }) - cell_top;
    let b = (if bot < cell_top + 8 { bot } else { cell_top + 8 }) - cell_top;
    if top / 8 <= row <= (bot - 1) / 8 && q.body_left <= col < body_col_end(q, cols) && a < b {
        Some(segment(a, b))
    } else {
        None
    }
}

/// Whether a hollow body clears `(col, row)`: a cell strictly inside the
/// border of a body at least three columns wide.
pub open spec fn cleared(q: Quantized, rows: int, cols: int, col: int, row: int) -> bool {
    let (top, bot) = body_span(q, rows);
    let end = body_col_end(q, cols);
    &&& q.fill == BodyFill::Hollow
    &&& end - q.body_left >= 3
    &&& top / 8 < row < (bot - 1) / 8
    &&& q.body_left < col < end - 1
}

/// What one candle paints at `(col, row)` in a plot `cols` x `rows`.
pub open spec fn candle_cell(q: Quantized, rows: int, cols: int, col: int, row: int) -> Option<(char, Paint)> {
    let (top, bot) = body_span(q, rows);
    if cleared(q, rows, cols, col, row) {
        Some((' ', Paint::Blank))
    } else if body_cell(q, rows, cols, col, row) is Some {
        body_cell(q, rows, cols, col, row)
    } else {
        wick::wick_cell(q.center as int, q.high as int, q.low as int, top / 8, (bot - 1) / 8, rows, col, row)
    }
}

/// Draws one candle with eighth blocks.
///
/// `q.body_top` and `q.body_bottom` are in eighths of a row, `q.body_left`
/// and `q.body_right` in whole columns, `q.center` is the wick's column and
/// `q.high` and `q.low` are in half rows. A hollow body at least three columns
/// wide has its interior cleared to the background, leaving a one-cell border
/// of eighth blocks; narrower bodies stay solid. An empty plot draws nothing.
pub fn draw_candle(canvas: &mut Canvas, q: Quantized)
    requires
        old(canvas).cols() == 0 || old(canvas).rows() == 0 || (q.body_top < u32::MAX && q.body_left < u32::MAX),
    ensures
        old(canvas).adds_in_order(*final(canvas)),
        final(canvas).cols() == old(canvas).cols(),
        final(canvas).rows() == old(canvas).rows(),
        forall|c: int, r: int|
            #[trigger] final(canvas).at(c, r) == if old(canvas).cols() == 0 || old(canvas).rows() == 0 {
                old(canvas).at(c, r)
            } else {
                overlay(
                    old(canvas).at(c, r),
                    old(canvas).contains(c, r),
                    candle_cell(q, old(canvas).rows() as int, old(canvas).cols() as int, c, r),
                )
            },
{
    let width = canvas.width();
    let height = canvas.height();
    if width == 0 || height == 0 {
        return;
    }
    let ghost rows = height as int;
    let ghost cols = width as int;
    let max_sub = height as u32 * EIGHTHS_PER_ROW;
    let (top_sub, bot_sub) = quantize_span(q.body_top, q.body_bottom, max_sub);
    assert((top_sub as int, bot_sub as int) == body_span(q, rows));
    let row_top = top_sub / EIGHTHS_PER_ROW;
    let row_bot = (bot_sub - 1) / EIGHTHS_PER_ROW;

    let ghost start = *canvas;
    wick::draw(canvas, q.center, q.high, q.low, row_top, row_bot);
    let ghost after_wick = *canvas;

    let left_col = q.body_left;
    let mut right_col = q.body_right;
    if right_col <= left_col {
        right_col = left_col + 1;
    }
    let col_end = if right_col < width as u32 {
        right_col
    } else {
        width as u32
    };
    assert(col_end == body_col_end(q, cols));

    let mut row = row_top;
    while row <= row_bot
        invariant
            row_top == top_sub / 8,
            row_bot == (bot_sub - 1) / 8,
            (top_sub as int, bot_sub as int) == body_span(q, rows),
            top_sub < bot_sub <= 8 * rows,
            row_top <= row <= row_bot + 1,
            col_end == body_col_end(q, cols),
            left_col == q.body_left,
            rows == canvas.rows(),
            cols == canvas.cols(),
            rows == start.rows(),
            cols == start.cols(),
            after_wick.adds_resetting(*canvas),
            1 <= rows <= 0xffff,
            forall|c: int, r: int|
                #[trigger] canvas.at(c, r) == overlay(
                    after_wick.at(c, r),
                    start.contains(c, r),
                    if r < row {
                        body_cell(q, rows, cols, c, r)
                    } else {
                        None
                    },
                ),
        decreases row_bot + 1 - row,
    {
        let cell_top = row * EIGHTHS_PER_ROW;
        let a = if top_sub > cell_top {
            top_sub
        } else {
            cell_top
        } - cell_top;
        let b = if bot_sub < cell_top + EIGHTHS_PER_ROW {
            bot_sub
        } else {
            cell_top + EIGHTHS_PER_ROW
        } - cell_top;
        if b > a {
            let (symbol, paint) = body_segment(a as u16, b as u16);
            let mut col = left_col;
            while col < col_end
                invariant
                    left_col <= col,
                    col_end == body_col_end(q, cols),
                    left_col == q.body_left,
                    row_top <= row <= row_bot,
                    row_top == top_sub / 8,
                    row_bot == (bot_sub - 1) / 8,
                    (top_sub as int, bot_sub as int) == body_span(q, rows),
                    cell_top == 8 * row,
                    a < b <= 8,
                    a == (if top_sub > cell_top { top_sub } else { cell_top }) - cell_top,
                    b == (if bot_sub < cell_top + 8 { bot_sub as int } else { cell_top + 8 }) - cell_top,
                    (symbol, paint) == segment(a as int, b as int),
                    rows == canvas.rows(),
                    cols == canvas.cols(),
                    rows == start.rows(),
                    cols == start.cols(),
                    after_wick.adds_resetting(*canvas),
                    forall|c: int, r: int|
                        #[trigger] canvas.at(c, r) == overlay(
                            after_wick.at(c, r),
                            start.contains(c, r),
                            if r < row || (r == row && c < col) {
                                body_cell(q, rows, cols, c, r)
                            } else {
                                None
                            },
                        ),
                decreases col_end - col,
            {
                let ghost prev = *canvas;
                canvas.put(col, row, symbol, paint);
                proof { lemma_resetting_twice(after_wick, prev, *canvas); }
                col = col + 1;
            }
        }
        row = row + 1;
    }
    let ghost after_body = *canvas;

    if q.fill == BodyFill::Hollow && col_end >= left_col && col_end - left_col >= 3 {
        clear_body_interior(canvas, left_col, col_end, row_top, row_bot);
    }
    proof {
        lemma_resetting_twice(after_wick, after_body, *canvas);
        lemma_keeping_then_resetting(start, after_wick, *canvas);
    }
    assert forall|c: int, r: int|
        #[trigger] canvas.at(c, r) == overlay(
            start.at(c, r),
            start.contains(c, r),
            candle_cell(q, rows, cols, c, r),
        ) by {
        assert(after_wick.at(c, r) == overlay(
            start.at(c, r),
            start.contains(c, r),
            wick::wick_cell(q.center as int, q.high as int, q.low as int, row_top as int, row_bot as int, rows, c, r),
        ));
        assert(after_body.at(c, r) == overlay(
            after_wick.at(c, r),
            start.contains(c, r),
            body_cell(q, rows, cols, c, r),
        ));
    }
}

/// Clears the cells strictly inside the body border (columns
/// `(x_start, x_end - 1)`, rows `(row_top, row_bot)`) to the background,
/// hollowing a filled body.
fn clear_body_interior(canvas: &mut Canvas, x_start: u32, x_end: u32, row_top: u32, row_bot: u32)
    requires
        x_start < x_end,
        row_top <= row_bot < u32::MAX,
    ensures
        old(canvas).adds_resetting(*final(canvas)),
        final(canvas).cols() == old(canvas).cols(),
        final(canvas).rows() == old(canvas).rows(),
        forall|c: int, r: int|
            #[trigger] final(canvas).at(c, r) == overlay(
                old(canvas).at(c, r),
                old(canvas).contains(c, r),
                if row_top < r < row_bot && x_start < c < x_end - 1 {
                    Some((' ', Paint::Blank))
                } else {
                    None
                },
            ),
{
    let mut row = row_top + 1;
    while row < row_bot
        invariant
            row_top + 1 <= row,
            row <= row_bot || row == row_top + 1,
            x_start < x_end,
            canvas.cols() == old(canvas).cols(),
            canvas.rows() == old(canvas).rows(),
            old(canvas).adds_resetting(*canvas),
            forall|c: int, r: int|
                #[trigger] canvas.at(c, r) == overlay(
                    old(canvas).at(c, r),
                    old(canvas).contains(c, r),
                    if row_top < r < row && r < row_bot && x_start < c < x_end - 1 {
                        Some((' ', Paint::Blank))
                    } else {
                        None
                    },
                ),
        decreases row_bot - row,
    {
        let mut col = x_start + 1;
        while col < x_end - 1
            invariant
                x_start + 1 <= col,
                x_start < x_end,
                row_top < row < row_bot,
                canvas.cols() == old(canvas).cols(),
                canvas.rows() == old(canvas).rows(),
                old(canvas).adds_resetting(*canvas),
                forall|c: int, r: int|
                    #[trigger] canvas.at(c, r) == overlay(
                        old(canvas).at(c, r),
                        old(canvas).contains(c, r),
                        if (row_top < r < row || (r == row && c < col)) && x_start < c < x_end - 1 {
                            Some((' ', Paint::Blank))
                        } else {
                            None
                        },
                    ),
            decreases x_end - col,
        {
            let ghost prev = *canvas;
            canvas.put(col, row, ' ', Paint::Blank);
            proof { lemma_resetting_twice(*old(canvas), prev, *canvas); }
            col = col + 1;
        }
        row = row + 1;
    }
}

/// A hollow candle is the filled candle with only its interior cells cleared,
/// and a body narrower than three columns has no interior, so it is drawn
/// exactly as the filled one.
pub proof fn lemma_hollow_clears_only_the_interior(q: Quantized, rows: int, cols: int)
    requires
        q.fill == BodyFill::Hollow,
    ensures
        forall|c: int, r: int|
            !cleared(q, rows, cols, c, r) ==> #[trigger] candle_cell(q, rows, cols, c, r) == candle_cell(
                Quantized { fill: BodyFill::Filled, ..q },
                rows,
                cols,
                c,
                r,
            ),
        body_col_end(q, cols) - q.body_left < 3 ==> forall|c: int, r: int|
            #[trigger] candle_cell(q, rows, cols, c, r) == candle_cell(
                Quantized { fill: BodyFill::Filled, ..q },
                rows,
                cols,
                c,
                r,
            ),
{
}

} // verus!

//! Braille-dot rasterizer: a 2x4 grid of dots per cell, four times the
//! vertical and twice the horizontal resolution of a whole cell. Each cell is
//! a single color: where a body and a wick share a cell, the body color wins.

use vstd::prelude::*;

use crate::canvas::{lemma_keeping_twice, overlay, Canvas, Paint};
use crate::marker::BodyFill;
use crate::render::{on_border, quantize_span, Quantized};

verus! {

/// Braille dot columns per terminal column.
pub const DOTS_X: u32 = 2;

/// Braille dot rows per terminal row.
pub const DOTS_Y: u32 = 4;

/// Whether the bit of weight `weight` is set in `pattern`, as 0 or 1.
pub open spec fn pattern_bit(pattern: u8, weight: int) -> int {
    (pattern as int / weight) % 2
}

/// The Unicode code point of the braille glyph whose lit dots are the bits of
/// `pattern`, counted in row-major order over the cell's 2x4 dot grid (bit
/// `2 * row + col`). Unicode numbers the dots down the left column (dots 1-3),
/// then down the right (dots 4-6), then the bottom row (dots 7, 8), and places
/// dot `n` at bit `n - 1` above U+2800.
pub open spec fn braille_code(pattern: u8) -> int {
    0x2800
        + pattern_bit(pattern, 1) * 0x01
        + pattern_bit(pattern, 2) * 0x08
        + pattern_bit(pattern, 4) * 0x02
        + pattern_bit(pattern, 8) * 0x10
        + pattern_bit(pattern, 16) * 0x04
        + pattern_bit(pattern, 32) * 0x20
        + pattern_bit(pattern, 64) * 0x40
        + pattern_bit(pattern, 128) * 0x80
}

/// The braille glyph whose lit dots are the bits of the row-major `pattern`.
pub open spec fn braille_char(pattern: u8) -> char {
    braille_code(pattern) as char
}

/// Looks up the braille glyph for a row-major dot `pattern` in the constant
/// table `ratatui_core::symbols::braille::BRAILLE`, whose entries are listed
/// by row-major bit pattern: entry `p` is the glyph U+2800 plus the Unicode
/// dot bits of the dots that `p` lights.
#[verifier::external_body]
pub(crate) fn braille_symbol(pattern: u8) -> (c: char)
    ensures
        c == braille_char(pattern),
{
    ratatui_core::symbols::braille::BRAILLE[pattern as usize]
}

/// The dot rows and columns of a braille candle's body in a plot `cols` x
/// `rows` cells: `(top, bot, left, right)`, half-open, each at least one dot.
pub open spec fn body_dots(q: Quantized, rows: int, cols: int) -> (int, int, int, int) {
    let max_y = 4 * rows;
    let max_x = 2 * cols;
    let bot = if q.body_bottom <= q.body_top { q.body_top + 1 } else { q.body_bottom as int };
    let bot = if bot < max_y { bot } else { max_y };
    let top = if q.body_top < bot - 1 { q.body_top as int } else { bot - 1 };
    let right = if q.body_right <= q.body_left { q.body_left + 1 } else { q.body_right as int };
    let right = if right < max_x { right } else { max_x };
    let left = if q.body_left < right - 1 { q.body_left as int } else { right - 1 };
    (top, bot, left, right)
}

/// A dot row clamped to the last dot row of a plot `rows` tall.
pub open spec fn clamp_dot(y: int, rows: int) -> int {
    if y < 4 * rows - 1 { y } else { 4 * rows - 1 }
}

/// Whether the wick lights the dot `(x, y)`: along the center dot column,
/// from the high down to the body's top and from the body's bottom down to
/// the low, when that column lies in the plot.
pub open spec fn wick_dot(q: Quantized, rows: int, cols: int, x: int, y: int) -> bool {
    let (top, bot, left, right) = body_dots(q, rows, cols);
    let high = clamp_dot(q.high as int, rows);
    let low = clamp_dot(q.low as int, rows);
    &&& x == q.center
    &&& q.center < 2 * cols
    &&& ((high <= y < top) || (bot <= y <= low))
}

/// Whether the body lights the dot `(x, y)`: every dot of the body, or only
/// its border dots when hollow.
pub open spec fn body_dot(q: Quantized, rows: int, cols: int, x: int, y: int) -> bool {
    let (top, bot, left, right) = body_dots(q, rows, cols);
    &&& left <= x < right
    &&& top <= y < bot
    &&& (q.fill != BodyFill::Hollow || x == left || x + 1 == right || y == top || y + 1 == bot)
}

/// Whether the dot `(x, y)` is lit by the candle.
pub open spec fn dot_lit(q: Quantized, rows: int, cols: int, x: int, y: int) -> bool {
    wick_dot(q, rows, cols, x, y) || body_dot(q, rows, cols, x, y)
}

/// The bit of the dot at `(bx, by)` within its cell.
pub open spec fn dot_bit(bx: int, by: int) -> int {
    if by == 0 {
        if bx == 0 { 1int } else { 2 }
    } else if by == 1 {
        if bx == 0 { 4int } else { 8 }
    } else if by == 2 {
        if bx == 0 { 16int } else { 32 }
    } else {
        if bx == 0 { 64int } else { 128 }
    }
}

/// The lit dots of cell `(col, row)` as a row-major braille pattern.
pub open spec fn cell_pattern(q: Quantized, rows: int, cols: int, col: int, row: int) -> int {
    let lit = |bx: int, by: int|
        if dot_lit(q, rows, cols, 2 * col + bx, 4 * row + by) { dot_bit(bx, by) } else { 0 };
    lit(0, 0) + lit(1, 0) + lit(0, 1) + lit(1, 1) + lit(0, 2) + lit(1, 2) + lit(0, 3) + lit(1, 3)
}

/// Whether any body dot falls in cell `(col, row)`.
pub open spec fn cell_has_body(q: Quantized, rows: int, cols: int, col: int, row: int) -> bool {
    exists|bx: int, by: int|
        0 <= bx < 2 && 0 <= by < 4 && #[trigger] body_dot(q, rows, cols, 2 * col + bx, 4 * row + by)
}

/// What one braille candle paints at `(col, row)` in a plot `cols` x `rows`:
/// the braille glyph of the cell's lit dots, in the body color when the body
/// lights any of them and the wick color otherwise.
pub open spec fn candle_cell(q: Quantized, rows: int, cols: int, col: int, row: int) -> Option<(char, Paint)> {
    let pattern = cell_pattern(q, rows, cols, col, row);
    if pattern != 0 {
        Some((
            braille_char(pattern as u8),
            if cell_has_body(q, rows, cols, col, row) { Paint::Body } else { Paint::Wick },
        ))
    } else {
        None
    }
}

struct Dots {
    top: u32,
    bot: u32,
    left: u32,
    right: u32,
    high: u32,
    low: u32,
    center: u32,
    max_x: u32,
    hollow: bool,
}

impl Dots {
    spec fn matches(self, q: Quantized, rows: int, cols: int) -> bool {
        &&& (self.top as int, self.bot as int, self.left as int, self.right as int) == body_dots(q, rows, cols)
        &&& self.high == clamp_dot(q.high as int, rows)
        &&& self.low == clamp_dot(q.low as int, rows)
        &&& self.center == q.center
        &&& self.max_x == 2 * cols
        &&& self.hollow == (q.fill == BodyFill::Hollow)
    }

    fn body(&self, x: u32, y: u32) -> (b: bool)
        ensures
            b == (self.left <= x < self.right && self.top <= y < self.bot && (!self.hollow || x == self.left || x + 1 == self.right || y == self.top || y + 1 == self.bot)),
    {
        self.left <= x && x < self.right && self.top <= y && y < self.bot && (!self.hollow || on_border(
            x,
            y,
            self.left,
            self.right,
            self.top,
            self.bot,
        ))
    }

    fn wick(&self, x: u32, y: u32) -> (b: bool)
        ensures
            b == (x == self.center && self.center < self.max_x && ((self.high <= y < self.top) || (self.bot <= y <= self.low))),
    {
        x == self.center && self.center < self.max_x && ((self.high <= y && y < self.top) || (self.bot <= y
            && y <= self.low))
    }
}

/// Draws one candle with braille dots.
///
/// `q.body_top`, `q.body_bottom`, `q.high` and `q.low` are in dot rows (a
/// quarter row each), `q.body_left` and `q.body_right` in dot columns (half a
/// column each), and `q.center` is the dot column the wick runs along. The
/// body is at least one dot each way; a hollow body lights only its border
/// dots. An empty plot draws nothing.
pub fn draw_candle(canvas: &mut Canvas, q: Quantized)
    requires
        old(canvas).cols() == 0 || old(canvas).rows() == 0 || (q.body_top < u32::MAX && q.body_left < u32::MAX),
    ensures
        old(canvas).adds_keeping(*final(canvas)),
        final(canvas).cols() == old(canvas).cols(),
        final(canvas).rows() == old(canvas).rows(),
        forall|c: int, r: int|
            #[trigger] final(canvas).at(c, r) == if old(canvas).cols() == 0 || old(canvas).rows() == 0 {
                old(canvas).at(c, r)
            } else {
                overlay(
                    old(canvas).at(c, r),
                    old(canvas).contains(c, r),
                    candle_cell(q, old(canvas).rows() as int, old(canvas).cols() as int, c, r),
                )
            },
{
    let width = canvas.width();
    let height = canvas.height();
    if width == 0 || height == 0 {
        return;
    }
    let ghost rows = height as int;
    let ghost cols = width as int;
    let max_dot_y = height as u32 * DOTS_Y;
    let max_dot_x = width as u32 * DOTS_X;
    let (top, bot) = quantize_span(q.body_top, q.body_bottom, max_dot_y);
    let (left, right) = quantize_span(q.body_left, q.body_right, max_dot_x);
    let last_dot_y = max_dot_y - 1;
    let high = if q.high < last_dot_y { q.high } else { last_dot_y };
    let low = if q.low < last_dot_y { q.low } else { last_dot_y };
    let d = Dots {
        top,
        bot,
        left,
        right,
        high,
        low,
        center: q.center,
        max_x: max_dot_x,
        hollow: q.fill == BodyFill::Hollow,
    };
    assert(d.matches(q, rows, cols));

    let mut col: u32 = 0;
    while col < width as u32
        invariant
            d.matches(q, rows, cols),
            1 <= rows <= 0xffff,
            1 <= cols <= 0xffff,
            width == cols,
            height == rows,
            col <= cols,
            canvas.cols() == cols,
            canvas.rows() == rows,
            canvas.cols() == old(canvas).cols(),
            canvas.rows() == old(canvas).rows(),
            old(canvas).adds_keeping(*canvas),
            forall|c: int, r: int|
                #[trigger] canvas.at(c, r) == overlay(
                    old(canvas).at(c, r),
                    old(canvas).contains(c, r),
                    if c < col {
                        candle_cell(q, rows, cols, c, r)
                    } else {
                        None
                    },
                ),
        decreases cols - col,
    {
        let mut row: u32 = 0;
        while row < height as u32
            invariant
                d.matches(q, rows, cols),
                1 <= rows <= 0xffff,
                1 <= cols <= 0xffff,
                width == cols,
                height == rows,
                col < cols,
                row <= rows,
                canvas.cols() == cols,
                canvas.rows() == rows,
                canvas.cols() == old(canvas).cols(),
                canvas.rows() == old(canvas).rows(),
                old(canvas).adds_keeping(*canvas),
                forall|c: int, r: int|
                    #[trigger] canvas.at(c, r) == overlay(
                        old(canvas).at(c, r),
                        old(canvas).contains(c, r),
                        if c < col || (c == col && r < row) {
                            candle_cell(q, rows, cols, c, r)
                        } else {
                            None
                        },
                    ),
            decreases rows - row,
        {
            let x = col * DOTS_X;
            let y = row * DOTS_Y;
            let mut pattern: u32 = 0;
            let mut has_body = false;
            let mut by: u32 = 0;
            while by < DOTS_Y
                invariant
                    d.matches(q, rows, cols),
                    by <= 4,
                    x == 2 * col,
                    y == 4 * row,
                    col < cols <= 0xffff,
                    row < rows <= 0xffff,
                    pattern == (if by > 0 { cell_rows(q, rows, cols, col as int, row as int, by as int) } else { 0 }),
                    pattern < pow_bits(by as int),
                    has_body == exists|bx: int, yy: int|
                        0 <= bx < 2 && 0 <= yy < by && #[trigger] body_dot(q, rows, cols, 2 * col + bx, 4 * row + yy),
                decreases 4 - by,
            {
                let b0 = d.body(x, y + by);
                let b1 = d.body(x + 1, y + by);
                let w0 = d.wick(x, y + by);
                let w1 = d.wick(x + 1, y + by);
                let shift = if by == 0 {
                    1u32
                } else if by == 1 {
                    4
                } else if by == 2 {
                    16
                } else {
                    64
                };
                if b0 || w0 {
                    pattern = pattern + shift;
                }
                if b1 || w1 {
                    pattern = pattern + 2 * shift;
                }
                has_body = has_body || b0 || b1;
                proof {
                    lemma_cell_rows_step(q, rows, cols, col as int, row as int, by as int);
                    assert(body_dot(q, rows, cols, 2 * col + 0, 4 * row + by) == b0);
                    assert(body_dot(q, rows, cols, 2 * col + 1, 4 * row + by) == b1);
                }
                by = by + 1;
            }
            proof {
                lemma_cell_rows_full(q, rows, cols, col as int, row as int);
            }
            if pattern != 0 {
                let paint = if has_body {
                    Paint::Body
                } else {
                    Paint::Wick
                };
                let ghost prev = *canvas;
                canvas.put(col, row, braille_symbol(pattern as u8), paint);
                proof { lemma_keeping_twice(*old(canvas), prev, *canvas); }
            }
            row = row + 1;
        }
        col = col + 1;
    }
}

/// `2^(2 * n)`: the bound of a pattern over the first `n` dot rows.
pub open spec fn pow_bits(n: int) -> int {
    if n <= 0 { 1 } else if n == 1 { 4 } else if n == 2 { 16 } else if n == 3 { 64 } else { 256 }
}

/// The pattern contributed by the first `n` dot rows of cell `(col, row)`.
pub open spec fn cell_rows(q: Quantized, rows: int, cols: int, col: int, row: int, n: int) -> int
    decreases n,
{
    if n <= 0 {
        0
    } else {
        let by = n - 1;
        cell_rows(q, rows, cols, col, row, by)
            + (if dot_lit(q, rows, cols, 2 * col, 4 * row + by) { dot_bit(0, by) } else { 0 })
            + (if dot_lit(q, rows, cols, 2 * col + 1, 4 * row + by) { dot_bit(1, by) } else { 0 })
    }
}

proof fn lemma_cell_rows_step(q: Quantized, rows: int, cols: int, col: int, row: int, by: int)
    requires
        0 <= by < 4,
    ensures
        cell_rows(q, rows, cols, col, row, by + 1) == cell_rows(q, rows, cols, col, row, by)
            + (if dot_lit(q, rows, cols, 2 * col, 4 * row + by) { dot_bit(0, by) } else { 0 })
            + (if dot_lit(q, rows, cols, 2 * col + 1, 4 * row + by) { dot_bit(1, by) } else { 0 }),
{
}

proof fn lemma_cell_rows_full(q: Quantized, rows: int, cols: int, col: int, row: int)
    ensures
        cell_rows(q, rows, cols, col, row, 4) == cell_pattern(q, rows, cols, col, row),
{
    reveal_with_fuel(cell_rows, 5);
}

/// A hollow braille body lights only dots the filled body lights, including
/// all of its border dots; a body at most two dots wide or tall has no
/// interior, so the hollow candle is drawn exactly as the filled one.
pub proof fn lemma_hollow_braille(q: Quantized, rows: int, cols: int)
    requires
        q.fill == BodyFill::Hollow,
    ensures
        forall|x: int, y: int|
            #[trigger] body_dot(q, rows, cols, x, y) ==> body_dot(Quantized { fill: BodyFill::Filled, ..q }, rows, cols, x, y),
        ({
            let (top, bot, left, right) = body_dots(q, rows, cols);
            right <= left + 2 || bot <= top + 2
        }) ==> forall|c: int, r: int|
            #[trigger] candle_cell(q, rows, cols, c, r) == candle_cell(
                Quantized { fill: BodyFill::Filled, ..q },
                rows,
                cols,
                c,
                r,
            ),
{
    let f = Quantized { fill: BodyFill::Filled, ..q };
    assert(body_dots(f, rows, cols) == body_dots(q, rows, cols));
    let (top, bot, left, right) = body_dots(q, rows, cols);
    if right <= left + 2 || bot <= top + 2 {
        assert forall|x: int, y: int| #[trigger] body_dot(q, rows, cols, x, y) == body_dot(f, rows, cols, x, y) by {}
        assert forall|c: int, r: int|
            #[trigger] candle_cell(q, rows, cols, c, r) == candle_cell(f, rows, cols, c, r) by {
            assert(cell_pattern(q, rows, cols, c, r) == cell_pattern(f, rows, cols, c, r));
            assert(cell_has_body(q, rows, cols, c, r) == cell_has_body(f, rows, cols, c, r));
        }
    }
}

/// `1` for a set digit and `0` for a clear one.
pub open spec fn digit(b: bool) -> int {
    if b { 1 } else { 0 }
}

/// The eight binary digits of the byte they make are read back by dividing by
/// each digit's weight.
pub proof fn lemma_binary_digits(b0: bool, b1: bool, b2: bool, b3: bool, b4: bool, b5: bool, b6: bool, b7: bool)
    ensures
        ({
            let s = digit(b0) + 2 * digit(b1) + 4 * digit(b2) + 8 * digit(b3) + 16 * digit(b4) + 32 * digit(b5)
                + 64 * digit(b6) + 128 * digit(b7);
            &&& 0 <= s < 256
            &&& s % 2 == digit(b0)
            &&& (s / 2) % 2 == digit(b1)
            &&& (s / 4) % 2 == digit(b2)
            &&& (s / 8) % 2 == digit(b3)
            &&& (s / 16) % 2 == digit(b4)
            &&& (s / 32) % 2 == digit(b5)
            &&& (s / 64) % 2 == digit(b6)
            &&& (s / 128) % 2 == digit(b7)
        }),
{
}

/// The weight Unicode gives the braille dot in column `bx` and row `by` of
/// its cell: dots 1 to 3 run down the left column, dots 4 to 6 down the right
/// column, and dots 7 and 8 make the bottom row; dot `n` weighs `2^(n - 1)`.
pub open spec fn unicode_dot(bx: int, by: int) -> int {
    if by == 3 {
        if bx == 0 { 64 } else { 128 }
    } else if bx == 0 {
        if by == 0 { 1 } else if by == 1 { 2 } else { 4 }
    } else {
        if by == 0 { 8 } else if by == 1 { 16 } else { 32 }
    }
}

/// Whether the character `c` is a braille pattern that raises the dot in
/// column `bx` and row `by` of its cell.
pub open spec fn braille_shows(c: char, bx: int, by: int) -> bool {
    &&& 0x2800 <= (c as int) <= 0x28ff
    &&& ((c as int - 0x2800) / unicode_dot(bx, by)) % 2 == 1
}

/// The row-major weight of the dot in column `bx` and row `by` of a cell.
pub open spec fn row_major_dot(bx: int, by: int) -> int {
    dot_bit(bx, by)
}

/// The braille glyph of a row-major pattern raises exactly the dots whose
/// bits the pattern sets.
pub proof fn lemma_braille_char_dots(pb: u8, bx: int, by: int)
    requires
        0 <= bx < 2,
        0 <= by < 4,
    ensures
        braille_shows(braille_char(pb), bx, by) == (pattern_bit(pb, row_major_dot(bx, by)) == 1),
{
    let b = |w: int| pattern_bit(pb, w) == 1;
    assert forall|w: int| w > 0 implies #[trigger] digit(b(w)) == pattern_bit(pb, w) by {}
    lemma_binary_digits(b(1), b(4), b(16), b(2), b(8), b(32), b(64), b(128));
    assert(digit(b(1)) == pattern_bit(pb, 1));
    assert(digit(b(2)) == pattern_bit(pb, 2));
    assert(digit(b(4)) == pattern_bit(pb, 4));
    assert(digit(b(8)) == pattern_bit(pb, 8));
    assert(digit(b(16)) == pattern_bit(pb, 16));
    assert(digit(b(32)) == pattern_bit(pb, 32));
    assert(digit(b(64)) == pattern_bit(pb, 64));
    assert(digit(b(128)) == pattern_bit(pb, 128));
    let code = braille_code(pb);
    assert(0x2800 <= code <= 0x28ff);
    assert((braille_char(pb) as int) == code);
}

/// Whether the dot `(bx, by)` of cell `(col, row)` is lit by the candle.
spec fn cell_dot(q: Quantized, rows: int, cols: int, col: int, row: int, bx: int, by: int) -> bool {
    dot_lit(q, rows, cols, 2 * col + bx, 4 * row + by)
}

/// A cell's pattern is a byte whose row-major bits are its lit dots.
proof fn lemma_cell_pattern_bits(q: Quantized, rows: int, cols: int, col: int, row: int, bx: int, by: int)
    requires
        0 <= bx < 2,
        0 <= by < 4,
    ensures
        0 <= cell_pattern(q, rows, cols, col, row) < 256,
        pattern_bit(cell_pattern(q, rows, cols, col, row) as u8, row_major_dot(bx, by)) == digit(
            cell_dot(q, rows, cols, col, row, bx, by),
        ),
{
    let l = |a: int, b: int| cell_dot(q, rows, cols, col, row, a, b);
    lemma_binary_digits(l(0, 0), l(1, 0), l(0, 1), l(1, 1), l(0, 2), l(1, 2), l(0, 3), l(1, 3));
    let p = cell_pattern(q, rows, cols, col, row);
    assert(p == digit(l(0, 0)) + 2 * digit(l(1, 0)) + 4 * digit(l(0, 1)) + 8 * digit(l(1, 1)) + 16 * digit(
        l(0, 2),
    ) + 32 * digit(l(1, 2)) + 64 * digit(l(0, 3)) + 128 * digit(l(1, 3)));
    assert((p as u8) as int == p);
}

/// A braille candle raises exactly its own dots. For a body within the plot
/// and a high and low inside it, the dot `(x, y)` is raised in the glyph drawn
/// at its cell just when it is a dot of the body (of its border, when hollow)
/// or of a wick: on the wick column, from the high down to the dot above the
/// body's top, or from the body's bottom edge down to the low.
pub proof fn lemma_braille_candle_raises_its_dots(q: Quantized, rows: int, cols: int, x: int, y: int)
    requires
        1 <= rows <= 0xffff,
        1 <= cols <= 0xffff,
        q.body_top < q.body_bottom <= 4 * rows,
        q.body_left < q.body_right <= 2 * cols,
        q.high < 4 * rows,
        q.low < 4 * rows,
        0 <= x < 2 * cols,
        0 <= y < 4 * rows,
    ensures
        ({
            let body = q.body_left <= x < q.body_right && q.body_top <= y < q.body_bottom && (q.fill
                != BodyFill::Hollow || x == q.body_left || x + 1 == q.body_right || y == q.body_top || y + 1
                == q.body_bottom);
            let wick = x == q.center && ((q.high <= y < q.body_top) || (q.body_bottom <= y <= q.low));
            (body || wick) == (candle_cell(q, rows, cols, x / 2, y / 4) matches Some((g, _)) && braille_shows(
                g,
                x % 2,
                y % 4,
            ))
        }),
{
    let col = x / 2;
    let row = y / 4;
    let (bx, by) = (x % 2, y % 4);
    lemma_cell_pattern_bits(q, rows, cols, col, row, bx, by);
    let p = cell_pattern(q, rows, cols, col, row);
    lemma_braille_char_dots(p as u8, bx, by);
    assert(x == 2 * col + bx);
    assert(y == 4 * row + by);
    assert(body_dots(q, rows, cols) == (q.body_top as int, q.body_bottom as int, q.body_left as int, q.body_right as int));
    assert(cell_dot(q, rows, cols, col, row, bx, by) == dot_lit(q, rows, cols, x, y));
    if p == 0 {
        assert(pattern_bit(p as u8, row_major_dot(bx, by)) == 0);
    }
}
} // verus!

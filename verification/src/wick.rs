//! Shared wick rendering: a vertical run of line glyphs along a candle's
//! center column, from the body out to the high and low.

use vstd::prelude::*;

use crate::canvas::{lemma_keeping_twice, overlay, Canvas, Paint};

verus! {

/// Vertical steps per terminal row a wick tip resolves to (`│`, `╵`, `╷`).
pub const HALVES_PER_ROW: u32 = 2;

/// The glyph of the upper wick in `row`, which runs from the half-row
/// `high_half` down to the body's top cell `row_top` (exclusive). The tip is
/// the lower-half glyph `╷` when the high lands mid-cell.
pub open spec fn upper_wick_glyph(high_half: int, row_top: int, row: int) -> Option<char> {
    if high_half < 2 * row_top && high_half / 2 <= row < row_top {
        Some(
            if row == high_half / 2 && high_half % 2 == 1 {
                '╷'
            } else {
                '│'
            },
        )
    } else {
        None
    }
}

/// The glyph of the lower wick in `row`, which runs from below the body's
/// bottom cell `row_bot` down to the half-row `low_half`. The tip is the
/// upper-half glyph `╵` when the low lands on a cell boundary.
pub open spec fn lower_wick_glyph(low_half: int, row_bot: int, row: int) -> Option<char> {
    if low_half >= 2 * (row_bot + 1) && row_bot < row <= low_half / 2 {
        Some(
            if row == low_half / 2 && low_half % 2 == 0 {
                '╵'
            } else {
                '│'
            },
        )
    } else {
        None
    }
}

/// What an upper wick paints at `(col, row)`.
pub open spec fn upper_wick_cell(center_col: int, high_half: int, row_top: int, col: int, row: int) -> Option<(char, Paint)> {
    if col == center_col && upper_wick_glyph(high_half, row_top, row) is Some {
        Some((upper_wick_glyph(high_half, row_top, row).unwrap(), Paint::Wick))
    } else {
        None
    }
}

/// What a lower wick paints at `(col, row)`.
pub open spec fn lower_wick_cell(center_col: int, low_half: int, row_bot: int, col: int, row: int) -> Option<(char, Paint)> {
    if col == center_col && lower_wick_glyph(low_half, row_bot, row) is Some {
        Some((lower_wick_glyph(low_half, row_bot, row).unwrap(), Paint::Wick))
    } else {
        None
    }
}

/// The half-row a low clamps to: no lower than the last half-row of a plot
/// `rows` tall.
pub open spec fn clamp_low_half(low_half: int, rows: int) -> int {
    if low_half < 2 * rows - 1 {
        low_half
    } else {
        2 * rows - 1
    }
}

/// What both wicks of a candle paint at `(col, row)`; the lower wick is drawn
/// last.
pub open spec fn wick_cell(
    center_col: int,
    high_half: int,
    low_half: int,
    row_top: int,
    row_bot: int,
    rows: int,
    col: int,
    row: int,
) -> Option<(char, Paint)> {
    if lower_wick_cell(center_col, clamp_low_half(low_half, rows), row_bot, col, row) is Some {
        lower_wick_cell(center_col, clamp_low_half(low_half, rows), row_bot, col, row)
    } else {
        upper_wick_cell(center_col, high_half, row_top, col, row)
    }
}

/// Draws the wick above the body, from the body's top cell `row_top` up to the
/// half-row `high_half`. Returns whether the wick reached past the body's top
/// cell at all.
pub fn draw_upper_wick(canvas: &mut Canvas, center_col: u32, high_half: u32, row_top: u32) -> (up: bool)
    requires
        row_top <= 0x7fff_ffff,
    ensures
        up == (high_half < 2 * row_top),
        old(canvas).adds_keeping(*final(canvas)),
        final(canvas).cols() == old(canvas).cols(),
        final(canvas).rows() == old(canvas).rows(),
        forall|c: int, r: int|
            #[trigger] final(canvas).at(c, r) == overlay(
                old(canvas).at(c, r),
                old(canvas).contains(c, r),
                upper_wick_cell(center_col as int, high_half as int, row_top as int, c, r),
            ),
{
    let body_edge = row_top * HALVES_PER_ROW;
    if high_half >= body_edge {
        return false;
    }
    let tip = high_half / HALVES_PER_ROW;
    let mut r = tip;
    if high_half % HALVES_PER_ROW == 1 {
        let ghost prev = *canvas;
        canvas.put(center_col, tip, '╷', Paint::Wick);
        proof { lemma_keeping_twice(*old(canvas), prev, *canvas); }
        r = tip + 1;
    }
    while r < row_top
        invariant
            tip == high_half / 2,
            high_half < 2 * row_top,
            tip <= r <= row_top,
            high_half % 2 == 1 ==> tip < r,
            canvas.cols() == old(canvas).cols(),
            canvas.rows() == old(canvas).rows(),
            old(canvas).adds_keeping(*canvas),
            forall|c: int, rr: int|
                #[trigger] canvas.at(c, rr) == overlay(
                    old(canvas).at(c, rr),
                    old(canvas).contains(c, rr),
                    if rr < r {
                        upper_wick_cell(center_col as int, high_half as int, row_top as int, c, rr)
                    } else {
                        None
                    },
                ),
        decreases row_top - r,
    {
        let ghost prev = *canvas;
        canvas.put(center_col, r, '│', Paint::Wick);
        proof { lemma_keeping_twice(*old(canvas), prev, *canvas); }
        r = r + 1;
    }
    true
}

/// Draws the wick below the body, from the body's bottom cell `row_bot` down
/// to the half-row `low_half`. Returns whether the wick reached past the
/// body's bottom cell at all.
pub fn draw_lower_wick(canvas: &mut Canvas, center_col: u32, low_half: u32, row_bot: u32) -> (down: bool)
    requires
        row_bot < 0x7fff_ffff,
    ensures
        down == (low_half >= 2 * (row_bot + 1)),
        old(canvas).adds_keeping(*final(canvas)),
        final(canvas).cols() == old(canvas).cols(),
        final(canvas).rows() == old(canvas).rows(),
        forall|c: int, r: int|
            #[trigger] final(canvas).at(c, r) == overlay(
                old(canvas).at(c, r),
                old(canvas).contains(c, r),
                lower_wick_cell(center_col as int, low_half as int, row_bot as int, c, r),
            ),
{
    let body_edge = (row_bot + 1) * HALVES_PER_ROW;
    if low_half < body_edge {
        return false;
    }
    let tip = low_half / HALVES_PER_ROW;
    let mut r = row_bot + 1;
    while r < tip
        invariant
            tip == low_half / 2,
            low_half >= 2 * (row_bot + 1),
            row_bot + 1 <= r <= tip,
            canvas.cols() == old(canvas).cols(),
            canvas.rows() == old(canvas).rows(),
            old(canvas).adds_keeping(*canvas),
            forall|c: int, rr: int|
                #[trigger] canvas.at(c, rr) == overlay(
                    old(canvas).at(c, rr),
                    old(canvas).contains(c, rr),
                    if rr < r {
                        lower_wick_cell(center_col as int, low_half as int, row_bot as int, c, rr)
                    } else {
                        None
                    },
                ),
        decreases tip - r,
    {
        let ghost prev = *canvas;
        canvas.put(center_col, r, '│', Paint::Wick);
        proof { lemma_keeping_twice(*old(canvas), prev, *canvas); }
        r = r + 1;
    }
    if low_half % HALVES_PER_ROW == 0 {
        let ghost prev = *canvas;
        canvas.put(center_col, tip, '╵', Paint::Wick);
        proof { lemma_keeping_twice(*old(canvas), prev, *canvas); }
    } else {
        let ghost prev = *canvas;
        canvas.put(center_col, tip, '│', Paint::Wick);
        proof { lemma_keeping_twice(*old(canvas), prev, *canvas); }
    }
    true
}

/// Draws a candle's wicks, reaching from the body's top and bottom cells
/// (`row_top`, `row_bot`) out to the high and low half-rows, along the column
/// `center_col`. The low is clamped to the last half-row of the plot.
///
/// Returns `(upper, lower)`: whether each wick extended past the body's top
/// and bottom cells.
pub fn draw(
    canvas: &mut Canvas,
    center_col: u32,
    high_half: u32,
    low_half: u32,
    row_top: u32,
    row_bot: u32,
) -> (r: (bool, bool))
    requires
        old(canvas).rows() >= 1,
        row_top <= 0x7fff_ffff,
        row_bot < 0x7fff_ffff,
    ensures
        r.0 == (high_half < 2 * row_top),
        r.1 == (clamp_low_half(low_half as int, old(canvas).rows() as int) >= 2 * (row_bot + 1)),
        old(canvas).adds_keeping(*final(canvas)),
        final(canvas).cols() == old(canvas).cols(),
        final(canvas).rows() == old(canvas).rows(),
        forall|c: int, rr: int|
            #[trigger] final(canvas).at(c, rr) == overlay(
                old(canvas).at(c, rr),
                old(canvas).contains(c, rr),
                wick_cell(
                    center_col as int,
                    high_half as int,
                    low_half as int,
                    row_top as int,
                    row_bot as int,
                    old(canvas).rows() as int,
                    c,
                    rr,
                ),
            ),
{
    let last_half = canvas.height() as u32 * HALVES_PER_ROW - 1;
    let low_half = if low_half < last_half {
        low_half
    } else {
        last_half
    };
    let upper = draw_upper_wick(canvas, center_col, high_half, row_top);
    let ghost mid = *canvas;
    let lower = draw_lower_wick(canvas, center_col, low_half, row_bot);
    proof {
        lemma_keeping_twice(*old(canvas), mid, *canvas);
    }
    assert forall|c: int, rr: int|
        #[trigger] canvas.at(c, rr) == overlay(
            old(canvas).at(c, rr),
            old(canvas).contains(c, rr),
            wick_cell(
                center_col as int,
                high_half as int,
                low_half as int,
                row_top as int,
                row_bot as int,
                old(canvas).rows() as int,
                c,
                rr,
            ),
        ) by {
        assert(mid.at(c, rr) == overlay(
            old(canvas).at(c, rr),
            old(canvas).contains(c, rr),
            upper_wick_cell(center_col as int, high_half as int, row_top as int, c, rr),
        ));
    }
    (upper, lower)
}

/// Whether the vertical stroke `c` fills the upper half of its cell.
pub open spec fn fills_upper_half(c: char) -> bool {
    c == '│' || c == '╵'
}

/// Whether the vertical stroke `c` fills the lower half of its cell.
pub open spec fn fills_lower_half(c: char) -> bool {
    c == '│' || c == '╷'
}

/// A wick covers exactly the half-rows it spans, along its column: the upper
/// wick the half-rows from `high_half` down to the body's top cell
/// `row_top`, the lower wick those from below the body's bottom cell `row_bot`
/// down to `low_half`, both ends included. Cell `row` holds the half-rows
/// `2 * row` (its upper half) and `2 * row + 1` (its lower half); every wick
/// cell is painted in the wick color.
pub proof fn lemma_wicks_cover_their_half_rows(
    center_col: int,
    high_half: int,
    low_half: int,
    row_top: int,
    row_bot: int,
    col: int,
    row: int,
)
    requires
        0 <= row,
        0 <= high_half,
    ensures
        upper_wick_cell(center_col, high_half, row_top, col, row) matches Some((_, p)) ==> p == Paint::Wick,
        (upper_wick_cell(center_col, high_half, row_top, col, row) matches Some((g, _)) && fills_upper_half(g)) == (
        col == center_col && high_half <= 2 * row < 2 * row_top),
        (upper_wick_cell(center_col, high_half, row_top, col, row) matches Some((g, _)) && fills_lower_half(g)) == (
        col == center_col && high_half <= 2 * row + 1 < 2 * row_top),
        lower_wick_cell(center_col, low_half, row_bot, col, row) matches Some((_, p)) ==> p == Paint::Wick,
        (lower_wick_cell(center_col, low_half, row_bot, col, row) matches Some((g, _)) && fills_upper_half(g)) == (
        col == center_col && 2 * (row_bot + 1) <= 2 * row <= low_half),
        (lower_wick_cell(center_col, low_half, row_bot, col, row) matches Some((g, _)) && fills_lower_half(g)) == (
        col == center_col && 2 * (row_bot + 1) <= 2 * row + 1 <= low_half),
{
}

/// A wick never paints the body's own rows: the upper wick stays above
/// `row_top` and the lower wick below `row_bot`, so nothing a body draws in
/// its rows is overwritten by, or overwrites, its wick.
pub proof fn lemma_wick_avoids_the_body(
    center_col: int,
    high_half: int,
    low_half: int,
    row_top: int,
    row_bot: int,
    rows: int,
)
    ensures
        forall|c: int, r: int|
            #[trigger] wick_cell(center_col, high_half, low_half, row_top, row_bot, rows, c, r) is Some ==> c
                == center_col && (r < row_top || r > row_bot),
{
}

} // verus!

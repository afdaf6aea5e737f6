//! Sub-cell quantization shared by the rasterizers.

use vstd::prelude::*;

use crate::marker::BodyFill;

verus! {

/// One candle's geometry with every coordinate already rounded to a
/// rasterizer's own grid (whole cells, half cells, eighths or dots, as each
/// backend documents), measured from the plot's top-left corner.
#[derive(Debug, Clone, Copy, PartialEq, Eq, Structural)]
pub struct Quantized {
    /// The body's top edge, in the backend's row units.
    pub body_top: u32,
    /// The body's bottom edge, in the backend's row units.
    pub body_bottom: u32,
    /// The body's left edge, in the backend's column units.
    pub body_left: u32,
    /// The body's right edge (exclusive), in the backend's column units.
    pub body_right: u32,
    /// The column the wick runs along, in the backend's wick column units.
    pub center: u32,
    /// The high, in the backend's wick row units.
    pub high: u32,
    /// The low, in the backend's wick row units.
    pub low: u32,
    /// Whether the body is solid or an outline.
    pub fill: BodyFill,
}

/// Fixes up a body edge span already rounded to a backend's sub-cell grid.
///
/// `lo` and `hi` are the nearest sub-cells to the span's start and end, and
/// `max` the number of sub-cells the plot spans along the axis. The span is
/// kept at least one sub-cell long so a doji still shows a body, then clamped
/// into `[0, max]`, pulling the start back when the end was clamped. Returns
/// the half-open sub-cell span.
pub fn quantize_span(lo: u32, hi: u32, max: u32) -> (r: (u32, u32))
    requires
        max >= 1,
        lo < u32::MAX,
    ensures
        ({
            let h = if hi <= lo { lo + 1 } else { hi as int };
            let h = if h < max { h } else { max as int };
            let l = if lo < h - 1 { lo as int } else { h - 1 };
            r.0 == l && r.1 == h
        }),
        r.0 < r.1 <= max,
{
    let mut hi = hi;
    let mut lo = lo;
    if hi <= lo {
        hi = lo + 1;
    }
    if hi > max {
        hi = max;
    }
    if lo > hi - 1 {
        lo = hi - 1;
    }
    (lo, hi)
}

/// Whether the sub-cell `(x, y)` lies on the border of the half-open rectangle
/// `[left, right) x [top, bot)`.
pub fn on_border(x: u32, y: u32, left: u32, right: u32, top: u32, bot: u32) -> (b: bool)
    ensures
        b == (x == left || x + 1 == right || y == top || y + 1 == bot),
{
    x == left || x as u64 + 1 == right as u64 || y == top || y as u64 + 1 == bot as u64
}

} // verus!

//! Plot layout: where the plot sits inside a chart's area, which candles are
//! in view, and where labels and annotations land.

use vstd::prelude::*;

use crate::canvas::{keeps_attributes, lemma_keeping_twice, lemma_resetting_twice, overlay, Canvas, Paint};
use crate::marker::{Anchor, Direction, LineStyle};

verus! {

/// A rectangle of terminal cells: its top-left corner and its size.
#[derive(Debug, Clone, Copy, PartialEq, Eq, Structural)]
pub struct Area {
    pub x: u16,
    pub y: u16,
    pub width: u16,
    pub height: u16,
}

/// How a label sits along a line or relative to a column.
#[derive(Debug, Clone, Copy, PartialEq, Eq, Hash, Structural)]
pub enum Align {
    Left,
    Center,
    Right,
}

/// Where a label sits along its line: its alignment, how many columns of
/// line lead in from the aligned edge (`inset`), and how many blank columns
/// separate it from the line (`padding`).
#[derive(Debug, Clone, Copy, PartialEq, Eq, Structural)]
pub struct LabelPlacement {
    pub align: Align,
    pub inset: u16,
    pub padding: u16,
}

impl Default for LabelPlacement {
    /// Right-aligned, flush with the edge, with one column of padding.
    fn default() -> (p: LabelPlacement)
        ensures
            p == (LabelPlacement { align: Align::Right, inset: 0, padding: 1 }),
    {
        LabelPlacement { align: Align::Right, inset: 0, padding: 1 }
    }
}

/// The plot rectangle of a chart drawn into `area`: everything but the
/// value axis columns on the right (`axis_width` of them) and the time axis
/// row at the bottom, both reserved only when `show_axes`. `None` when no plot
/// cell remains.
pub open spec fn plot_of(area: Area, show_axes: bool, axis_width: u16) -> Option<Area> {
    let right = if show_axes { axis_width } else { 0 };
    let bottom: u16 = if show_axes { 1 } else { 0 };
    if area.width <= right || area.height <= bottom {
        None
    } else {
        Some(
            Area {
                x: area.x,
                y: area.y,
                width: (area.width - right) as u16,
                height: (area.height - bottom) as u16,
            },
        )
    }
}

/// Computes the plot rectangle of a chart drawn into `area`, reserving
/// `axis_width` columns on the right and one row at the bottom for the axes
/// when `show_axes`. Returns `None` when no plot fits.
pub fn plot_area(area: Area, show_axes: bool, axis_width: u16) -> (plot: Option<Area>)
    ensures
        plot == plot_of(area, show_axes, axis_width),
{
    let right_axis_w = if show_axes {
        axis_width
    } else {
        0
    };
    let bottom_axis_h: u16 = if show_axes {
        1
    } else {
        0
    };
    if area.width <= right_axis_w || area.height <= bottom_axis_h {
        return None;
    }
    Some(
        Area {
            x: area.x,
            y: area.y,
            width: area.width - right_axis_w,
            height: area.height - bottom_axis_h,
        },
    )
}

/// A plot is never empty and never leaves its chart's area, and it gives up
/// exactly the axis gutters: `axis_width` columns and one row when the axes
/// are shown, nothing when they are hidden.
pub proof fn lemma_plot_inside_area(area: Area, show_axes: bool, axis_width: u16)
    ensures
        plot_of(area, show_axes, axis_width) matches Some(p) ==> {
            &&& p.x == area.x && p.y == area.y
            &&& p.width >= 1 && p.height >= 1
            &&& p.width + (if show_axes { axis_width as int } else { 0 }) == area.width
            &&& p.height + (if show_axes { 1int } else { 0 }) == area.height
        },
        plot_of(area, show_axes, axis_width) is None <==> (area.width <= (if show_axes { axis_width as int } else { 0 })
            || area.height <= (if show_axes { 1int } else { 0 })),
{
}

/// Which candles of a series are in view: the leftmost visible index and how
/// many are visible.
#[derive(Debug, Clone, Copy, PartialEq, Eq, Structural)]
pub struct Window {
    pub first_visible: usize,
    pub visible: usize,
}

/// Shows the most recent of `candle_count` candles that fit in a plot with
/// room for `capacity` of them, right-aligned, so a growing series scrolls.
pub fn visible_window(candle_count: usize, capacity: usize) -> (w: Window)
    ensures
        w.visible == (if capacity < candle_count { capacity } else { candle_count }),
        w.first_visible + w.visible == candle_count,
{
    let visible = if capacity < candle_count {
        capacity
    } else {
        candle_count
    };
    Window { first_visible: candle_count - visible, visible }
}

/// The position within the view of the candle at `index` of the full series,
/// or `None` when it has scrolled out of view.
pub fn visible_index(window: Window, index: usize) -> (vi: Option<usize>)
    ensures
        vi == (if window.first_visible <= index < window.first_visible + window.visible {
            Some((index - window.first_visible) as usize)
        } else {
            None
        }),
{
    if index < window.first_visible {
        return None;
    }
    let vi = index - window.first_visible;
    if vi >= window.visible {
        None
    } else {
        Some(vi)
    }
}

/// Picks the value belonging to a period's `direction`: `up` for a period
/// that closed up, `down` for one that closed down, `flat` otherwise.
pub fn by_direction<T>(direction: Direction, up: T, down: T, flat: T) -> (r: T)
    ensures
        r == (match direction {
            Direction::Up => up,
            Direction::Down => down,
            Direction::Flat => flat,
        }),
{
    match direction {
        Direction::Up => up,
        Direction::Down => down,
        Direction::Flat => flat,
    }
}

/// `a - b`, or `0` when `b` exceeds `a`.
pub open spec fn sat(a: int, b: int) -> int {
    if a > b { a - b } else { 0 }
}

fn sat_sub(a: u16, b: u16) -> (r: u16)
    ensures
        r == sat(a as int, b as int),
{
    if a > b {
        a - b
    } else {
        0
    }
}

/// The first column a label `len` characters long may start at within a plot
/// spanning columns `[plot_x, right)`.
pub open spec fn max_start(plot_x: int, right: int, len: int) -> int {
    let s = sat(right, len);
    if s > plot_x { s } else { plot_x }
}

/// Where a label `len` characters long starts along a plot row spanning
/// `[plot_x, plot_x + plot_width)`, inset `inset` columns from its aligned edge
/// and padded by `pad` blank columns from the line on each line-bearing side.
pub open spec fn label_start(plot_x: int, plot_width: int, len: int, align: Align, inset: int, pad: int) -> int {
    let right = plot_x + plot_width;
    let top = max_start(plot_x, right, len);
    let edge_gap = if inset > 0 { pad } else { 0 };
    match align {
        Align::Left => {
            let s = plot_x + inset + edge_gap;
            if s < top { s } else { top }
        },
        Align::Right => {
            let s = sat(sat(sat(right, inset), edge_gap), len);
            if s < plot_x { plot_x } else if s > top { top } else { s }
        },
        Align::Center => {
            let s = plot_x + sat(plot_width, len) / 2;
            if s < top { s } else { top }
        },
    }
}

/// The label's start column and the span `[gap_start, gap_end)` of line it
/// breaks, before clipping to the plot.
pub open spec fn label_layout(plot_x: int, plot_width: int, len: int, align: Align, inset: int, pad: int) -> (int, int, int) {
    let right = plot_x + plot_width;
    let start = label_start(plot_x, plot_width, len, align, inset, pad);
    match align {
        Align::Left => (start, plot_x + inset, start + len + pad),
        Align::Right => (start, sat(start, pad), sat(right, inset)),
        Align::Center => (start, sat(start, pad), start + len + pad),
    }
}

/// Lays out a label `len` characters long along a plot row spanning columns
/// `[plot_x, plot_x + plot_width)`: `inset` columns of line lead in from the
/// aligned edge (ignored when centered), and `pad` blank columns separate the
/// label from the line on the inner side, and on the edge side too when
/// inset. Returns `(start, gap_start, gap_end)`: where the text starts and the
/// columns `[gap_start, gap_end)` cleared to break the line.
pub fn label_span(plot_x: u16, plot_width: u16, len: u16, align: Align, inset: u16, pad: u16) -> (r: (u16, u16, u16))
    requires
        plot_x + plot_width <= u16::MAX,
        align == Align::Left ==> plot_x + inset + (if inset > 0 { pad as int } else { 0 }) <= u16::MAX,
        align != Align::Right ==> label_start(plot_x as int, plot_width as int, len as int, align, inset as int, pad as int) + len + pad <= u16::MAX,
    ensures
        (r.0 as int, r.1 as int, r.2 as int) == label_layout(plot_x as int, plot_width as int, len as int, align, inset as int, pad as int),
{
    let right = plot_x + plot_width;
    let s = sat_sub(right, len);
    let max_start = if s > plot_x {
        s
    } else {
        plot_x
    };
    let edge_gap = if inset > 0 {
        pad
    } else {
        0
    };
    match align {
        Align::Left => {
            let s = plot_x + inset + edge_gap;
            let start = if s < max_start {
                s
            } else {
                max_start
            };
            (start, plot_x + inset, start + len + pad)
        },
        Align::Right => {
            let s = sat_sub(sat_sub(sat_sub(right, inset), edge_gap), len);
            let start = if s < plot_x {
                plot_x
            } else if s > max_start {
                max_start
            } else {
                s
            };
            (start, sat_sub(start, pad), sat_sub(right, inset))
        },
        Align::Center => {
            let s = plot_x + sat_sub(plot_width, len) / 2;
            let start = if s < max_start {
                s
            } else {
                max_start
            };
            (start, sat_sub(start, pad), start + len + pad)
        },
    }
}

/// Whether a label can be laid out without any column passing `u16::MAX`.
pub open spec fn label_fits(plot_x: int, plot_width: int, len: int, align: Align, inset: int, pad: int) -> bool {
    &&& plot_x + plot_width <= u16::MAX
    &&& align == Align::Left ==> plot_x + inset + (if inset > 0 { pad } else { 0 }) <= u16::MAX
    &&& align != Align::Right ==> label_start(plot_x, plot_width, len, align, inset, pad) + len + pad <= u16::MAX
}

/// Lays out a label as [`label_span`] does, or returns `None` when a column
/// of the layout would pass `u16::MAX`.
pub fn label_span_checked(plot_x: u16, plot_width: u16, len: u16, align: Align, inset: u16, pad: u16) -> (r: Option<(u16, u16, u16)>)
    ensures
        r is Some <==> label_fits(plot_x as int, plot_width as int, len as int, align, inset as int, pad as int),
        r matches Some(v) ==> (v.0 as int, v.1 as int, v.2 as int) == label_layout(
            plot_x as int,
            plot_width as int,
            len as int,
            align,
            inset as int,
            pad as int,
        ),
{
    let max = u16::MAX as u32;
    let right = plot_x as u32 + plot_width as u32;
    if right > max {
        return None;
    }
    let edge_gap: u32 = if inset > 0 {
        pad as u32
    } else {
        0
    };
    if align == Align::Left && plot_x as u32 + inset as u32 + edge_gap > max {
        return None;
    }
    if align != Align::Right {
        let s = sat_sub(right as u16, len);
        let top = if s > plot_x {
            s
        } else {
            plot_x
        };
        let start = match align {
            Align::Left => {
                let s = plot_x as u32 + inset as u32 + edge_gap;
                if s < top as u32 {
                    s
                } else {
                    top as u32
                }
            },
            _ => {
                let s = plot_x as u32 + sat_sub(plot_width, len) as u32 / 2;
                if s < top as u32 {
                    s
                } else {
                    top as u32
                }
            },
        };
        if start + len as u32 + pad as u32 > max {
            return None;
        }
    }
    Some(label_span(plot_x, plot_width, len, align, inset, pad))
}

/// A label's start never leaves the plot's left edge, and never runs past the
/// right edge unless the label is longer than the plot is wide.
pub proof fn lemma_label_in_plot(plot_x: int, plot_width: int, len: int, align: Align, inset: int, pad: int)
    requires
        0 <= plot_x,
        0 <= plot_width,
        0 <= len,
        0 <= inset,
        0 <= pad,
    ensures
        plot_x <= label_start(plot_x, plot_width, len, align, inset, pad),
        len <= plot_width ==> label_start(plot_x, plot_width, len, align, inset, pad) + len <= plot_x + plot_width,
{
}

/// Where a time-axis label `len` characters long starts, relative to its
/// candle's center column `cx`.
pub open spec fn axis_label_start(cx: int, len: int, align: Align) -> int {
    match align {
        Align::Left => cx,
        Align::Center => sat(cx, len / 2),
        Align::Right => sat(cx, sat(len, 1)),
    }
}

/// The greedy placement of the first `n` time-axis labels along a row
/// spanning `[plot_x, right)`: a label is drawn when it starts at or after the
/// first free column and fits before the right edge, and then the two columns
/// after it stay free. Returns each label's start (`None` when skipped) and
/// the first free column.
pub open spec fn placements(
    plot_x: int,
    right: int,
    centers: Seq<u16>,
    lens: Seq<u16>,
    align: Align,
    n: int,
) -> (Seq<Option<u16>>, int)
    decreases n,
{
    if n <= 0 {
        (Seq::empty(), plot_x)
    } else {
        let (prev, next_free) = placements(plot_x, right, centers, lens, align, n - 1);
        let start = axis_label_start(centers[n - 1] as int, lens[n - 1] as int, align);
        if start >= next_free && start + lens[n - 1] <= right {
            (prev.push(Some(start as u16)), start + lens[n - 1] + 2)
        } else {
            (prev.push(None), next_free)
        }
    }
}

/// Whether placing the first `n` time-axis labels runs a column past
/// `u16::MAX`: a label that could be drawn ends past it, or the two free
/// columns after a drawn label do.
pub open spec fn placement_overflows(
    plot_x: int,
    right: int,
    centers: Seq<u16>,
    lens: Seq<u16>,
    align: Align,
    n: int,
) -> bool
    decreases n,
{
    if n <= 0 {
        false
    } else {
        let next_free = placements(plot_x, right, centers, lens, align, n - 1).1;
        let start = axis_label_start(centers[n - 1] as int, lens[n - 1] as int, align);
        let end = start + lens[n - 1];
        placement_overflows(plot_x, right, centers, lens, align, n - 1) || (start >= next_free && (end > u16::MAX
            || (end <= right && end + 2 > u16::MAX)))
    }
}

proof fn lemma_no_overflow_prefix(
    plot_x: int,
    right: int,
    centers: Seq<u16>,
    lens: Seq<u16>,
    align: Align,
    m: int,
    n: int,
)
    requires
        m <= n,
        !placement_overflows(plot_x, right, centers, lens, align, n),
    ensures
        !placement_overflows(plot_x, right, centers, lens, align, m),
    decreases n - m,
{
    if m < n {
        lemma_no_overflow_prefix(plot_x, right, centers, lens, align, m, n - 1);
    }
}

fn label_start_at(cx: u16, len: u16, align: Align) -> (start: u16)
    ensures
        start == axis_label_start(cx as int, len as int, align),
{
    match align {
        Align::Left => cx,
        Align::Center => sat_sub(cx, len / 2),
        Align::Right => sat_sub(cx, sat_sub(len, 1)),
    }
}

/// Places time-axis labels along a row spanning `[plot_x, plot_x +
/// plot_width)`. Label `i` is `lens[i]` characters long and aligned to the
/// center column `centers[i]`; a label that would collide with the previous
/// one drawn, or run past the right edge, is skipped. Returns each label's
/// start column, or `None` for a skipped label.
pub fn place_time_labels(plot_x: u16, plot_width: u16, centers: &[u16], lens: &[u16], align: Align) -> (starts: Vec<Option<u16>>)
    requires
        centers@.len() == lens@.len(),
        plot_x + plot_width <= u16::MAX,
        !placement_overflows(plot_x as int, plot_x + plot_width, centers@, lens@, align, centers@.len() as int),
    ensures
        starts@ == placements(plot_x as int, plot_x + plot_width, centers@, lens@, align, centers@.len() as int).0,
{
    let right = plot_x + plot_width;
    let mut next_free: u16 = plot_x;
    let mut starts: Vec<Option<u16>> = Vec::new();
    let mut i: usize = 0;
    while i < centers.len()
        invariant
            centers@.len() == lens@.len(),
            right == plot_x + plot_width,
            0 <= i <= centers@.len(),
            !placement_overflows(plot_x as int, right as int, centers@, lens@, align, centers@.len() as int),
            (starts@, next_free as int) == placements(plot_x as int, right as int, centers@, lens@, align, i as int),
        decreases centers@.len() - i,
    {
        proof {
            lemma_no_overflow_prefix(plot_x as int, right as int, centers@, lens@, align, i + 1, centers@.len() as int);
        }
        let len = lens[i];
        let start = label_start_at(centers[i], len, align);
        if start >= next_free && start + len <= right {
            starts.push(Some(start));
            next_free = start + len + 2;
        } else {
            starts.push(None);
        }
        i = i + 1;
    }
    starts
}

/// Places time-axis labels as [`place_time_labels`] does, or returns `None`
/// when doing so would run a column past `u16::MAX`.
pub fn place_time_labels_checked(
    plot_x: u16,
    plot_width: u16,
    centers: &[u16],
    lens: &[u16],
    align: Align,
) -> (starts: Option<Vec<Option<u16>>>)
    requires
        centers@.len() == lens@.len(),
    ensures
        starts is Some <==> plot_x + plot_width <= u16::MAX && !placement_overflows(
            plot_x as int,
            plot_x + plot_width,
            centers@,
            lens@,
            align,
            centers@.len() as int,
        ),
        starts matches Some(v) ==> v@ == placements(
            plot_x as int,
            plot_x + plot_width,
            centers@,
            lens@,
            align,
            centers@.len() as int,
        ).0,
{
    let right: u32 = plot_x as u32 + plot_width as u32;
    if right > u16::MAX as u32 {
        return None;
    }
    let mut next_free: u32 = plot_x as u32;
    let mut i: usize = 0;
    while i < centers.len()
        invariant
            centers@.len() == lens@.len(),
            right == plot_x + plot_width,
            right <= u16::MAX,
            0 <= i <= centers@.len(),
            !placement_overflows(plot_x as int, right as int, centers@, lens@, align, i as int),
            next_free as int == placements(plot_x as int, right as int, centers@, lens@, align, i as int).1,
            next_free <= u16::MAX + 2,
        decreases centers@.len() - i,
    {
        let len = lens[i] as u32;
        let start = label_start_at(centers[i], lens[i], align) as u32;
        if start >= next_free {
            if start + len > u16::MAX as u32 || (start + len <= right && start + len + 2 > u16::MAX as u32) {
                proof {
                    lemma_overflow_persists(plot_x as int, right as int, centers@, lens@, align, i + 1, centers@.len() as int);
                }
                return None;
            }
            if start + len <= right {
                next_free = start + len + 2;
            }
        }
        i = i + 1;
    }
    Some(place_time_labels(plot_x, plot_width, centers, lens, align))
}

proof fn lemma_overflow_persists(
    plot_x: int,
    right: int,
    centers: Seq<u16>,
    lens: Seq<u16>,
    align: Align,
    m: int,
    n: int,
)
    requires
        m <= n,
        placement_overflows(plot_x, right, centers, lens, align, m),
    ensures
        placement_overflows(plot_x, right, centers, lens, align, n),
{
    if placement_overflows(plot_x, right, centers, lens, align, m) && !placement_overflows(plot_x, right, centers, lens, align, n) {
        lemma_no_overflow_prefix(plot_x, right, centers, lens, align, m, n);
    }
}

/// The first free column after the first `n` placements never falls behind
/// the plot's left edge, and every label placed so far ends at least two
/// columns before it.
proof fn lemma_placements_free(
    plot_x: int,
    right: int,
    centers: Seq<u16>,
    lens: Seq<u16>,
    align: Align,
    n: int,
)
    requires
        0 <= n <= centers.len(),
        centers.len() == lens.len(),
    ensures
        placements(plot_x, right, centers, lens, align, n).0.len() == if n > 0 { n } else { 0 },
        placements(plot_x, right, centers, lens, align, n).1 >= plot_x,
        forall|i: int|
            0 <= i < n && #[trigger] placements(plot_x, right, centers, lens, align, n).0[i] is Some ==> {
                let s = placements(plot_x, right, centers, lens, align, n).0[i].unwrap() as int;
                &&& plot_x <= s
                &&& s + lens[i] <= right
                &&& s + lens[i] + 2 <= placements(plot_x, right, centers, lens, align, n).1
            },
    decreases n,
{
    if n > 0 {
        lemma_placements_free(plot_x, right, centers, lens, align, n - 1);
        let (prev, nf) = placements(plot_x, right, centers, lens, align, n - 1);
        let (cur, _) = placements(plot_x, right, centers, lens, align, n);
        assert forall|i: int| 0 <= i < n - 1 implies #[trigger] cur[i] == prev[i] by {}
    }
}

/// Time-axis labels never collide: every label drawn lies inside the plot, and
/// a later label starts at least two columns after an earlier one ends.
pub proof fn lemma_time_labels_apart(
    plot_x: int,
    right: int,
    centers: Seq<u16>,
    lens: Seq<u16>,
    align: Align,
)
    requires
        centers.len() == lens.len(),
    ensures
        ({
            let starts = placements(plot_x, right, centers, lens, align, centers.len() as int).0;
            &&& starts.len() == centers.len()
            &&& forall|i: int|
                0 <= i < starts.len() && #[trigger] starts[i] is Some ==> plot_x <= starts[i].unwrap() && starts[i].unwrap()
                    + lens[i] <= right
            &&& forall|i: int, j: int|
                0 <= i < j < starts.len() && #[trigger] starts[i] is Some && #[trigger] starts[j] is Some
                    ==> starts[i].unwrap() + lens[i] + 2 <= starts[j].unwrap()
        }),
{
    let n = centers.len() as int;
    lemma_placements_free(plot_x, right, centers, lens, align, n);
    assert forall|i: int, j: int|
        0 <= i < j < n && #[trigger] placements(plot_x, right, centers, lens, align, n).0[i] is Some
            && #[trigger] placements(plot_x, right, centers, lens, align, n).0[j] is Some implies placements(
        plot_x,
        right,
        centers,
        lens,
        align,
        n,
    ).0[i].unwrap() + lens[i] + 2 <= placements(plot_x, right, centers, lens, align, n).0[j].unwrap() by {
        lemma_prefix_stable(plot_x, right, centers, lens, align, j + 1, n);
        lemma_placements_free(plot_x, right, centers, lens, align, j);
        lemma_prefix_stable(plot_x, right, centers, lens, align, j, n);
    }
}

/// Placing more labels does not move the ones already placed.
proof fn lemma_prefix_stable(
    plot_x: int,
    right: int,
    centers: Seq<u16>,
    lens: Seq<u16>,
    align: Align,
    m: int,
    n: int,
)
    requires
        0 <= m <= n <= centers.len(),
        centers.len() == lens.len(),
    ensures
        forall|i: int|
            0 <= i < m ==> #[trigger] placements(plot_x, right, centers, lens, align, n).0[i] == placements(
                plot_x,
                right,
                centers,
                lens,
                align,
                m,
            ).0[i],
    decreases n - m,
{
    if m < n {
        lemma_prefix_stable(plot_x, right, centers, lens, align, m, n - 1);
        lemma_placements_free(plot_x, right, centers, lens, align, n - 1);
    }
}

/// What writing `text` from the cell `(col, row)` rightward paints at
/// `(c, r)`, one character per cell.
pub open spec fn text_cell(text: Seq<char>, col: int, row: int, paint: Paint, c: int, r: int) -> Option<(char, Paint)> {
    if r == row && col <= c < col + text.len() {
        Some((text[c - col], paint))
    } else {
        None
    }
}

/// Writes `text` starting at the plot-relative cell `(col, row)`, one cell
/// per character, skipping any that fall outside the plot. Coordinates are
/// signed so text anchored near an edge clips cleanly.
pub fn put_text(canvas: &mut Canvas, col: i32, row: i32, text: &[char], paint: Paint)
    requires
        text@.len() <= i32::MAX,
        col + text@.len() <= i32::MAX + 1,
    ensures
        keeps_attributes(paint) ==> old(canvas).adds_keeping(*final(canvas)),
        !keeps_attributes(paint) ==> old(canvas).adds_resetting(*final(canvas)),
        final(canvas).cols() == old(canvas).cols(),
        final(canvas).rows() == old(canvas).rows(),
        forall|c: int, r: int|
            #[trigger] final(canvas).at(c, r) == overlay(
                old(canvas).at(c, r),
                old(canvas).contains(c, r),
                text_cell(text@, col as int, row as int, paint, c, r),
            ),
{
    if row < 0 || row >= canvas.height() as i32 {
        return;
    }
    let mut i: usize = 0;
    while i < text.len()
        invariant
            0 <= i <= text@.len(),
            text@.len() <= i32::MAX,
            col + text@.len() <= i32::MAX + 1,
            0 <= row < canvas.rows(),
            canvas.cols() == old(canvas).cols(),
            canvas.rows() == old(canvas).rows(),
            keeps_attributes(paint) ==> old(canvas).adds_keeping(*canvas),
            !keeps_attributes(paint) ==> old(canvas).adds_resetting(*canvas),
            forall|c: int, r: int|
                #[trigger] canvas.at(c, r) == overlay(
                    old(canvas).at(c, r),
                    old(canvas).contains(c, r),
                    if c < col + i {
                        text_cell(text@, col as int, row as int, paint, c, r)
                    } else {
                        None
                    },
                ),
        decreases text@.len() - i,
    {
        let c = col + i as i32;
        if c >= 0 && c < canvas.width() as i32 {
            let ghost prev = *canvas;
            canvas.put(c as u32, row as u32, text[i], paint);
            proof {
                if keeps_attributes(paint) {
                    lemma_keeping_twice(*old(canvas), prev, *canvas);
                } else {
                    lemma_resetting_twice(*old(canvas), prev, *canvas);
                }
            }
        }
        i = i + 1;
    }
}

/// The decimal digit character for `d` (`0` to `9`).
pub open spec fn digit_char(d: int) -> char {
    if d == 0 { '0' } else if d == 1 { '1' } else if d == 2 { '2' } else if d == 3 { '3' } else if d == 4 {
        '4'
    } else if d == 5 { '5' } else if d == 6 { '6' } else if d == 7 { '7' } else if d == 8 { '8' } else { '9' }
}

/// The decimal digits of `n`, most significant first, with no leading zero.
pub open spec fn decimal(n: nat) -> Seq<char>
    decreases n,
{
    if n < 10 {
        seq![digit_char(n as int)]
    } else {
        decimal(n / 10).push(digit_char((n % 10) as int))
    }
}

fn digit(d: usize) -> (c: char)
    requires
        d < 10,
    ensures
        c == digit_char(d as int),
{
    if d == 0 { '0' } else if d == 1 { '1' } else if d == 2 { '2' } else if d == 3 { '3' } else if d == 4 {
        '4'
    } else if d == 5 { '5' } else if d == 6 { '6' } else if d == 7 { '7' } else if d == 8 { '8' } else { '9' }
}

/// Appends the decimal digits of `n` to `out`.
fn push_decimal(out: &mut Vec<char>, n: usize)
    ensures
        final(out)@ == old(out)@ + decimal(n as nat),
    decreases n,
{
    if n >= 10 {
        push_decimal(out, n / 10);
    }
    out.push(digit(n % 10));
    proof {
        if n >= 10 {
            assert(old(out)@ + decimal(n as nat) =~= (old(out)@ + decimal((n / 10) as nat)).push(digit_char((n % 10) as int)));
        } else {
            assert(old(out)@ + decimal(n as nat) =~= old(out)@.push(digit_char(n as int)));
        }
    }
}

/// The text of the time-axis label for the candle at `index` of the whole
/// series: the caller's label for it when `labels` holds one, otherwise the
/// index itself in decimal.
pub fn time_label(labels: Option<&[Vec<char>]>, index: usize) -> (label: Vec<char>)
    ensures
        (labels is Some && index < labels->0@.len()) ==> label@ == labels->0@[index as int]@,
        !(labels is Some && index < labels->0@.len()) ==> label@ == decimal(index as nat),
{
    let mut out: Vec<char> = Vec::new();
    match labels {
        Some(all) if index < all.len() => {
            let text = &all[index];
            let mut i: usize = 0;
            while i < text.len()
                invariant
                    0 <= i <= text@.len(),
                    out@ == text@.subrange(0, i as int),
                decreases text@.len() - i,
            {
                out.push(text[i]);
                i = i + 1;
                assert(out@ =~= text@.subrange(0, i as int));
            }
            assert(out@ =~= text@);
        },
        _ => {
            push_decimal(&mut out, index);
            assert(out@ =~= decimal(index as nat));
        },
    }
    out
}

/// The rows an annotation at `value_row` puts its symbol and its label on:
/// the symbol one row toward its anchor direction (on the point itself for
/// [`Anchor::On`]), and the label one row further out beyond the symbol
/// (above it for [`Anchor::On`]), or in the symbol's place when there is no
/// symbol.
pub open spec fn annotation_rows(anchor: Anchor, value_row: int, has_symbol: bool) -> (int, int) {
    let dir = match anchor {
        Anchor::Above => -1int,
        Anchor::Below => 1,
        Anchor::On => 0,
    };
    let label_dir = match anchor {
        Anchor::Above | Anchor::On => -1int,
        Anchor::Below => 1,
    };
    let symbol_row = value_row + dir;
    (symbol_row, if has_symbol { symbol_row + label_dir } else { symbol_row })
}

/// What an annotation paints at `(c, r)`: its symbol and its label, each
/// centered on the center column, the label drawn last.
pub open spec fn annotation_cell(
    center_col: int,
    value_row: int,
    anchor: Anchor,
    symbol: Option<Seq<char>>,
    label: Option<Seq<char>>,
    c: int,
    r: int,
) -> Option<(char, Paint)> {
    let (symbol_row, label_row) = annotation_rows(anchor, value_row, symbol is Some);
    let from_label = match label {
        Some(t) => text_cell(t, center_col - t.len() / 2, label_row, Paint::Text, c, r),
        None => None,
    };
    let from_symbol = match symbol {
        Some(t) => text_cell(t, center_col - t.len() / 2, symbol_row, Paint::Text, c, r),
        None => None,
    };
    if from_label is Some { from_label } else { from_symbol }
}

/// An annotation's symbol sits one row above its point when anchored above,
/// on it when anchored on it, and one row below when anchored below; its label
/// is stacked one row further out: above the symbol for an annotation above or
/// on its point, below it for one below. Without a symbol the label takes the
/// symbol's row. Symbol and label are each centered on the center column.
pub proof fn lemma_annotation_stacks(
    center_col: int,
    value_row: int,
    anchor: Anchor,
    symbol: Seq<char>,
    label: Seq<char>,
    k: int,
)
    ensures
        ({
            let symbol_row = match anchor {
                Anchor::Above => value_row - 1,
                Anchor::On => value_row,
                Anchor::Below => value_row + 1,
            };
            let label_row = match anchor {
                Anchor::Above => value_row - 2,
                Anchor::On => value_row - 1,
                Anchor::Below => value_row + 2,
            };
            &&& 0 <= k < symbol.len() ==> annotation_cell(
                center_col,
                value_row,
                anchor,
                Some(symbol),
                Some(label),
                center_col - symbol.len() / 2 + k,
                symbol_row,
            ) == Some((symbol[k], Paint::Text))
            &&& 0 <= k < label.len() ==> annotation_cell(
                center_col,
                value_row,
                anchor,
                Some(symbol),
                Some(label),
                center_col - label.len() / 2 + k,
                label_row,
            ) == Some((label[k], Paint::Text))
            &&& 0 <= k < label.len() ==> annotation_cell(
                center_col,
                value_row,
                anchor,
                None,
                Some(label),
                center_col - label.len() / 2 + k,
                symbol_row,
            ) == Some((label[k], Paint::Text))
        }),
{
}

/// Draws a point annotation: its symbol centered on the plot-relative column
/// `center_col` on the row next to `value_row` in the anchor's direction, and
/// its label centered on that column too, stacked beyond the symbol.
pub fn draw_annotation(
    canvas: &mut Canvas,
    center_col: u16,
    value_row: u16,
    anchor: Anchor,
    symbol: Option<&[char]>,
    label: Option<&[char]>,
)
    requires
        symbol matches Some(t) ==> t@.len() <= i32::MAX && center_col - t@.len() / 2 + t@.len() <= i32::MAX + 1,
        label matches Some(t) ==> t@.len() <= i32::MAX && center_col - t@.len() / 2 + t@.len() <= i32::MAX + 1,
    ensures
        old(canvas).adds_resetting(*final(canvas)),
        final(canvas).cols() == old(canvas).cols(),
        final(canvas).rows() == old(canvas).rows(),
        forall|c: int, r: int|
            #[trigger] final(canvas).at(c, r) == overlay(
                old(canvas).at(c, r),
                old(canvas).contains(c, r),
                annotation_cell(
                    center_col as int,
                    value_row as int,
                    anchor,
                    match symbol {
                        Some(t) => Some(t@),
                        None => None,
                    },
                    match label {
                        Some(t) => Some(t@),
                        None => None,
                    },
                    c,
                    r,
                ),
            ),
{
    let col = center_col as i32;
    let row = value_row as i32;
    let dir: i32 = match anchor {
        Anchor::Above => -1,
        Anchor::Below => 1,
        Anchor::On => 0,
    };
    let label_dir: i32 = match anchor {
        Anchor::Above | Anchor::On => -1,
        Anchor::Below => 1,
    };
    let symbol_row = row + dir;
    let label_row = if symbol.is_some() {
        symbol_row + label_dir
    } else {
        symbol_row
    };
    let ghost start = *canvas;
    if let Some(symbol) = symbol {
        let len = symbol.len() as i32;
        let symbol_col = col - len / 2;
        put_text(canvas, symbol_col, symbol_row, symbol, Paint::Text);
    }
    let ghost mid = *canvas;
    if let Some(label) = label {
        let len = label.len() as i32;
        let label_col = col - len / 2;
        put_text(canvas, label_col, label_row, label, Paint::Text);
    }
    proof {
        lemma_resetting_twice(start, mid, *canvas);
    }
}

/// Draws a horizontal value line across the whole plot at `row`, in the
/// glyph of its line `style`.
pub fn draw_rule(canvas: &mut Canvas, row: u16, style: LineStyle)
    ensures
        old(canvas).adds_resetting(*final(canvas)),
        final(canvas).cols() == old(canvas).cols(),
        final(canvas).rows() == old(canvas).rows(),
        forall|c: int, r: int|
            #[trigger] final(canvas).at(c, r) == overlay(
                old(canvas).at(c, r),
                old(canvas).contains(c, r),
                if r == row {
                    Some((if style == LineStyle::Solid { '─' } else { '╌' }, Paint::Rule))
                } else {
                    None
                },
            ),
{
    let glyph = style.glyph();
    let width = canvas.width();
    let mut col: u16 = 0;
    while col < width
        invariant
            width == canvas.cols(),
            glyph == (if style == LineStyle::Solid { '─' } else { '╌' }),
            canvas.cols() == old(canvas).cols(),
            canvas.rows() == old(canvas).rows(),
            old(canvas).adds_resetting(*canvas),
            forall|c: int, r: int|
                #[trigger] canvas.at(c, r) == overlay(
                    old(canvas).at(c, r),
                    old(canvas).contains(c, r),
                    if r == row && c < col {
                        Some((glyph, Paint::Rule))
                    } else {
                        None
                    },
                ),
        decreases width - col,
    {
        let ghost prev = *canvas;
        canvas.put(col as u32, row as u32, glyph, Paint::Rule);
        proof { lemma_resetting_twice(*old(canvas), prev, *canvas); }
        col = col + 1;
    }
}

/// What breaking a line around a label paints at the plot-relative cell
/// `(c, r)`: a blank on `row` over the label's gap `[gap_start, gap_end)`,
/// given in absolute columns, clipped to the plot starting at `plot_x`.
pub open spec fn gap_cell(plot_x: int, row: int, gap_start: int, gap_end: int, c: int, r: int) -> Option<(char, Paint)> {
    if r == row && gap_start <= plot_x + c < gap_end && c >= 0 {
        Some((' ', Paint::Gap))
    } else {
        None
    }
}

/// Breaks the line along `row` of a plot whose left edge is the absolute
/// column `plot_x` around a label `len` characters long, laid out as
/// [`label_span`] lays it out: the label's gap is cleared to blanks within the
/// plot. Returns the absolute column the label text starts at.
pub fn break_rule(canvas: &mut Canvas, plot_x: u16, row: u16, len: u16, align: Align, inset: u16, pad: u16) -> (start: u16)
    requires
        label_fits(plot_x as int, old(canvas).cols() as int, len as int, align, inset as int, pad as int),
    ensures
        old(canvas).adds_resetting(*final(canvas)),
        start as int == label_layout(plot_x as int, old(canvas).cols() as int, len as int, align, inset as int, pad as int).0,
        final(canvas).cols() == old(canvas).cols(),
        final(canvas).rows() == old(canvas).rows(),
        forall|c: int, r: int|
            #[trigger] final(canvas).at(c, r) == overlay(
                old(canvas).at(c, r),
                old(canvas).contains(c, r),
                ({
                    let (_, gs, ge) = label_layout(
                        plot_x as int,
                        old(canvas).cols() as int,
                        len as int,
                        align,
                        inset as int,
                        pad as int,
                    );
                    gap_cell(plot_x as int, row as int, gs, ge, c, r)
                }),
            ),
{
    let width = canvas.width();
    let (start, gap_start, gap_end) = label_span(plot_x, width, len, align, inset, pad);
    let right = plot_x + width;
    let first = if gap_start > plot_x {
        gap_start
    } else {
        plot_x
    };
    let last = if gap_end < right {
        gap_end
    } else {
        right
    };
    let mut cx = first;
    while cx < last
        invariant
            plot_x <= first <= cx,
            cx <= last || first >= last,
            last <= right,
            right == plot_x + canvas.cols(),
            first == (if gap_start > plot_x { gap_start } else { plot_x }),
            last == (if gap_end < right { gap_end } else { right }),
            canvas.cols() == old(canvas).cols(),
            canvas.rows() == old(canvas).rows(),
            old(canvas).adds_resetting(*canvas),
            forall|c: int, r: int|
                #[trigger] canvas.at(c, r) == overlay(
                    old(canvas).at(c, r),
                    old(canvas).contains(c, r),
                    if plot_x + c < cx {
                        gap_cell(plot_x as int, row as int, gap_start as int, gap_end as int, c, r)
                    } else {
                        None
                    },
                ),
        decreases last - cx,
    {
        let ghost prev = *canvas;
        canvas.put((cx - plot_x) as u32, row as u32, ' ', Paint::Gap);
        proof { lemma_resetting_twice(*old(canvas), prev, *canvas); }
        cx = cx + 1;
    }
    start
}

} // verus!

//! The small enumerations a chart is configured with.

use vstd::prelude::*;

verus! {

/// The glyph family a chart rasterizes candles with.
#[derive(Debug, Clone, Copy, PartialEq, Eq, Hash, Structural)]
#[non_exhaustive]
pub enum Marker {
    /// Eighth-block glyphs: bodies to an eighth of a row, full-width bars.
    Block,
    /// Braille dots, a 2x4 grid per cell, one color per cell.
    Braille,
    /// Quadrant and half-block glyphs, a 2x2 grid per cell.
    Quadrant,
    /// Box-drawing glyphs: hollow bodies traced as outlines.
    BoxDrawing,
}

impl Marker {
    /// The glyph family that draws a connected line for this marker: braille
    /// draws its own lines, every other family falls back to quadrants.
    pub fn line_rasterizer(self) -> (m: Marker)
        ensures
            m == (if self == Marker::Braille {
                Marker::Braille
            } else {
                Marker::Quadrant
            }),
    {
        match self {
            Marker::Braille => Marker::Braille,
            Marker::Quadrant | Marker::Block | Marker::BoxDrawing => Marker::Quadrant,
        }
    }
}

impl Default for Marker {
    fn default() -> (m: Marker)
        ensures
            m == Marker::Block,
    {
        Marker::Block
    }
}

/// Which way a period closed: up, down, or unchanged.
#[derive(Debug, Clone, Copy, PartialEq, Eq, Hash, Structural)]
pub enum Direction {
    /// Closed above the open.
    Up,
    /// Closed below the open.
    Down,
    /// Closed level with the open.
    Flat,
}

impl Default for Direction {
    fn default() -> (d: Direction)
        ensures
            d == Direction::Flat,
    {
        Direction::Flat
    }
}

/// Whether a candle body is drawn solid or as an outline.
#[derive(Debug, Clone, Copy, PartialEq, Eq, Hash, Structural)]
pub enum BodyFill {
    /// A solid body.
    Filled,
    /// An outlined body with an empty interior.
    Hollow,
}

impl Default for BodyFill {
    fn default() -> (f: BodyFill)
        ensures
            f == BodyFill::Filled,
    {
        BodyFill::Filled
    }
}

/// Whether a horizontal value line is drawn solid or dashed.
#[derive(Debug, Clone, Copy, PartialEq, Eq, Hash, Structural)]
pub enum LineStyle {
    /// A continuous line (`─`).
    Solid,
    /// A broken line (`╌`).
    Dashed,
}

impl LineStyle {
    /// The glyph the line is drawn with.
    pub fn glyph(self) -> (c: char)
        ensures
            c == (if self == LineStyle::Solid {
                '─'
            } else {
                '╌'
            }),
    {
        match self {
            LineStyle::Solid => '─',
            LineStyle::Dashed => '╌',
        }
    }
}

impl Default for LineStyle {
    fn default() -> (s: LineStyle)
        ensures
            s == LineStyle::Solid,
    {
        LineStyle::Solid
    }
}

/// Where a point annotation sits relative to its anchor point.
#[derive(Debug, Clone, Copy, PartialEq, Eq, Hash, Structural)]
#[non_exhaustive]
pub enum Anchor {
    /// Above the point, growing upward.
    Above,
    /// Below the point, growing downward.
    Below,
    /// On the point, with any label stacked just above it.
    On,
}

impl Default for Anchor {
    fn default() -> (a: Anchor)
        ensures
            a == Anchor::On,
    {
        Anchor::On
    }
}

} // verus!

//! Financial charting glyph geometry: the integer core of a candlestick,
//! volume and line chart renderer for terminal cell grids.
//!
//! Every drawing routine here writes into a [`Canvas`], a plain record of
//! which glyph lands on which plot-relative cell and how it is painted. A
//! front end rounds its fractional chart geometry onto each backend's grid,
//! calls these routines, and replays the canvas onto a terminal buffer.
//!
//! - [`block`]: eighth-block candles, bodies to an eighth of a row.
//! - [`quadrant`]: 2x2 quadrant-block candles.
//! - [`braille`]: 2x4 braille-dot candles.
//! - [`box_drawing`]: box-drawing outlines, tees and flat doji lines.
//! - [`wick`]: the wicks the block, quadrant and box-drawing candles share.
//! - [`line`]: Bresenham polylines folded into braille or quadrant glyphs.
//! - [`layout`]: plot areas, the visible window, label and annotation
//!   placement, and value lines.
pub mod block;
pub mod box_drawing;
pub mod braille;
pub mod canvas;
pub mod layout;
pub mod line;
pub mod marker;
pub mod quadrant;
pub mod render;
pub mod wick;

pub use box_drawing::Footprint;
pub use canvas::{Canvas, Mark, Paint};
pub use layout::{Align, Area, LabelPlacement, Window};
pub use line::draw_segment;
pub use marker::{Anchor, BodyFill, Direction, LineStyle, Marker};
pub use render::{on_border, quantize_span, Quantized};

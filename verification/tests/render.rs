//! Sub-cell quantization and the border test shared by the rasterizers.

use chandelier::{on_border, quantize_span};

/// Rounds a fractional span to a grid of `scale` sub-cells per cell, then
/// fixes it up into a plot `max` sub-cells long.
fn quantize(start: f64, end: f64, scale: u32, max: u32) -> (u32, u32) {
    let s = f64::from(scale);
    quantize_span((start * s).round() as u32, (end * s).round() as u32, max)
}

#[test]
fn quantize_span_rounds_each_end_to_the_nearest_sub_cell() {
    // 0.1 .. 0.6 row at 8 sub-cells per row rounds to eighths 1 .. 5.
    assert_eq!(quantize(0.1, 0.6, 8, 8), (1, 5));
}

#[test]
fn quantize_span_keeps_a_doji_at_least_one_sub_cell_tall() {
    // A zero-height body still spans one sub-cell.
    assert_eq!(quantize(0.5, 0.5, 4, 8), (2, 3));
}

#[test]
fn quantize_span_clamps_into_the_plot_and_pulls_the_start_back() {
    // The end rounds past `max`, so it clamps and the start follows it in to
    // keep the span one sub-cell long inside the plot.
    assert_eq!(quantize(1.0, 1.2, 4, 4), (3, 4));
}

#[test]
fn quantize_span_keeps_an_inverted_span_one_sub_cell_long() {
    assert_eq!(quantize_span(6, 2, 16), (6, 7));
    assert_eq!(quantize_span(20, 2, 16), (15, 16));
}

#[test]
fn on_border_is_true_on_each_edge_and_false_inside() {
    // A 3x3 sub-cell rectangle [0, 3) x [0, 3): the center is the only
    // interior sub-cell.
    assert!(on_border(0, 1, 0, 3, 0, 3));
    assert!(on_border(2, 1, 0, 3, 0, 3));
    assert!(on_border(1, 0, 0, 3, 0, 3));
    assert!(on_border(1, 2, 0, 3, 0, 3));
    assert!(!on_border(1, 1, 0, 3, 0, 3));
}

#[test]
fn on_border_does_not_wrap_at_the_top_of_the_range() {
    assert!(!on_border(u32::MAX, 5, 0, 0, 0, 10));
    assert!(on_border(u32::MAX - 1, 5, 0, u32::MAX, 0, 10));
}

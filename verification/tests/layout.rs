//! Plot layout, the visible window, and where labels and annotations land.

use chandelier::layout::{
    break_rule, by_direction, draw_annotation, draw_rule, label_span, label_span_checked,
    place_time_labels, place_time_labels_checked, plot_area, put_text, time_label, visible_index,
    visible_window,
};
use chandelier::{Align, Anchor, Area, Canvas, Direction, LabelPlacement, LineStyle, Paint, Window};
use ratatui_core::style::Color;

fn at(canvas: &Canvas, col: u16, row: u16) -> Option<(char, Paint)> {
    canvas
        .marks()
        .iter()
        .rev()
        .find(|m| m.col == col && m.row == row)
        .map(|m| (m.glyph, m.paint))
}

fn grid(canvas: &Canvas) -> Vec<String> {
    (0..canvas.height())
        .map(|y| (0..canvas.width()).map(|x| at(canvas, x, y).map_or(' ', |(g, _)| g)).collect())
        .collect()
}

#[test]
fn layout_is_none_when_no_plot_fits() {
    // The area is no wider than the value axis gutter, so no plot remains.
    assert_eq!(plot_area(Area { x: 0, y: 0, width: 8, height: 20 }, true, 8), None);
}

#[test]
fn the_plot_leaves_room_for_the_axes() {
    let area = Area { x: 2, y: 3, width: 40, height: 20 };
    assert_eq!(plot_area(area, true, 8), Some(Area { x: 2, y: 3, width: 32, height: 19 }));
    assert_eq!(plot_area(area, false, 8), Some(area));
    assert_eq!(plot_area(Area { height: 1, ..area }, true, 8), None);
}

#[test]
fn shows_most_recent_candles_when_space_is_tight() {
    // Room for only a few candles out of many: the latest are kept. Twelve
    // columns of three-wide candles with one-column gaps fit three.
    let capacity = ((f64::from(12u16) + 1.0) / (3.0 + 1.0)).floor() as usize;
    let window = visible_window(100, capacity);
    assert!(window.visible < 100);
    assert_eq!(window.first_visible + window.visible, 100);
}

#[test]
fn a_short_series_is_fully_visible() {
    assert_eq!(visible_window(5, 10), Window { first_visible: 0, visible: 5 });
}

#[test]
fn scrolled_out_indices_are_skipped() {
    let window = visible_window(10, 4);
    assert_eq!(window, Window { first_visible: 6, visible: 4 });
    assert_eq!(visible_index(window, 5), None);
    assert_eq!(visible_index(window, 6), Some(0));
    assert_eq!(visible_index(window, 9), Some(3));
    assert_eq!(visible_index(window, 10), None);
}

#[test]
fn bar_colors_follow_direction() {
    assert_eq!(by_direction(Direction::Up, "green", "red", "gray"), "green");
    assert_eq!(by_direction(Direction::Down, "green", "red", "gray"), "red");
    assert_eq!(by_direction(Direction::Flat, "green", "red", "gray"), "gray");
    assert_eq!(Direction::default(), Direction::Flat);
}

#[test]
fn volume_bar_color_follows_direction() {
    let pick = |d| by_direction(d, Color::Green, Color::Red, Color::Blue);
    assert_eq!(pick(Direction::Up), Color::Green);
    assert_eq!(pick(Direction::Down), Color::Red);
    assert_eq!(pick(Direction::Flat), Color::Blue);
}

#[test]
fn volume_without_a_direction_uses_the_single_color() {
    // A volume made without a direction carries the default one.
    assert_eq!(by_direction(Direction::default(), Color::Green, Color::Reset, Color::Blue), Color::Blue);
}

#[test]
fn label_is_right_aligned_by_default_and_flush() {
    // A 16-column plot: "LAST" ends at the right edge, one blank before it.
    assert_eq!(label_span(0, 16, 4, Align::Right, 0, 1), (12, 11, 16));
}

#[test]
fn left_label_starts_at_the_left_edge() {
    assert_eq!(label_span(0, 16, 4, Align::Left, 0, 1), (0, 0, 5));
}

#[test]
fn centered_label_span_is_padded_on_both_sides() {
    assert_eq!(label_span(0, 16, 4, Align::Center, 0, 2), (6, 4, 12));
}

#[test]
fn inset_label_span_leaves_line_before_the_gap() {
    // Two columns of line, a one-column gap, then the label.
    assert_eq!(label_span(0, 16, 3, Align::Left, 2, 1), (3, 2, 7));
    assert_eq!(label_span(0, 16, 3, Align::Right, 2, 1), (10, 9, 14));
}

#[test]
fn a_label_wider_than_the_plot_starts_at_its_left_edge() {
    assert_eq!(label_span(5, 4, 10, Align::Right, 0, 1), (5, 4, 9));
    assert_eq!(label_span(5, 4, 10, Align::Center, 0, 1), (5, 4, 16));
}

#[test]
fn time_labels_skip_collisions() {
    // Centers every two columns, labels three wide: every other one fits.
    let centers = [0, 2, 4, 6, 8];
    let lens = [3, 3, 3, 3, 3];
    let starts = place_time_labels(0, 12, &centers, &lens, Align::Left);
    assert_eq!(starts, vec![Some(0), None, None, Some(6), None]);
}

#[test]
fn time_labels_align_to_their_center_column() {
    let centers = [4, 12];
    let lens = [3, 4];
    assert_eq!(place_time_labels(0, 20, &centers, &lens, Align::Center), vec![Some(3), Some(10)]);
    assert_eq!(place_time_labels(0, 20, &centers, &lens, Align::Right), vec![Some(2), Some(9)]);
    // A label that would run past the right edge is dropped.
    assert_eq!(place_time_labels(0, 14, &centers, &lens, Align::Left), vec![Some(4), None]);
}

#[test]
fn text_clips_to_the_plot() {
    let mut canvas = Canvas::new(4, 2);
    let text: Vec<char> = "HELLO".chars().collect();
    put_text(&mut canvas, -2, 1, &text, Paint::Text);
    assert_eq!(grid(&canvas), ["    ", "LLO "]);
    put_text(&mut canvas, 0, 2, &text, Paint::Text);
    put_text(&mut canvas, 0, -1, &text, Paint::Text);
    assert_eq!(canvas.marks().len(), 3);
}

#[test]
fn buy_marker_stacks_its_label_below_the_symbol() {
    let mut canvas = Canvas::new(7, 6);
    let symbol = ['▲'];
    let label: Vec<char> = "BUY".chars().collect();
    draw_annotation(&mut canvas, 3, 1, Anchor::Below, Some(&symbol), Some(&label));
    assert_eq!(grid(&canvas), ["       ", "       ", "   ▲   ", "  BUY  ", "       ", "       "]);
    assert_eq!(at(&canvas, 3, 2).map(|(_, p)| p), Some(Paint::Text));
}

#[test]
fn sell_marker_stacks_its_label_above_the_symbol() {
    let mut canvas = Canvas::new(7, 6);
    let symbol = ['▼'];
    let label: Vec<char> = "SELL".chars().collect();
    draw_annotation(&mut canvas, 3, 4, Anchor::Above, Some(&symbol), Some(&label));
    assert_eq!(grid(&canvas), ["       ", "       ", " SELL  ", "   ▼   ", "       ", "       "]);
}

#[test]
fn an_annotation_on_its_point_without_a_symbol_puts_the_label_there() {
    let mut canvas = Canvas::new(5, 3);
    let label: Vec<char> = "X".chars().collect();
    draw_annotation(&mut canvas, 2, 1, Anchor::On, None, Some(&label));
    assert_eq!(grid(&canvas), ["     ", "  X  ", "     "]);
    assert_eq!(Anchor::default(), Anchor::On);
}

#[test]
fn a_value_line_spans_its_row_only() {
    let mut canvas = Canvas::new(5, 3);
    draw_rule(&mut canvas, 1, LineStyle::Solid);
    assert_eq!(grid(&canvas), ["     ", "─────", "     "]);
    let mut dashed = Canvas::new(3, 2);
    draw_rule(&mut dashed, 0, LineStyle::Dashed);
    assert_eq!(grid(&dashed), ["╌╌╌", "   "]);
    assert_eq!(at(&dashed, 0, 0).map(|(_, p)| p), Some(Paint::Rule));
    assert_eq!(LineStyle::default(), LineStyle::Solid);
}

/// A value line across a plot `width` wide, broken around `text` and with the
/// text written where the layout puts it.
fn labeled_rule(width: u16, text: &str, align: Align, inset: u16, pad: u16) -> String {
    let mut canvas = Canvas::new(width, 1);
    draw_rule(&mut canvas, 0, LineStyle::Solid);
    let chars: Vec<char> = text.chars().collect();
    let start = break_rule(&mut canvas, 0, 0, chars.len() as u16, align, inset, pad);
    put_text(&mut canvas, i32::from(start), 0, &chars, Paint::Text);
    grid(&canvas).remove(0)
}

#[test]
fn label_is_right_aligned_by_default() {
    let text = labeled_rule(24, "LAST", Align::Right, 0, 1);
    assert!(text.ends_with("LAST"), "label not right-aligned: {text:?}");
    assert!(text.ends_with(" LAST"), "label not padded from the line: {text:?}");
}

#[test]
fn label_left_alignment_starts_at_the_left_edge() {
    let text = labeled_rule(24, "LAST", Align::Left, 0, 1);
    assert!(text.starts_with("LAST "), "label not left-aligned: {text:?}");
}

#[test]
fn centered_label_breaks_the_line_with_padding() {
    let text = labeled_rule(24, "LAST", Align::Center, 0, 2);
    assert!(text.starts_with('─'), "line should reach the left edge: {text:?}");
    assert!(text.ends_with('─'), "line should reach the right edge: {text:?}");
    assert!(text.contains("  LAST  "), "label not padded by blanks: {text:?}");
}

#[test]
fn label_inset_leads_in_with_line_before_the_label() {
    let text = labeled_rule(24, "RES", Align::Left, 2, 0);
    assert!(text.starts_with("──RES─"), "expected an inset label: {text:?}");
    let text = labeled_rule(24, "RES", Align::Right, 2, 1);
    assert!(text.ends_with("─ RES ──"), "expected an inset label: {text:?}");
}

#[test]
fn the_label_gap_is_painted_as_a_blank() {
    let mut canvas = Canvas::new(10, 2);
    let start = break_rule(&mut canvas, 3, 1, 2, Align::Center, 0, 1);
    // Absolute columns: the plot starts at column 3, so the label starts at 7
    // and the gap covers absolute columns 6..10, plot columns 3..7.
    assert_eq!(start, 7);
    assert_eq!(grid(&canvas), ["          ", "          "]);
    assert_eq!(canvas.marks().len(), 4);
    assert!(canvas.marks().iter().all(|m| m.row == 1 && (3..7).contains(&m.col) && m.paint == Paint::Gap));
}

#[test]
fn label_layout_reports_overflow_instead_of_wrapping() {
    assert_eq!(label_span_checked(65530, 10, 1, Align::Left, 0, 1), None);
    assert_eq!(label_span_checked(65000, 500, 10, Align::Left, 30, 10), Some((65040, 65030, 65060)));
    assert_eq!(label_span_checked(65000, 535, 10, Align::Center, 0, 10), Some((65262, 65252, 65282)));
    assert_eq!(label_span_checked(65500, 35, 0, Align::Center, 0, 40), None);
    assert_eq!(label_span_checked(65000, 535, 10, Align::Right, 0, 10), Some((65525, 65515, 65535)));
}

#[test]
fn time_label_placement_reports_overflow() {
    // A label ending at the last column leaves no room for the two free ones.
    assert_eq!(place_time_labels_checked(65500, 35, &[65530], &[5], Align::Left), None);
    assert_eq!(place_time_labels_checked(65500, 35, &[65520], &[5], Align::Left), Some(vec![Some(65520)]));
    assert_eq!(place_time_labels_checked(65500, 36, &[0], &[1], Align::Left), None);
}

#[test]
fn value_line_spans_the_whole_plot_row() {
    let mut canvas = Canvas::new(24, 12);
    draw_rule(&mut canvas, 5, LineStyle::Solid);
    for x in 0..24 {
        assert_eq!(at(&canvas, x, 5), Some(('─', Paint::Rule)), "gap at column {x}");
    }
}

#[test]
fn dashed_and_solid_use_distinct_glyphs() {
    let mut solid = Canvas::new(24, 12);
    draw_rule(&mut solid, 5, LineStyle::Solid);
    let mut dashed = Canvas::new(24, 12);
    draw_rule(&mut dashed, 5, LineStyle::Dashed);
    let has = |canvas: &Canvas, glyph: char| grid(canvas).iter().any(|row| row.contains(glyph));
    assert!(has(&solid, '─'));
    assert!(!has(&solid, '╌'));
    assert!(has(&dashed, '╌'));
}

#[test]
fn line_and_label_paint_on_the_chart_background() {
    // The rule, its gap and its label all use paints that sit on the plot
    // background with reverse video cleared, over whatever was drawn before.
    let mut canvas = Canvas::new(24, 12);
    for x in 0..24 {
        canvas.put(x, 5, '█', Paint::Segment { reversed: true });
    }
    draw_rule(&mut canvas, 5, LineStyle::Solid);
    let label: Vec<char> = "LAST".chars().collect();
    let start = break_rule(&mut canvas, 0, 5, 4, Align::Center, 0, 1);
    put_text(&mut canvas, i32::from(start), 5, &label, Paint::Text);
    for x in 0..24 {
        let paint = at(&canvas, x, 5).map(|(_, p)| p);
        assert!(
            matches!(paint, Some(Paint::Rule | Paint::Gap | Paint::Text)),
            "cell {x} should sit on the chart background: {paint:?}"
        );
    }
}

#[test]
fn overlay_only_touches_its_own_row() {
    let mut before = Canvas::new(24, 12);
    for y in 0..12 {
        before.put(y * 2, y, '█', Paint::Body);
    }
    let mut after = Canvas::new(24, 12);
    for y in 0..12 {
        after.put(y * 2, y, '█', Paint::Body);
    }
    draw_rule(&mut after, 5, LineStyle::Solid);
    let (before, after) = (grid(&before), grid(&after));
    for row in 0..12 {
        if row == 5 {
            continue;
        }
        assert_eq!(before[row], after[row], "row {row} changed");
    }
}

#[test]
fn defaults_are_right_aligned_flush_with_one_column_of_padding() {
    let placement = LabelPlacement::default();
    assert_eq!(placement.align, Align::Right);
    assert_eq!(placement.inset, 0);
    assert_eq!(placement.padding, 1);
    // Laid out with the defaults, the label ends flush with the right edge.
    let LabelPlacement { align, inset, padding } = placement;
    assert_eq!(label_span(0, 10, 1, align, inset, padding), (9, 8, 10));
}

#[test]
fn a_wide_symbol_is_centered_on_its_column() {
    let mut canvas = Canvas::new(7, 3);
    let symbol: Vec<char> = "<=>".chars().collect();
    draw_annotation(&mut canvas, 3, 1, Anchor::On, Some(&symbol), None);
    assert_eq!(grid(&canvas), ["       ", "  <=>  ", "       "]);
    let mut canvas = Canvas::new(7, 3);
    let symbol: Vec<char> = "ab".chars().collect();
    draw_annotation(&mut canvas, 3, 1, Anchor::On, Some(&symbol), None);
    assert_eq!(grid(&canvas), ["       ", "  ab   ", "       "]);
}

#[test]
fn a_time_label_is_the_given_label_or_else_the_index() {
    let given: Vec<Vec<char>> = vec!["Mon".chars().collect(), "Tue".chars().collect()];
    assert_eq!(time_label(Some(&given), 1), "Tue".chars().collect::<Vec<char>>());
    assert_eq!(time_label(Some(&given), 2), vec!['2']);
    assert_eq!(time_label(None, 0), vec!['0']);
    assert_eq!(time_label(None, 1234), "1234".chars().collect::<Vec<char>>());
    assert_eq!(time_label(None, 10), vec!['1', '0']);
}

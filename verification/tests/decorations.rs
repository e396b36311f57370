use helix_notebook::annotations::output::{OutputRow, StyledSpan};
use helix_notebook::decorations::{plan_math_rows, plan_output_rows, plan_row, plan_stale_rows, RowPlacement, RowsPlan};

fn row(texts: &[&str]) -> OutputRow {
    OutputRow::new(texts.iter().map(|t| StyledSpan::from(*t)).collect())
}

#[test]
fn narrow_row_is_untruncated() {
    let r = row(&["abc", "de"]);
    let plan = plan_row(&r, 80);
    assert_eq!(plan.len(), 2);
    assert!(plan.iter().all(|d| !d.truncated));
    assert_eq!(plan[0].col, 0);
    assert_eq!(plan[1].col, 3);
}

#[test]
fn overrunning_row_truncates_at_edge() {
    let r = row(&["0123456789", "abcdefghij"]);
    let plan = plan_row(&r, 15);
    assert_eq!(plan.len(), 2);
    assert!(!plan[0].truncated);
    assert!(plan[1].truncated);
    assert_eq!(plan[1].col, 10);
    assert_eq!(plan[1].remaining, 5);
    for d in &plan {
        assert!(d.col + d.remaining <= 15);
    }
}

#[test]
fn spans_past_edge_are_dropped() {
    let r = row(&["0123456789", "over", "more"]);
    let plan = plan_row(&r, 8);
    assert_eq!(plan.len(), 1);
    assert!(plan[0].truncated);
    assert_eq!(plan[0].col, 0);
    assert_eq!(plan[0].remaining, 8);
}

#[test]
fn single_span_wider_than_viewport_truncates() {
    let r = row(&["this is a very long single logical output line"]);
    let plan = plan_row(&r, 10);
    assert_eq!(plan.len(), 1);
    assert!(plan[0].truncated);
    assert_eq!(plan[0].remaining, 10);
}

#[test]
fn wide_characters_take_two_cells() {
    let r = row(&["世界", "x"]);
    let plan = plan_row(&r, 10);
    assert_eq!(plan.len(), 2);
    assert_eq!(plan[1].col, 4);
    assert_eq!(plan[1].span.text, "x");
}

#[test]
fn span_ending_at_edge_stops_the_row() {
    let r = row(&["abcd", "e"]);
    let plan = plan_row(&r, 4);
    assert_eq!(plan.len(), 1);
    assert!(!plan[0].truncated);
}

#[test]
fn output_rows_stop_at_viewport_bottom() {
    let rows = vec![row(&["a"]), row(&["bb"]), row(&["ccc"]), row(&["dddd"])];
    let plan = plan_output_rows(&rows, 5, 2, 3, 9);
    assert_eq!(plan.rows_used, 2);
    assert_eq!(plan.rows.len(), 2);
    assert_eq!(plan.rows[0].row, 7);
    assert_eq!(plan.rows[1].row, 8);
    assert_eq!(plan.rows[1].spans.len(), 1);
    assert_eq!(plan.rows[1].spans[0].span.text, "bb");
}

#[test]
fn output_rows_all_fit_and_are_clamped() {
    let rows = vec![row(&["abcdef"]), row(&["x", "y"])];
    let plan = plan_output_rows(&rows, 0, 0, 4, 24);
    assert_eq!(plan.rows_used, 2);
    assert!(plan.rows[0].spans[0].truncated);
    assert_eq!(plan.rows[0].spans[0].remaining, 4);
    assert_eq!(plan.rows[1].spans[1].col, 1);
}

#[test]
fn output_rows_below_viewport_use_nothing() {
    let rows = vec![row(&["a"])];
    let plan = plan_output_rows(&rows, 30, 0, 80, 24);
    assert_eq!(plan.rows_used, 0);
    assert!(plan.rows.is_empty());
    let none: Vec<OutputRow> = Vec::new();
    assert_eq!(plan_output_rows(&none, 0, 0, 80, 24).rows_used, 0);
}

const VIEW_HEIGHT: u16 = 20;

/// Where a virtual row falls in a viewport `VIEW_HEIGHT` rows high that is
/// scrolled `offset` rows into the virtual text.
fn placement(offset: u16) -> impl Fn(u16) -> RowPlacement {
    move |row: u16| {
        if row < offset {
            RowPlacement::Above
        } else if row - offset >= VIEW_HEIGHT {
            RowPlacement::Below
        } else {
            RowPlacement::Visible
        }
    }
}

/// The screen rows painted by `plan` in a viewport scrolled `offset` rows.
fn paint(plan: &RowsPlan<'_>, offset: u16) -> Vec<String> {
    let mut rows = vec![String::new(); VIEW_HEIGHT as usize];
    for (row, text) in &plan.rows {
        rows[(row - offset) as usize] = (*text).clone();
    }
    rows
}

fn render_math(offset_row: u16) -> Vec<String> {
    let below: Vec<String> = (0..6).map(|i| format!("M{i}")).collect();
    let above_next: Vec<String> = Vec::new();
    let plan = plan_math_rows(&below, &above_next, 0 + 1, placement(offset_row));
    paint(&plan, offset_row)
}

fn render_stale(offset_row: u16, visual_line: u16) -> Vec<String> {
    let tag = "TAG".to_string();
    let plan = plan_stale_rows(Some(&tag), None, visual_line + 1, placement(offset_row));
    paint(&plan, offset_row)
}

#[test]
fn math_rows_land_below_anchor_without_scroll() {
    let rows = render_math(0);
    assert_eq!(rows[1], "M0");
    assert_eq!(rows[2], "M1");
    assert_eq!(rows[6], "M5");
}

#[test]
fn math_rows_shift_up_by_offset_when_scrolled_into_virtual_region() {
    let rows = render_math(3);
    assert_eq!(rows[0], "M2", "screen row 0");
    assert_eq!(rows[1], "M3", "screen row 1");
    assert_eq!(rows[2], "M4", "screen row 2");
    assert_eq!(rows[3], "M5", "screen row 3");
    for (y, row) in rows.iter().enumerate() {
        assert!(!row.contains("M0"), "M0 leaked at row {y}: {row:?}");
        assert!(!row.contains("M1"), "M1 leaked at row {y}: {row:?}");
    }
}

#[test]
fn stale_tag_lands_at_block_row_without_scroll() {
    let rows = render_stale(0, 5);
    assert_eq!(rows[6], "TAG");
}

#[test]
fn stale_tag_shifts_up_by_offset_when_scrolled() {
    let rows = render_stale(3, 5);
    assert_eq!(rows[3], "TAG", "screen row 3");
    for (y, row) in rows.iter().enumerate() {
        if y != 3 {
            assert!(!row.contains("TAG"), "TAG leaked at row {y}: {row:?}");
        }
    }
}

#[test]
fn stale_tag_scrolled_above_top_is_not_painted() {
    let rows = render_stale(3, 0);
    for (y, row) in rows.iter().enumerate() {
        assert!(!row.contains("TAG"), "TAG leaked at row {y}: {row:?}");
    }
}

#[test]
fn math_rows_stack_below_then_above_next_and_stop_at_bottom() {
    let below: Vec<String> = vec!["b0".into(), "b1".into()];
    let above_next: Vec<String> = vec!["a0".into(), "a1".into(), "a2".into()];
    let plan = plan_math_rows(&below, &above_next, 17, placement(0));
    let rows: Vec<(u16, &str)> = plan.rows.iter().map(|(r, t)| (*r, t.as_str())).collect();
    assert_eq!(rows, vec![(17, "b0"), (18, "b1"), (19, "a0")]);
    assert_eq!(plan.rows_used, 3);
    let tag = "T".to_string();
    let both = plan_stale_rows(Some(&tag), Some(&tag), 4, placement(5));
    assert_eq!(both.rows.len(), 1);
    assert_eq!(both.rows[0].0, 5);
    assert_eq!(both.rows_used, 2);
}

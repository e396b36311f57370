use helix_notebook::annotations::display_layers::DisplayLayers;
use helix_notebook::annotations::math::{MathAnnotations, MathLines};
use helix_notebook::annotations::output::{OutputAnnotations, OutputLines, OutputRow, StyledSpan};
use helix_notebook::annotations::stale_tags::{StaleTagAnnotations, StaleTags};
use helix_notebook::text_annotations::{LineAnnotation, Overlay, Position, RawContent, SortedRawContent};

#[test]
fn styled_row_round_trips_text_and_scopes() {
    let mut lines = OutputLines::default();
    let styled_row = OutputRow::with_bar(
        Some("ui.virtual.output.series1".to_string()),
        vec![
            StyledSpan { text: "hi ".to_string(), scope: Some("ui.virtual.output.series0".to_string()) },
            StyledSpan::from("there"),
        ],
    );
    let plain_row = OutputRow::new(vec![StyledSpan::from("plain line".to_string())]);

    lines.set_below(3, vec![styled_row, plain_row]);

    let below = lines.below(3).expect("rows were set for line 3");
    assert_eq!(below.len(), 2);

    let styled_text: String = below[0].spans.iter().map(|span| span.text.as_str()).collect();
    assert_eq!(styled_text, "hi there");
    assert_eq!(below[0].bar_scope.as_deref(), Some("ui.virtual.output.series1"));
    assert_eq!(below[0].spans[0].scope.as_deref(), Some("ui.virtual.output.series0"));
    assert_eq!(below[0].spans[1].scope, None);

    assert_eq!(below[1].spans.len(), 1);
    assert_eq!(below[1].bar_scope, None);
    assert_eq!(below[1].spans[0].text, "plain line");
    assert_eq!(below[1].spans[0].scope, None);

    assert_eq!(lines.rows_to_reserve_after(3), 2);
}

#[test]
fn remap_lines_shifts_keys_and_drops_none() {
    let mut lines = OutputLines::default();
    lines.set_below(5, vec![OutputRow::new(vec![StyledSpan::from("shifted")])]);
    lines.set_below(2, vec![OutputRow::new(vec![StyledSpan::from("dropped")])]);

    // An insertion at line 3 pushes lines >= 3 down by 2; line 2 is deleted.
    lines.remap_lines(|line| if line >= 3 { Some(line + 2) } else { None });

    assert!(lines.below(5).is_none());
    assert!(lines.below(2).is_none());
    let moved = lines.below(7).expect("line 5 rows moved to line 7");
    assert_eq!(moved[0].spans[0].text, "shifted");
}

#[test]
fn empty_by_default() {
    let t = StaleTags::default();
    assert!(t.is_empty());
    assert_eq!(t.tag(3), None);
    assert_eq!(t.rows_to_reserve_after(3), 0);
}

#[test]
fn set_get_clear() {
    let mut t = StaleTags::default();
    t.set(5, "stale".to_string());
    assert!(!t.is_empty());
    assert_eq!(t.tag(5), Some("stale"));
    assert_eq!(t.rows_to_reserve_after(5), 1);
    t.clear_at(5);
    assert!(t.is_empty());
    assert_eq!(t.tag(5), None);
}

#[test]
fn empty_text_removes_entry() {
    let mut t = StaleTags::default();
    t.set(2, "x".to_string());
    t.set(2, String::new());
    assert!(t.is_empty());
}

#[test]
fn clear_all() {
    let mut t = StaleTags::default();
    t.set(1, "a".to_string());
    t.set(9, "b".to_string());
    t.clear();
    assert!(t.is_empty());
}

#[test]
fn stale_tags_above_count_for_the_line_before() {
    let mut t = StaleTags::default();
    t.set(4, "below".to_string());
    t.set_above(5, "above".to_string());
    assert_eq!(t.tag_above(5), Some("above"));
    assert_eq!(t.rows_to_reserve_after(4), 2);
    assert_eq!(t.rows_to_reserve_after(5), 0);
    let mut annotation = StaleTagAnnotations::new(&t);
    assert_eq!(annotation.insert_virtual_lines(0, Position::new(0, 0), 4), Position::new(2, 0));
}

#[test]
fn math_rows_above_a_line_are_reserved_after_the_line_before() {
    let mut m = MathLines::default();
    assert!(m.is_empty());
    m.set_below(2, vec!["b0".to_string(), "b1".to_string()]);
    m.set_above(3, vec!["a0".to_string()]);
    assert_eq!(m.rows_to_reserve_after(2), 3);
    assert_eq!(m.rows_to_reserve_after(3), 0);
    assert_eq!(m.below(2).unwrap(), &["b0".to_string(), "b1".to_string()]);
    assert_eq!(m.above(3).unwrap().len(), 1);
    m.set_above(3, Vec::new());
    assert!(m.above(3).is_none());
    let mut annotation = MathAnnotations::new(&m);
    assert_eq!(annotation.insert_virtual_lines(0, Position::new(0, 0), 2), Position::new(2, 0));
    m.clear_at(2);
    assert!(m.is_empty());
}

#[test]
fn math_remap_last_writer_wins_on_collision() {
    let mut m = MathLines::default();
    m.set_below(1, vec!["one".to_string()]);
    m.set_below(2, vec!["two".to_string()]);
    m.remap_lines(|_| Some(0));
    let rows = m.below(0).unwrap();
    assert!(rows[0] == "one" || rows[0] == "two");
    assert!(m.below(1).is_none());
    m.clear();
    assert!(m.is_empty());
}

#[test]
fn output_annotation_reserves_its_rows() {
    let mut lines = OutputLines::default();
    lines.set_below(1, vec![OutputRow::new(Vec::new()), OutputRow::default()]);
    let mut annotation = OutputAnnotations::new(&lines);
    assert_eq!(annotation.insert_virtual_lines(0, Position::new(0, 0), 1), Position::new(2, 0));
    assert_eq!(annotation.insert_virtual_lines(0, Position::new(0, 0), 0), Position::new(0, 0));
    lines.clear_at(1);
    assert!(lines.is_empty());
}

/// Display layers over the document "ab\ncd\nef\ngh\nij\n", every one
/// anchored at line 3, which starts at character 9.
fn populate(view: usize) -> DisplayLayers {
    let mut layers = DisplayLayers::default();
    layers.output_lines.set_below(3, vec![OutputRow::new(vec![StyledSpan::from("o")])]);
    layers.math_lines.set_below(3, vec!["m".to_string()]);
    layers.stale_tags.set(3, "s".to_string());
    layers.plugin_overlays.insert(view, vec![Overlay::new(9, "P".to_string())]);
    let mut raw = SortedRawContent::new();
    raw.push(RawContent::new(9, 1, vec![], 1));
    layers.raw_content.insert(view, raw);
    layers
}

/// Every layer is now at line `line`, character `char_idx`.
fn assert_all_layers(layers: &DisplayLayers, view: usize, line: usize, char_idx: usize) {
    assert!(layers.output_lines.below(line).is_some(), "output row followed the text to line {line}");
    assert!(layers.math_lines.below(line).is_some(), "math row followed the text to line {line}");
    assert_eq!(layers.stale_tags.tag(line), Some("s"), "stale tag followed the text to line {line}");
    let overlays = layers.plugin_overlays.get(view).expect("overlay survives");
    assert_eq!(overlays.len(), 1);
    assert_eq!(overlays[0].char_idx, char_idx, "overlay followed the text");
    let raw = layers.raw_content.get(view).expect("raw content survives");
    assert_eq!(raw.len(), 1);
    assert_eq!(raw.as_slice()[0].char_idx, char_idx, "raw content followed the text");
}

/// The line holding character `c` of a document whose lines start at
/// `starts`.
fn line_of(starts: &[usize], c: usize) -> usize {
    starts.iter().rposition(|start| *start <= c).unwrap()
}

/// The document "ab\ncd\nef\ngh\nij\n" edited three ways: "XY\n" inserted
/// at the start, characters 6..12 deleted, and "ZZ" inserted at the end.
#[test]
fn remap_moves_every_layer_with_the_text() {
    let view = 0;
    let old_starts = [0usize, 3, 6, 9, 12, 15];

    let new_starts = [0usize, 3, 6, 9, 12, 15, 18];
    let mut layers = populate(view);
    layers.remap(15, 18, 6, |p| p + 3, |line| old_starts[line], |c| line_of(&new_starts, c));
    assert_all_layers(&layers, view, 4, 12);

    let new_starts = [0usize, 3, 6, 9];
    let mut layers = populate(view);
    layers.remap(
        15,
        9,
        6,
        |p| if p < 6 { p } else if p < 12 { 6 } else { p - 6 },
        |line| old_starts[line],
        |c| line_of(&new_starts, c),
    );
    assert_all_layers(&layers, view, 2, 6);

    let new_starts = [0usize, 3, 6, 9, 12, 15];
    let mut layers = populate(view);
    layers.remap(15, 17, 6, |p| if p < 15 { p } else { p + 2 }, |line| old_starts[line], |c| line_of(&new_starts, c));
    assert_all_layers(&layers, view, 3, 9);
}

#[test]
fn remap_drops_overlay_at_or_past_new_end() {
    let view = 0;
    let mut layers = DisplayLayers::default();
    layers.plugin_overlays.insert(view, vec![Overlay::new(1, "a".to_string()), Overlay::new(5, "z".to_string())]);
    // "abcdef\n" with characters 3..7 deleted leaves "abc": length 3.
    layers.remap(7, 3, 2, |p| if p <= 3 { p } else if p >= 7 { p - 4 } else { 3 }, |l| l * 7, |_| 0);
    let overlays = layers.plugin_overlays.get(view).expect("map entry kept");
    assert_eq!(overlays.len(), 1, "overlay at or past the new end was dropped");
    assert_eq!(overlays[0].char_idx, 1);
}

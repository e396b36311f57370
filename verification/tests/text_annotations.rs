use helix_notebook::text_annotations::{
    Highlight, InlineAnnotation, LineAnnotation, Overlay, OverlayHighlights, Position, RawContent,
    SortedRawContent, TextAnnotations,
};

#[test]
fn raw_content_default_is_not_animating() {
    let rc = RawContent::new(0, 1, vec![], 1);
    assert!(!rc.is_animating);
}

#[test]
fn raw_content_animating_setter() {
    let rc = RawContent::new(0, 1, vec![], 1).with_animating(true);
    assert!(rc.is_animating);
}

#[test]
fn sorted_raw_content_keeps_order_and_replaces_by_id() {
    let mut raw = SortedRawContent::new();
    raw.push(RawContent::new(9, 1, vec![], 1));
    raw.push(RawContent::new(3, 2, vec![], 1));
    raw.push(RawContent::new(9, 3, vec![], 1));
    let ids: Vec<u64> = raw.as_slice().iter().map(|rc| rc.id).collect();
    assert_eq!(ids, vec![2, 1, 3]);

    raw.replace_by_id(RawContent::new(1, 1, vec![], 2));
    let got: Vec<(usize, u64)> = raw.as_slice().iter().map(|rc| (rc.char_idx, rc.id)).collect();
    assert_eq!(got, vec![(1, 1), (3, 2), (9, 3)]);

    // Replacing again is idempotent.
    raw.replace_by_id(RawContent::new(1, 1, vec![], 2));
    let again: Vec<(usize, u64)> = raw.as_slice().iter().map(|rc| (rc.char_idx, rc.id)).collect();
    assert_eq!(again, got);
    assert_eq!(raw.len(), 3);
}

#[test]
fn remap_positions_moves_and_drops() {
    let mut raw = SortedRawContent::new();
    raw.set(vec![
        RawContent::new(12, 3, vec![], 1),
        RawContent::new(2, 1, vec![], 1),
        RawContent::new(5, 2, vec![], 1),
    ]);
    // Old length 10 drops the entry at 12; then everything moves by 4 and the
    // entry landing past the new length 8 is dropped too.
    raw.remap_positions(10, 8, |p| p + 4);
    let got: Vec<(usize, u64)> = raw.as_slice().iter().map(|rc| (rc.char_idx, rc.id)).collect();
    assert_eq!(got, vec![(6, 1)]);
}

#[test]
fn retain_keeps_in_order() {
    let mut raw = SortedRawContent::new();
    for (i, id) in [(1, 10), (2, 11), (3, 12)] {
        raw.push(RawContent::new(i, id, vec![], 1));
    }
    raw.retain(|rc| rc.id != 11);
    let ids: Vec<u64> = raw.iter().map(|rc| rc.id).collect();
    assert_eq!(ids, vec![10, 12]);
    raw.clear();
    assert!(raw.is_empty());
}

#[test]
fn raw_content_equality_is_by_id() {
    assert_eq!(RawContent::new(0, 7, vec![1], 1), RawContent::new(5, 7, vec![2], 3));
    assert_ne!(RawContent::new(0, 7, vec![], 1), RawContent::new(0, 8, vec![], 1));
}

#[test]
fn last_overlay_layer_wins() {
    let first = vec![Overlay::new(1, "a".to_string()), Overlay::new(3, "b".to_string())];
    let second = vec![Overlay::new(3, "c".to_string()), Overlay::new(3, "d".to_string())];
    let mut annotations: TextAnnotations = TextAnnotations::default();
    annotations.add_overlay(&first, Some(Highlight(1)));
    annotations.add_overlay(&second, Some(Highlight(2)));
    let OverlayHighlights::Heterogenous { highlights } = annotations.collect_overlay_highlights(0..5) else {
        panic!("heterogenous highlights expected");
    };
    assert_eq!(highlights, vec![(Highlight(1), 1..2), (Highlight(2), 3..4)]);

    annotations.reset_pos(3);
    let (overlay, highlight) = annotations.overlay_at(3).unwrap();
    assert_eq!(overlay.grapheme, "d");
    assert_eq!(highlight, Some(Highlight(2)));
}

#[test]
fn first_inline_layer_is_shown_first() {
    let first = vec![InlineAnnotation::new(2, "x".to_string())];
    let second = vec![InlineAnnotation::new(2, "y".to_string())];
    let raw = vec![RawContent::new(2, 5, vec![], 1)];
    let mut annotations: TextAnnotations = TextAnnotations::default();
    annotations.add_inline_annotations(&first, None).add_inline_annotations(&second, Some(Highlight(4)));
    annotations.add_raw_content(&raw);
    annotations.reset_pos(0);
    assert!(annotations.next_inline_annotation_at(1).is_none());
    let (a, h) = annotations.next_inline_annotation_at(2).unwrap();
    assert_eq!((a.text.as_str(), h), ("x", None));
    let (a, h) = annotations.next_inline_annotation_at(2).unwrap();
    assert_eq!((a.text.as_str(), h), ("y", Some(Highlight(4))));
    assert!(annotations.next_inline_annotation_at(2).is_none());
    assert_eq!(annotations.raw_content_at(2).map(|rc| rc.id), Some(5));
    assert!(annotations.raw_content_at(2).is_none());
}

struct FixedRows(usize);

impl LineAnnotation for FixedRows {
    fn insert_virtual_lines(&mut self, _: usize, _: Position, _: usize) -> Position {
        Position::new(self.0, 0)
    }
}

#[test]
fn virtual_lines_add_up() {
    let mut annotations: TextAnnotations = TextAnnotations::default();
    annotations.add_line_annotation(Box::new(FixedRows(2)));
    annotations.add_line_annotation(Box::new(FixedRows(3)));
    assert_eq!(annotations.virtual_lines_at(0, Position::new(0, 0), 0), 5);
    annotations.clear_line_annotations();
    assert_eq!(annotations.virtual_lines_at(0, Position::new(0, 0), 0), 0);
}

#[test]
fn annotations_without_anchors_report_none() {
    let mut rows = FixedRows(1);
    assert_eq!(rows.reset_pos(7), usize::MAX);
    assert_eq!(rows.skip_concealed_anchors(9), usize::MAX);
}

#[test]
fn reserved_rows_saturate() {
    let mut annotations: TextAnnotations = TextAnnotations::default();
    annotations.add_line_annotation(Box::new(FixedRows(usize::MAX)));
    annotations.add_line_annotation(Box::new(FixedRows(4)));
    assert_eq!(annotations.virtual_lines_at(0, Position::new(0, 0), 0), usize::MAX);
}

use rustpad::editor::{
    compute_metrics, selection_for_char_range, selection_from_bytes, ByteRange, CharRange,
    EditorMetrics, SelectionState,
};

#[test]
fn char_range_len_counts_characters() {
    assert_eq!(CharRange { start: 2, end: 7 }.len(), 5);
    assert_eq!(CharRange { start: 3, end: 3 }.len(), 0);
    assert_eq!(CharRange { start: 7, end: 2 }.len(), 0);
}

#[test]
fn selection_from_bytes_recomputes_char_range() {
    let text = "h\u{e9}llo w\u{f6}rld";
    let sel = selection_from_bytes(text, 1, 6);
    assert_eq!(sel.byte_range, ByteRange { start: 1, end: 6 });
    assert_eq!(sel.char_range, CharRange { start: 1, end: 5 });
}

#[test]
fn selection_from_bytes_collapsed_at_end() {
    let text = "abc";
    let sel = selection_from_bytes(text, 3, 3);
    assert_eq!(sel.char_range, CharRange { start: 3, end: 3 });
}

#[test]
fn metrics_reflect_line_column_and_selection() {
    let text = "one\ntwo";
    let sel = selection_from_bytes(text, 5, 7);
    let m = compute_metrics(text, &sel);
    assert_eq!(
        m,
        EditorMetrics { line: 2, column: 2, chars: 7, selection: 2 }
    );
}

#[test]
fn metrics_of_empty_buffer() {
    let sel = selection_from_bytes("", 0, 0);
    let m = compute_metrics("", &sel);
    assert_eq!(
        m,
        EditorMetrics { line: 1, column: 1, chars: 0, selection: 0 }
    );
}

#[test]
fn metrics_count_characters_not_bytes() {
    let text = "\u{e9}\u{e9}\n\u{e9}";
    let sel = selection_from_bytes(text, 7, 7);
    let m = compute_metrics(text, &sel);
    assert_eq!(
        m,
        EditorMetrics { line: 2, column: 2, chars: 4, selection: 0 }
    );
}

#[test]
fn selection_for_char_range_derives_byte_image() {
    let text = "h\u{e9}llo w\u{f6}rld";
    let sel = selection_for_char_range(text, &CharRange { start: 6, end: 11 });
    assert_eq!(sel.char_range, CharRange { start: 6, end: 11 });
    assert_eq!(sel.byte_range, ByteRange { start: 7, end: 13 });
}

#[test]
fn default_selection_is_collapsed_at_origin() {
    let sel = SelectionState::default();
    assert_eq!(sel.char_range, CharRange { start: 0, end: 0 });
    assert_eq!(sel.byte_range, ByteRange { start: 0, end: 0 });
}

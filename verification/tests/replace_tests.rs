use rustpad::editor::{ByteRange, CharRange, SelectionState};
use rustpad::replace::{insert_text, insert_timestamp, replace_all, replace_once, ReplaceOnceOutcome};
use rustpad::search::SearchRequest;

fn req(needle: &str, match_case: bool) -> SearchRequest {
    SearchRequest::new(needle.to_string(), match_case, true, false)
}

fn collapsed(ch: usize, by: usize) -> SelectionState {
    SelectionState {
        char_range: CharRange { start: ch, end: ch },
        byte_range: ByteRange { start: by, end: by },
    }
}

#[test]
fn replace_all_two_occurrences() {
    let (text, count) = replace_all("foo bar foo", &req("foo", true), "baz");
    assert_eq!(text, "baz bar baz");
    assert_eq!(count, 2);
}

#[test]
fn replace_all_never_rescans_inserted_text() {
    let (text, count) = replace_all("aaa", &req("a", true), "aa");
    assert_eq!(text, "aaaaaa");
    assert_eq!(count, 3);
}

#[test]
fn replace_all_absent_needle_changes_nothing() {
    let (text, count) = replace_all("hello world", &req("xyz", true), "anything");
    assert_eq!(text, "hello world");
    assert_eq!(count, 0);
}

#[test]
fn replace_all_empty_needle_changes_nothing() {
    let (text, count) = replace_all("some text", &req("", true), "x");
    assert_eq!(text, "some text");
    assert_eq!(count, 0);
}

#[test]
fn replace_all_case_insensitive() {
    let (text, count) = replace_all("Foo foo FOO", &req("foo", false), "x");
    assert_eq!(text, "x x x");
    assert_eq!(count, 3);
}

#[test]
fn replace_all_with_shrinking_replacement() {
    let (text, count) = replace_all("aaaa", &req("aa", true), "");
    assert_eq!(text, "");
    assert_eq!(count, 2);
}

#[test]
fn replace_all_multibyte_needle() {
    let (text, count) = replace_all("w\u{f6}rld w\u{f6}rld", &req("\u{f6}", true), "o");
    assert_eq!(text, "world world");
    assert_eq!(count, 2);
}

#[test]
fn replace_once_on_matching_selection() {
    let sel = SelectionState {
        char_range: CharRange { start: 0, end: 3 },
        byte_range: ByteRange { start: 0, end: 3 },
    };
    match replace_once("foo bar", &sel, &req("foo", true), "quux") {
        ReplaceOnceOutcome::Replaced { text, selection } => {
            assert_eq!(text, "quux bar");
            assert_eq!(selection.char_range, CharRange { start: 4, end: 4 });
            assert_eq!(selection.byte_range, ByteRange { start: 4, end: 4 });
        }
        ReplaceOnceOutcome::Searched { .. } => panic!("selection should have been replaced"),
    }
}

#[test]
fn replace_once_case_insensitive_selection() {
    let sel = SelectionState {
        char_range: CharRange { start: 0, end: 3 },
        byte_range: ByteRange { start: 0, end: 3 },
    };
    match replace_once("FOO bar", &sel, &req("foo", false), "x") {
        ReplaceOnceOutcome::Replaced { text, selection } => {
            assert_eq!(text, "x bar");
            assert_eq!(selection.char_range, CharRange { start: 1, end: 1 });
        }
        ReplaceOnceOutcome::Searched { .. } => panic!("selection should have been replaced"),
    }
}

#[test]
fn replace_once_searches_when_selection_differs() {
    let sel = collapsed(0, 0);
    match replace_once("foo bar foo", &sel, &req("bar", true), "x") {
        ReplaceOnceOutcome::Replaced { .. } => panic!("nothing should have been replaced"),
        ReplaceOnceOutcome::Searched { found } => {
            assert_eq!(found, Some(CharRange { start: 4, end: 7 }));
        }
    }
}

#[test]
fn replace_once_search_reports_no_match() {
    let sel = collapsed(0, 0);
    match replace_once("foo bar", &sel, &req("zzz", true), "x") {
        ReplaceOnceOutcome::Replaced { .. } => panic!("nothing should have been replaced"),
        ReplaceOnceOutcome::Searched { found } => assert_eq!(found, None),
    }
}

#[test]
fn insert_text_splices_and_collapses_selection() {
    let sel = collapsed(1, 1);
    let (text, new_sel) = insert_text("h\u{e9}llo", &sel, "xy");
    assert_eq!(text, "hxy\u{e9}llo");
    assert_eq!(new_sel.char_range, CharRange { start: 3, end: 3 });
    assert_eq!(new_sel.byte_range, ByteRange { start: 3, end: 3 });
}

#[test]
fn insert_text_replaces_the_selected_span() {
    let sel = SelectionState {
        char_range: CharRange { start: 1, end: 4 },
        byte_range: ByteRange { start: 1, end: 4 },
    };
    let (text, new_sel) = insert_text("abcde", &sel, "\u{e9}");
    assert_eq!(text, "a\u{e9}e");
    assert_eq!(new_sel.char_range, CharRange { start: 2, end: 2 });
    assert_eq!(new_sel.byte_range, ByteRange { start: 3, end: 3 });
}

#[test]
fn insert_timestamp_splices_at_selection() {
    let sel = collapsed(1, 1);
    let (text, new_sel) = insert_timestamp("ab", &sel);
    assert!(text.starts_with('a'));
    assert!(text.ends_with('b'));
    assert!(text.len() >= 2);
    let stamp_chars = text.chars().count() - 2;
    assert_eq!(new_sel.char_range.start, 1 + stamp_chars);
    assert_eq!(new_sel.char_range.end, new_sel.char_range.start);
}

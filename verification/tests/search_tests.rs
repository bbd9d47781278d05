use rustpad::editor::{CharRange, SelectionState};
use rustpad::search::{find_backward, find_forward, matches_at, run_search, SearchRequest};

fn req(needle: &str, match_case: bool, search_down: bool, wrap: bool) -> SearchRequest {
    SearchRequest::new(needle.to_string(), match_case, search_down, wrap)
}

fn range(start: usize, end: usize) -> CharRange {
    CharRange { start, end }
}

#[test]
fn forward_case_sensitive_multibyte() {
    let text = "h\u{e9}llo w\u{f6}rld";
    let r = req("w\u{f6}rld", true, true, false);
    assert_eq!(find_forward(text, &r, 0), Some(range(6, 11)));
}

#[test]
fn case_insensitive_matches_ascii_only() {
    let r = req("ABC", false, true, false);
    assert_eq!(find_forward("xx abc yy", &r, 0), Some(range(3, 6)));
    let r2 = req("\u{c9}", false, true, false);
    assert_eq!(find_forward("\u{e9}", &r2, 0), None);
}

#[test]
fn case_sensitive_rejects_other_case() {
    let r = req("ABC", true, true, false);
    assert_eq!(find_forward("xx abc yy", &r, 0), None);
}

#[test]
fn forward_returns_first_match_at_or_after_start() {
    let r = req("abc", true, true, false);
    assert_eq!(find_forward("abcabc", &r, 0), Some(range(0, 3)));
    assert_eq!(find_forward("abcabc", &r, 1), Some(range(3, 6)));
    assert_eq!(find_forward("abcabc", &r, 3), Some(range(3, 6)));
}

#[test]
fn forward_wraps_at_most_once() {
    let r = req("abc", true, true, true);
    assert_eq!(find_forward("abcxyz", &r, 2), Some(range(0, 3)));
    let r_nowrap = req("abc", true, true, false);
    assert_eq!(find_forward("abcxyz", &r_nowrap, 2), None);
}

#[test]
fn absent_needle_terminates_with_wrap() {
    let r = req("xyz", true, true, true);
    assert_eq!(find_forward("hello world", &r, 4), None);
    assert_eq!(find_backward("hello world", &r, 4), None);
}

#[test]
fn empty_needle_matches_nothing() {
    let r = req("", true, true, true);
    assert_eq!(find_forward("hello", &r, 0), None);
    assert_eq!(find_backward("hello", &r, 5), None);
}

#[test]
fn forward_start_is_clamped() {
    let r = req("a", true, true, true);
    assert_eq!(find_forward("abc", &r, 100), Some(range(0, 1)));
    let r_nowrap = req("a", true, true, false);
    assert_eq!(find_forward("abc", &r_nowrap, 100), None);
}

#[test]
fn backward_returns_last_match_ending_by_start() {
    let r = req("foo", true, false, false);
    assert_eq!(find_backward("foo bar foo", &r, 11), Some(range(8, 11)));
    assert_eq!(find_backward("foo bar foo", &r, 10), Some(range(0, 3)));
    assert_eq!(find_backward("foo bar foo", &r, 3), Some(range(0, 3)));
    assert_eq!(find_backward("foo bar foo", &r, 2), None);
}

#[test]
fn backward_wraps_to_buffer_end() {
    let r = req("foo", true, false, true);
    assert_eq!(find_backward("foo bar foo", &r, 2), Some(range(8, 11)));
}

#[test]
fn forward_backward_symmetry_single_occurrence() {
    let text = "xx needle yy";
    for wrap in [false, true] {
        let r = req("needle", true, true, wrap);
        for start in 0..=3 {
            assert_eq!(find_forward(text, &r, start), Some(range(3, 9)));
        }
        for start in 9..=text.len() {
            assert_eq!(find_backward(text, &r, start), Some(range(3, 9)));
        }
    }
}

#[test]
fn matches_at_honours_case_rule() {
    let hay: Vec<char> = "abc".chars().collect();
    let needle: Vec<char> = "BC".chars().collect();
    assert!(matches_at(&hay, 1, &needle, false));
    assert!(!matches_at(&hay, 1, &needle, true));
    assert!(!matches_at(&hay, 2, &needle, false));
}

#[test]
fn matches_at_out_of_range_is_false() {
    let hay: Vec<char> = "abc".chars().collect();
    let needle: Vec<char> = "abc".chars().collect();
    assert!(matches_at(&hay, 0, &needle, true));
    assert!(!matches_at(&hay, 1, &needle, true));
    assert!(!matches_at(&hay, 99, &needle, true));
}

#[test]
fn request_new_keeps_fields() {
    let r = SearchRequest::new("abc".to_string(), true, false, true);
    assert_eq!(r.needle, "abc");
    assert!(r.match_case);
    assert!(!r.search_down);
    assert!(r.wrap);
}

#[test]
fn run_search_uses_selection_ends() {
    let text = "abc abc abc";
    let sel = SelectionState {
        char_range: CharRange { start: 4, end: 7 },
        byte_range: rustpad::editor::ByteRange { start: 4, end: 7 },
    };
    let r = req("abc", true, true, false);
    assert_eq!(run_search(text, &r, &sel, true), Some(range(8, 11)));
    assert_eq!(run_search(text, &r, &sel, false), Some(range(0, 3)));
}

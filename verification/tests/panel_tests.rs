use rustpad::panel::{
    effective_request, goto_line, panel_request, parse_line_number, trim, GotoOutcome,
    SearchPanelState,
};
use rustpad::search::SearchRequest;

fn panel(query: &str) -> SearchPanelState {
    SearchPanelState {
        query: query.to_string(),
        replacement: String::new(),
        goto_line: String::new(),
        match_case: true,
        search_down: false,
        wrap: false,
    }
}

#[test]
fn goto_second_line() {
    assert_eq!(goto_line("one\ntwo\nthree", "2"), GotoOutcome::Jump(4));
}

#[test]
fn goto_first_and_last_line() {
    let text = "one\ntwo\nthree";
    assert_eq!(goto_line(text, "1"), GotoOutcome::Jump(0));
    assert_eq!(goto_line(text, "3"), GotoOutcome::Jump(8));
}

#[test]
fn goto_line_past_the_end_is_not_found() {
    assert_eq!(goto_line("one\ntwo\nthree", "4"), GotoOutcome::LineNotFound);
}

#[test]
fn goto_empty_field_asks_for_input() {
    assert_eq!(goto_line("text", ""), GotoOutcome::EmptyInput);
    assert_eq!(goto_line("text", "   "), GotoOutcome::EmptyInput);
}

#[test]
fn goto_rejects_bad_numbers() {
    assert_eq!(goto_line("text", "abc"), GotoOutcome::InvalidNumber);
    assert_eq!(goto_line("text", "0"), GotoOutcome::InvalidNumber);
    assert_eq!(goto_line("text", "-1"), GotoOutcome::InvalidNumber);
    assert_eq!(goto_line("text", "2x"), GotoOutcome::InvalidNumber);
}

#[test]
fn goto_trims_and_accepts_plus_sign() {
    assert_eq!(goto_line("one\ntwo", " 2 "), GotoOutcome::Jump(4));
    assert_eq!(goto_line("one\ntwo", "+2"), GotoOutcome::Jump(4));
}

#[test]
fn goto_line_after_multibyte_text() {
    assert_eq!(goto_line("\u{e9}\u{e9}\nx", "2"), GotoOutcome::Jump(5));
}

#[test]
fn goto_trailing_line_is_reachable() {
    assert_eq!(goto_line("a\n", "2"), GotoOutcome::Jump(2));
}

#[test]
fn parse_plain_and_signed_numbers() {
    assert_eq!(parse_line_number("42"), Some(42));
    assert_eq!(parse_line_number("+7"), Some(7));
    assert_eq!(parse_line_number("0"), Some(0));
}

#[test]
fn parse_rejects_malformed_input() {
    assert_eq!(parse_line_number(""), None);
    assert_eq!(parse_line_number("+"), None);
    assert_eq!(parse_line_number("12x"), None);
    assert_eq!(parse_line_number("-3"), None);
    assert_eq!(parse_line_number("1 2"), None);
}

#[test]
fn parse_rejects_overflow() {
    assert_eq!(parse_line_number("99999999999999999999999999999999"), None);
}

#[test]
fn trim_removes_surrounding_whitespace() {
    assert_eq!(trim("  a b\t"), "a b");
    assert_eq!(trim("\n\r x \n"), "x");
    assert_eq!(trim("   "), "");
    assert_eq!(trim(""), "");
    assert_eq!(trim("\u{3000}a\u{3000}"), "a");
}

#[test]
fn panel_request_trims_the_query() {
    let r = panel_request(&panel(" foo ")).expect("query should give a request");
    assert_eq!(r.needle, "foo");
    assert!(r.match_case);
    assert!(!r.search_down);
    assert!(!r.wrap);
}

#[test]
fn panel_request_rejects_blank_query() {
    assert!(panel_request(&panel("")).is_none());
    assert!(panel_request(&panel("  \t ")).is_none());
}

#[test]
fn effective_request_prefers_the_panel_query() {
    let last = Some(SearchRequest::new("old".to_string(), true, true, true));
    let r = effective_request(&panel("new"), &last, false).expect("panel query should win");
    assert_eq!(r.needle, "new");
    assert!(!r.search_down);
}

#[test]
fn effective_request_falls_back_to_last_search() {
    let last = Some(SearchRequest::new("old".to_string(), true, false, true));
    let r = effective_request(&panel("  "), &last, true).expect("last search should be reused");
    assert_eq!(r.needle, "old");
    assert!(r.match_case);
    assert!(r.search_down);
    assert!(r.wrap);
    assert!(effective_request(&panel(" "), &None, true).is_none());
}

#[test]
fn panel_defaults_match_a_fresh_panel() {
    let d = SearchPanelState::default();
    assert_eq!(d.query, "");
    assert_eq!(d.replacement, "");
    assert_eq!(d.goto_line, "");
    assert!(!d.match_case);
    assert!(d.search_down);
    assert!(d.wrap);
}

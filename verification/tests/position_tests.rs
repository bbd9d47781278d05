use rustpad::position::{char_to_byte, count_chars, line_from_bytes, column_from_bytes};

#[test]
fn round_trip_on_every_boundary() {
    let text = "h\u{e9}llo w\u{f6}rld \u{1f600} end\nsecond";
    for b in 0..=text.len() {
        if text.is_char_boundary(b) {
            let chars = count_chars(text, b);
            assert_eq!(char_to_byte(text, chars), b);
        }
    }
}

#[test]
fn char_to_byte_clamps_past_the_end() {
    let text = "h\u{e9}llo";
    assert_eq!(char_to_byte(text, 999), text.len());
    assert_eq!(char_to_byte(text, 5), text.len());
}

#[test]
fn count_chars_clamps_past_the_end() {
    let text = "h\u{e9}llo";
    assert_eq!(count_chars(text, 999), 5);
    assert_eq!(count_chars(text, text.len()), 5);
}

#[test]
fn char_to_byte_multibyte_offsets() {
    let text = "h\u{e9}llo";
    assert_eq!(char_to_byte(text, 0), 0);
    assert_eq!(char_to_byte(text, 1), 1);
    assert_eq!(char_to_byte(text, 2), 3);
    assert_eq!(char_to_byte(text, 3), 4);
}

#[test]
fn count_chars_multibyte_offsets() {
    let text = "h\u{e9}llo";
    assert_eq!(count_chars(text, 0), 0);
    assert_eq!(count_chars(text, 1), 1);
    assert_eq!(count_chars(text, 3), 2);
}

#[test]
fn char_to_byte_empty_buffer() {
    assert_eq!(char_to_byte("", 0), 0);
    assert_eq!(char_to_byte("", 7), 0);
    assert_eq!(count_chars("", 7), 0);
}

#[test]
fn line_and_column_at_line_starts() {
    let text = "one\ntwo\nthree";
    assert_eq!(line_from_bytes(text, 0), 1);
    assert_eq!(column_from_bytes(text, 0), 1);
    assert_eq!(line_from_bytes(text, 4), 2);
    assert_eq!(column_from_bytes(text, 4), 1);
    assert_eq!(line_from_bytes(text, 8), 3);
    assert_eq!(column_from_bytes(text, 8), 1);
}

#[test]
fn line_and_column_mid_line() {
    let text = "one\ntwo\nthree";
    assert_eq!(line_from_bytes(text, 6), 2);
    assert_eq!(column_from_bytes(text, 6), 3);
    assert_eq!(line_from_bytes(text, 13), 3);
    assert_eq!(column_from_bytes(text, 13), 6);
}

#[test]
fn line_and_column_clamp_and_multibyte() {
    let text = "\u{e9}\n\u{e9}";
    assert_eq!(line_from_bytes(text, 3), 2);
    assert_eq!(column_from_bytes(text, 3), 1);
    assert_eq!(line_from_bytes(text, 999), 2);
    assert_eq!(column_from_bytes(text, 999), 2);
}

use ropey::Rope;
use senime::position::{char_index, char_to_lsp_col, cursor_char, PositionEncoding, PositionError};

#[test]
fn test_position_to_offset_utf32() {
    let rope = Rope::from("Hello\nWorld");
    assert_eq!(2, rope.len_lines());
    let enc = PositionEncoding::Utf32;
    assert!(matches!(char_index(&rope, 0, 0, enc), Ok(0)));
    assert!(matches!(char_index(&rope, 0, 5, enc), Ok(5)));
    assert!(matches!(char_index(&rope, 0, 6, enc), Ok(6))); // '\n'
    assert!(matches!(char_index(&rope, 1, 0, enc), Ok(6)));
    assert!(matches!(char_index(&rope, 1, 5, enc), Ok(11)));
    assert!(matches!(char_index(&rope, 2, 0, enc), Ok(11)));
    assert!(matches!(char_index(&rope, 2, 1, enc), Err(_)));
    let rope = Rope::from("你好\na世界");
    assert!(matches!(char_index(&rope, 0, 0, enc), Ok(0)));
    assert!(matches!(char_index(&rope, 0, 2, enc), Ok(2)));
    assert!(matches!(char_index(&rope, 1, 0, enc), Ok(3)));
    assert!(matches!(char_index(&rope, 1, 1, enc), Ok(4)));
    assert!(matches!(char_index(&rope, 1, 3, enc), Ok(6)));
}

#[test]
fn test_position_to_offset_utf16() {
    let rope = Rope::from("你好吗💘");
    let enc = PositionEncoding::Utf16;
    assert!(matches!(char_index(&rope, 0, 0, enc), Ok(0)));
    assert!(matches!(char_index(&rope, 0, 1, enc), Ok(1)));
    assert!(matches!(char_index(&rope, 0, 2, enc), Ok(2)));
    assert!(matches!(char_index(&rope, 0, 3, enc), Ok(3)));
    assert!(matches!(char_index(&rope, 0, 4, enc), Ok(3)));
    assert!(matches!(char_index(&rope, 0, 5, enc), Ok(4)));
}

#[test]
fn test_position_to_offset_utf8() {
    let rope = Rope::from("你好吗💘");
    let enc = PositionEncoding::Utf8;
    assert!(matches!(char_index(&rope, 0, 0, enc), Ok(0)));
    assert!(matches!(char_index(&rope, 0, 3, enc), Ok(1)));
    assert!(matches!(char_index(&rope, 0, 6, enc), Ok(2)));
    assert!(matches!(char_index(&rope, 0, 9, enc), Ok(3)));
    assert!(matches!(char_index(&rope, 0, 10, enc), Ok(3)));
    assert!(matches!(char_index(&rope, 0, 13, enc), Ok(4)));
}

#[test]
fn position_errors_name_the_unit_and_the_length() {
    let rope = Rope::from("你好吗💘");
    assert_eq!(
        char_index(&rope, 0, 14, PositionEncoding::Utf8),
        Err(PositionError::ByteIndexOutOfBounds(14, 13))
    );
    assert_eq!(
        char_index(&rope, 0, 6, PositionEncoding::Utf16),
        Err(PositionError::Utf16IndexOutOfBounds(6, 5))
    );
    assert_eq!(
        char_index(&rope, 3, 0, PositionEncoding::Utf32),
        Err(PositionError::CharIndexOutOfBounds(0, 0))
    );
}

#[test]
fn crlf_and_unicode_breaks_end_lines() {
    let rope = Rope::from("a\r\nb\u{2028}c\rd");
    assert_eq!(char_index(&rope, 1, 0, PositionEncoding::Utf32), Ok(3));
    assert_eq!(char_index(&rope, 2, 0, PositionEncoding::Utf32), Ok(5));
    assert_eq!(char_index(&rope, 3, 0, PositionEncoding::Utf32), Ok(7));
    assert_eq!(char_index(&rope, 4, 0, PositionEncoding::Utf32), Ok(8));
}

#[test]
fn columns_in_each_encoding() {
    let rope = Rope::from("x你💘y");
    assert_eq!(char_to_lsp_col(&rope, 0, 3, PositionEncoding::Utf8), 8);
    assert_eq!(char_to_lsp_col(&rope, 0, 3, PositionEncoding::Utf16), 4);
    assert_eq!(char_to_lsp_col(&rope, 0, 3, PositionEncoding::Utf32), 3);
}

#[test]
fn cursor_stays_in_the_line() {
    let rope = Rope::from("ab你\ncd");
    // the first line holds four characters, its line break included
    assert_eq!(cursor_char(&rope, 0, 5, PositionEncoding::Utf8, 4), 3);
    assert_eq!(cursor_char(&rope, 0, 4, PositionEncoding::Utf8, 4), 2);
    assert_eq!(cursor_char(&rope, 0, 99, PositionEncoding::Utf8, 4), 4);
    assert_eq!(cursor_char(&rope, 0, 99, PositionEncoding::Utf32, 4), 4);
    assert_eq!(cursor_char(&rope, 1, 1, PositionEncoding::Utf16, 2), 1);
}

#[test]
fn encodings_by_their_protocol_names() {
    assert_eq!(PositionEncoding::from_lsp("utf-8"), Some(PositionEncoding::Utf8));
    assert_eq!(PositionEncoding::from_lsp("utf-16"), Some(PositionEncoding::Utf16));
    assert_eq!(PositionEncoding::from_lsp("utf-32"), Some(PositionEncoding::Utf32));
    assert_eq!(PositionEncoding::from_lsp("utf-7"), None);
    assert_eq!(PositionEncoding::Utf16.to_lsp(), "utf-16");
}

#[test]
fn char_count_bounds_utf32_columns() {
    let rope = Rope::from("你好\nab");
    assert_eq!(senime::position::char_count(&rope), 5);
    let col = 1;
    assert!(senime::position::char_count(&rope).checked_add(col).is_some());
    assert_eq!(char_index(&rope, 1, col, PositionEncoding::Utf32), Ok(4));
}

//! Positions in documents, and the characters they count.

use promptls::chars::{char_utf16_width, char_utf8_width, is_white_space};
use promptls::text::{Document, Position, Range};

#[test]
fn roundtrip_ascii() {
    let d = Document::new("abc\ndef".into());
    assert_eq!(d.offset_to_position(5), Position::new(1, 1));
    assert_eq!(d.position_to_offset(Position::new(1, 1)), Some(5));
}

#[test]
fn multibyte_columns_are_utf16() {
    // "日本" = 2 chars, 6 bytes, 2 UTF-16 units. "😀" = 4 bytes, 2 units.
    let d = Document::new("日本😀x".into());
    assert_eq!(d.offset_to_position(6), Position::new(0, 2));
    assert_eq!(d.offset_to_position(10), Position::new(0, 4));
    assert_eq!(d.position_to_offset(Position::new(0, 4)), Some(10));
    // Column beyond line end clamps.
    assert_eq!(d.position_to_offset(Position::new(0, 99)), Some(11));
    // Line beyond document is None.
    assert_eq!(d.position_to_offset(Position::new(3, 0)), None);
}

#[test]
fn trailing_newline_creates_empty_last_line() {
    let d = Document::new("a\n".into());
    assert_eq!(d.offset_to_position(2), Position::new(1, 0));
    assert_eq!(d.position_to_offset(Position::new(1, 0)), Some(2));
}

#[test]
fn every_boundary_round_trips() {
    for text in ["", "\n", "a\n\n日本\r\n😀x\n", "no newline é"] {
        let d = Document::new(text.to_string());
        assert_eq!(d.text(), text);
        for offset in 0..=text.len() {
            if text.is_char_boundary(offset) {
                let p = d.offset_to_position(offset);
                assert_eq!(d.position_to_offset(p), Some(offset), "{text:?} {offset}");
            }
        }
        // Past the end means the end.
        assert_eq!(d.offset_to_position(text.len() + 7), d.offset_to_position(text.len()));
    }
}

#[test]
fn columns_snap_and_clamp() {
    let d = Document::new("a😀b\ncd".into());
    // Inside the surrogate pair of the emoji.
    assert_eq!(d.position_to_offset(Position::new(0, 1)), Some(1));
    assert_eq!(d.position_to_offset(Position::new(0, 2)), Some(1));
    assert_eq!(d.position_to_offset(Position::new(0, 3)), Some(5));
    // Past the end of the first line: right before its line feed.
    assert_eq!(d.position_to_offset(Position::new(0, 4)), Some(6));
    assert_eq!(d.position_to_offset(Position::new(0, 400)), Some(6));
    assert_eq!(d.position_to_offset(Position::new(1, 9)), Some(9));
    assert_eq!(d.position_to_offset(Position::new(2, 0)), None);
    assert_eq!(d.clone().offset_to_position(6), Position::new(0, 4));
    let r = Range::new(Position::new(0, 1), Position::new(0, 3));
    assert_eq!((r.start.character, r.end.character), (1, 3));
}

#[test]
fn character_properties_agree_with_std() {
    for u in 0..=0x10ffffu32 {
        if let Some(c) = char::from_u32(u) {
            assert_eq!(is_white_space(c), c.is_whitespace(), "{u:x}");
            assert_eq!(char_utf8_width(c), c.len_utf8(), "{u:x}");
            assert_eq!(char_utf16_width(c), c.len_utf16(), "{u:x}");
        }
    }
}

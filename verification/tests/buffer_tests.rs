use binocular::buffer::{TextBuffer, TextEditKind, TextUndoFrame};
use binocular::editor::{get_byte_index, get_line_char_from_byte};

#[test]
fn insert_and_delete_update_line_ranges() {
    let mut buffer = TextBuffer::new("abc\ndef".to_string());
    buffer.insert_char(3, '\n');
    assert_eq!(buffer.line_count(), 3);
    assert_eq!(buffer.line_slice(1), Some("\n"));

    let deleted = buffer.delete_char_before(4).unwrap();
    assert_eq!(deleted.text, "\n");
    assert_eq!(buffer.as_str(), "abc\ndef");
    assert_eq!(buffer.line_count(), 2);
}

#[test]
fn delete_range_returns_removed_text() {
    let mut buffer = TextBuffer::new("hello world".to_string());
    let removed = buffer.delete_range(5..11).unwrap();
    assert_eq!(removed, " world");
    assert_eq!(buffer.as_str(), "hello");
}

#[test]
fn byte_index_uses_line_context() {
    let buffer = TextBuffer::new("ab\ncd".to_string());
    assert_eq!(buffer.byte_index(1, 1), 4);
    assert_eq!(buffer.line_char_from_byte(4), (1, 1));
}

#[test]
fn delete_range_handles_multi_line_edits() {
    let mut buffer = TextBuffer::new("one\ntwo\nthree".to_string());
    let start = buffer.byte_index(0, 2);
    let end = buffer.byte_index(1, 2);
    let removed = buffer.delete_range(start..end).unwrap();

    assert_eq!(removed, "e\ntw");
    assert_eq!(buffer.as_str(), "ono\nthree");
    assert_eq!(buffer.line_count(), 2);
}

#[test]
fn line_ranges_include_trailing_empty_line() {
    let buffer = TextBuffer::new("ab\n".to_string());
    assert_eq!(buffer.line_ranges(), &[(0, 3), (3, 3)]);
    let empty = TextBuffer::new(String::new());
    assert_eq!(empty.line_ranges(), &[(0, 0)]);
}

#[test]
fn multibyte_chars_map_bytes_and_chars() {
    let buffer = TextBuffer::new("aé\nü".to_string());
    assert_eq!(buffer.len_bytes(), 6);
    assert_eq!(buffer.byte_index(0, 2), 3);
    assert_eq!(buffer.byte_index(1, 1), 6);
    assert_eq!(buffer.byte_index(0, 9), 4);
    assert_eq!(buffer.byte_index(5, 0), 6);
    assert_eq!(buffer.char_at_byte(1), Some('é'));
    assert_eq!(buffer.char_at_byte(2), None);
    assert_eq!(buffer.char_before_byte(3), Some((1, 'é')));
    assert_eq!(buffer.line_char_from_byte(3), (0, 2));
    assert_eq!(buffer.line_char_from_byte(100), (1, 1));
    assert_eq!(buffer.line_len_chars(0), 2);
}

#[test]
fn insert_rejects_non_boundary() {
    let mut buffer = TextBuffer::new("é".to_string());
    assert!(buffer.insert_text(1, "x".to_string()).is_none());
    assert!(buffer.delete_range(0..1).is_none());
    assert_eq!(buffer.as_str(), "é");
}

#[test]
fn undo_frame_reverses_edit() {
    let mut buffer = TextBuffer::new("hello".to_string());
    let edit = buffer.insert_text(5, " world".to_string()).unwrap();
    assert_eq!(buffer.as_str(), "hello world");
    let frame = TextUndoFrame::from_forward_edit(edit, (0, 5), (0, 11));
    assert_eq!(frame.undo_edit.kind, TextEditKind::Delete);
    assert!(buffer.apply_edit(&frame.undo_edit));
    assert_eq!(buffer.as_str(), "hello");
    assert!(buffer.apply_edit(&frame.redo_edit));
    assert_eq!(buffer.as_str(), "hello world");
    let wrong = binocular::buffer::TextEdit::delete(0, "xyz".to_string());
    assert!(!buffer.apply_edit(&wrong));
}

#[test]
fn line_len_chars_trims_crlf() {
    let buffer = TextBuffer::new("ab\r\ncd".to_string());
    assert_eq!(buffer.line_len_chars(0), 2);
    assert_eq!(buffer.line_len_chars(1), 2);
    assert_eq!(buffer.line_len_chars(2), 0);
}

#[test]
fn byte_and_line_positions_round_trip() {
    let s = "ab\ncd";
    assert_eq!(get_byte_index(s, 1, 0), 3);
    assert_eq!(get_line_char_from_byte(s, 3), (1, 0));
    let t = "h\u{e9}llo\nw\u{f6}rld\n";
    for (l, c) in [(0, 0), (0, 3), (0, 5), (1, 2), (1, 5), (2, 0)] {
        assert_eq!(get_line_char_from_byte(t, get_byte_index(t, l, c)), (l, c));
    }
}

#[test]
fn line_ranges_cover_the_text_line_by_line() {
    let b = TextBuffer::new("a\n\u{e9}b\n\nlast".to_string());
    let r = b.line_ranges().to_vec();
    assert_eq!(r, vec![(0, 2), (2, 6), (6, 7), (7, 11)]);
    assert_eq!(b.line_count(), 4);
    let bytes = b.as_str().as_bytes();
    for (i, &(s, e)) in r.iter().enumerate() {
        let newlines = bytes[s..e].iter().filter(|&&x| x == b'\n').count();
        if i + 1 < r.len() {
            assert_eq!(newlines, 1);
            assert_eq!(bytes[e - 1], b'\n');
        } else {
            assert_eq!(newlines, 0);
        }
    }
}

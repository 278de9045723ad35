use binocular::text::{
    find_first_match_column_in_grep_result, next_char_boundary, prev_char_boundary,
    replace_non_printable, sanitize_text_with_indices, shrink_with_ellipsis,
    slice_at_char_boundaries, slice_up_to_char_boundary, truncate_str_chars,
    try_parse_utf8_char, ReplaceNonPrintableConfig, count_printable_ascii,
};

#[test]
fn truncate_counts_chars() {
    assert_eq!(truncate_str_chars("hello", 10), ("hello", false));
    assert_eq!(truncate_str_chars("hello", 3), ("hel", true));
    assert_eq!(truncate_str_chars("éé", 2), ("éé", false));
}

#[test]
fn char_boundaries() {
    let s = "aéb";
    assert_eq!(next_char_boundary(s, 2), 3);
    assert_eq!(prev_char_boundary(s, 2), 1);
    assert_eq!(next_char_boundary(s, 9), 4);
    assert_eq!(prev_char_boundary(s, 9), 4);
    assert_eq!(slice_at_char_boundaries(s, 2, 2), "é");
    assert_eq!(slice_at_char_boundaries(s, 3, 2), "");
    assert_eq!(slice_up_to_char_boundary(s, 2), "aé");
}

#[test]
fn utf8_char_parsing() {
    assert_eq!(try_parse_utf8_char(b"abc"), Some(('a', 1)));
    assert_eq!(try_parse_utf8_char("é".as_bytes()), Some(('é', 2)));
    assert_eq!(try_parse_utf8_char(&[0xff, 0x41]), None);
    assert_eq!(try_parse_utf8_char(&[]), None);
}

#[test]
fn replace_non_printable_tabs_and_newlines() {
    let cfg = ReplaceNonPrintableConfig::default();
    let (out, offsets) = replace_non_printable(b"a\tb\n", &cfg);
    assert_eq!(out, "a    b");
    assert_eq!(offsets, vec![0, 0, 3, 3]);
    let mut cfg2 = ReplaceNonPrintableConfig::default();
    cfg2.keep_line_feed().tab_width(2);
    let (out2, _) = replace_non_printable(b"\t\n\x01", &cfg2);
    assert_eq!(out2, "  \n\u{2400}");
    let (out3, offs3) = replace_non_printable(&[0xff, b'x'], &cfg);
    assert_eq!(out3, "\u{2400}x");
    assert_eq!(offs3, vec![0, 0]);
}

#[test]
fn sanitize_shifts_indices() {
    let (s, idx) = sanitize_text_with_indices("ab", &[0, 1]);
    assert_eq!(s, "ab");
    assert_eq!(idx, vec![0, 1]);
    let (s2, idx2) = sanitize_text_with_indices("\tab", &[1, 2, 9]);
    assert_eq!(s2, "    ab");
    assert_eq!(idx2, vec![4, 5]);
}

#[test]
fn shrink_adds_ellipsis() {
    assert_eq!(shrink_with_ellipsis("short", 10), "short");
    assert_eq!(shrink_with_ellipsis("abcdefghijklmnop", 10), "abc…nop");
}

#[test]
fn grep_column_after_line_number() {
    assert_eq!(find_first_match_column_in_grep_result("src/a.rs:12:hello", &[1, 13]), Some(2));
    assert_eq!(find_first_match_column_in_grep_result("src/a.rs:12:hello", &[1]), None);
    assert_eq!(find_first_match_column_in_grep_result("a:b:c:7:xy", &[8]), Some(1));
    assert_eq!(find_first_match_column_in_grep_result("no colons", &[0]), None);
}

#[test]
fn printable_count() {
    assert_eq!(count_printable_ascii(b"ab\x00\n"), 3);
}

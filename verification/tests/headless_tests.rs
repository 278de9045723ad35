use binocular::headless::{colorize_chars, format_colored_result};
use binocular::search_types::SearchItem;

#[test]
fn colorize_chars_groups_consecutive_matches() {
    assert_eq!(
        colorize_chars("abcd", &[1, 2]),
        "a\x1b[36mbc\x1b[0md".to_string()
    );
}

#[test]
fn format_colored_result_offsets_grep_content_indices() {
    let item = SearchItem::grep("src/main.rs", 7, "hello world");
    let rendered = format_colored_result(&item, &[0, 1, 14, 15, 16], None, true, "");

    assert!(rendered.contains("\x1b[36msr\x1b[0mc/main.rs"));
    assert!(rendered.contains("\x1b[36mhel\x1b[0mlo world"));
}

#[test]
fn colorize_without_indices_is_identity() {
    assert_eq!(colorize_chars("abc", &[]), "abc");
    assert_eq!(colorize_chars("abc", &[2, 0]), "\x1b[36ma\x1b[0mb\x1b[36mc\x1b[0m");
    assert_eq!(colorize_chars("ab", &[7]), "ab");
}

#[test]
fn grep_result_with_column_is_dimmed() {
    let item = SearchItem::grep("a.rs", 3, "xy\n");
    let rendered = format_colored_result(&item, &[], Some(2), true, "");
    assert_eq!(rendered, "a.rs:3:\x1b[2m2\x1b[0m:xy");
}

#[test]
fn other_items_are_left_to_the_plain_formatter() {
    let item = SearchItem::grep("a.rs", 3, "xy");
    assert_eq!(format_colored_result(&item, &[0], None, false, "a.rs:3:xy"), "a.rs:3:xy");
    let branch = SearchItem::git_branch("main", "abc", "init", true, "now");
    assert_eq!(format_colored_result(&branch, &[0], None, true, "main"), "main");
    let path = SearchItem::path("p");
    assert_eq!(format_colored_result(&path, &[0], None, true, "ignored"), "\x1b[36mp\x1b[0m");
}

use binocular::fs_search::{entry_matches_kind, grep_line, is_ignored_dir, is_pdf_extension, GrepLine, MAX_GREP_LINE_LENGTH};
use binocular::search_types::SearchItem;

#[test]
fn build_and_vcs_directories_are_skipped() {
    assert!(is_ignored_dir(".git"));
    assert!(is_ignored_dir("node_modules"));
    assert!(is_ignored_dir("target"));
    assert!(is_ignored_dir("__pycache__"));
    assert!(!is_ignored_dir("src"));
    assert!(!is_ignored_dir(".github"));
    assert!(!is_ignored_dir(""));
}

#[test]
fn entries_are_taken_by_kind() {
    assert!(entry_matches_kind(Some((true, false)), true));
    assert!(!entry_matches_kind(Some((false, true)), true));
    assert!(entry_matches_kind(Some((false, true)), false));
    assert!(!entry_matches_kind(Some((true, false)), false));
    assert!(!entry_matches_kind(None, false));
    assert!(!entry_matches_kind(None, true));
}

#[test]
fn pdf_extension_ignores_case() {
    assert!(is_pdf_extension(Some("pdf")));
    assert!(is_pdf_extension(Some("PDF")));
    assert!(!is_pdf_extension(Some("pd")));
    assert!(!is_pdf_extension(None));
}

#[test]
fn a_text_line_becomes_a_grep_item() {
    let r = grep_line("a.rs", b"fn main() {\r\n", 13, 4);
    match r {
        GrepLine::Next { item, line } => {
            assert_eq!(line, 5);
            assert_eq!(item, Some(SearchItem::Grep { path: "a.rs".to_string(), line: 5, text: "fn main() {".to_string() }));
        }
        GrepLine::Stop => panic!("text line stopped the file"),
    }
}

#[test]
fn empty_and_invalid_lines_give_no_item() {
    assert!(matches!(grep_line("a", b"\n", 1, 0), GrepLine::Next { item: None, line: 1 }));
    assert!(matches!(grep_line("a", b"\xff\xfe\n", 3, 2), GrepLine::Next { item: None, line: 3 }));
}

#[test]
fn a_nul_byte_stops_the_file() {
    assert!(matches!(grep_line("a", b"ab\0cd\n", 6, 0), GrepLine::Stop));
}

#[test]
fn an_overlong_line_is_cut_and_counted_twice() {
    let mut raw = vec![b'x'; MAX_GREP_LINE_LENGTH + 10];
    raw.push(b'\n');
    let n = raw.len();
    match grep_line("big", &raw, n, 0) {
        GrepLine::Next { item: Some(SearchItem::Grep { line, text, .. }), line: next } => {
            assert_eq!(line, 1);
            assert_eq!(next, 2);
            assert_eq!(text.len(), MAX_GREP_LINE_LENGTH);
        }
        _ => panic!("overlong line lost"),
    }
}

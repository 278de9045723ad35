use binocular::diff_mark::{copy_item, items_equal, marked_diff_paths, toggle_diff_mark, validate_diff_mark};
use binocular::search_types::SearchItem;

#[test]
fn diff_mark_rejects_third_mark() {
    let marked = vec![SearchItem::path("a.txt"), SearchItem::path("b.txt")];
    let message = validate_diff_mark(&marked, &SearchItem::path("c.txt"));
    assert_eq!(
        message,
        Some("Diff mode allows marking at most two files".to_string())
    );
}

#[test]
fn diff_mark_needs_distinct_files() {
    let marked = vec![SearchItem::path("a.txt")];
    assert_eq!(
        validate_diff_mark(&marked, &SearchItem::grep("a.txt", 3, "x")),
        Some("Diff mode requires two distinct files".to_string())
    );
    assert_eq!(
        validate_diff_mark(&marked, &SearchItem::stdin("x")),
        Some("Diff mode only supports file-backed results".to_string())
    );
    assert_eq!(validate_diff_mark(&marked, &SearchItem::path("b.txt")), None);
    let same_file_twice = vec![SearchItem::path("a.txt"), SearchItem::grep("a.txt", 1, "y")];
    assert_eq!(validate_diff_mark(&same_file_twice, &SearchItem::path("b.txt")), None);
}

#[test]
fn diff_marks_two_files_and_requests_diff_preview() {
    let results = vec![SearchItem::path("b.txt"), SearchItem::path("a.txt")];
    let mut marked: Vec<SearchItem> = Vec::new();
    assert_eq!(toggle_diff_mark(&mut marked, &results[0]), None);
    assert_eq!(marked_diff_paths(&marked), None);
    assert_eq!(toggle_diff_mark(&mut marked, &results[1]), None);
    assert_eq!(marked_diff_paths(&marked), Some(("a.txt".to_string(), "b.txt".to_string())));
}

#[test]
fn diff_mark_allows_unmarking_existing_file() {
    let mut marked = vec![SearchItem::path("a.txt")];
    assert_eq!(toggle_diff_mark(&mut marked, &SearchItem::path("a.txt")), None);
    assert!(marked.is_empty());
}

#[test]
fn diff_mark_toggle_reports_refusals() {
    let mut marked = vec![SearchItem::path("a.txt"), SearchItem::grep("b.txt", 2, "x")];
    assert_eq!(
        toggle_diff_mark(&mut marked, &SearchItem::path("c.txt")),
        Some("Diff mode allows marking at most two files".to_string())
    );
    assert_eq!(marked.len(), 2);
    assert_eq!(marked_diff_paths(&marked), Some(("a.txt".to_string(), "b.txt".to_string())));
    assert!(items_equal(&SearchItem::grep("b.txt", 2, "x"), &marked[1]));
    assert!(!items_equal(&SearchItem::grep("b.txt", 3, "x"), &marked[1]));
    assert_eq!(copy_item(&marked[0]), SearchItem::path("a.txt"));
    let three = vec![SearchItem::path("a"), SearchItem::path("b"), SearchItem::path("c")];
    assert_eq!(marked_diff_paths(&three), None);
    let same = vec![SearchItem::path("z"), SearchItem::grep("z", 1, "t"), SearchItem::stdin("q")];
    assert_eq!(marked_diff_paths(&same), None);
}

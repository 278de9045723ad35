use binocular::preview_sync::{
    can_focus_preview, center_preview_on_line, check_infinite_scroll, focus_cursor_line, preview_arrival, toggle_window_mode,
    PreviewArrival, PreviewKind, WindowToggle, preview_source_for, scroll_preview_page, sources_equal, sync_preview,
    PreviewSource, PreviewSyncState,
};
use binocular::search_types::SearchItem;

fn fresh() -> PreviewSyncState {
    PreviewSyncState { source: None, content_stale: false, scroll: 7, highlight_line: None }
}

fn is_grep_source(s: &PreviewSource, path: &str, line: usize, text: &str) -> bool {
    sources_equal(s, &PreviewSource::SearchItem(SearchItem::grep(path, line, text)))
}

#[test]
fn grep_matcher_state_syncs_preview_request_and_highlight() {
    let mut st = fresh();
    let item = SearchItem::grep("src/main.rs", 24, "fn main()");
    let request = sync_preview(&mut st, true, None, Some(&item), true, true, 38).expect("preview request");
    assert!(is_grep_source(&request, "src/main.rs", 24, "fn main()"));
    assert_eq!(st.highlight_line, Some(24));
    assert!(st.content_stale);
}

#[test]
fn git_history_matcher_state_syncs_history_preview_request() {
    let mut st = fresh();
    let item = SearchItem::history_line("abc123", "Architecture.md", 24, "fn main()");
    let request = sync_preview(&mut st, true, None, Some(&item), true, true, 38).expect("preview request");
    let expected = PreviewSource::GitHistory { commit: "abc123".to_string(), path: "Architecture.md".to_string(), line: 24 };
    assert!(sources_equal(&request, &expected));
    assert_eq!(st.highlight_line, Some(24));
}

#[test]
fn the_same_source_is_not_requested_twice() {
    let mut st = fresh();
    let item = SearchItem::grep("a.rs", 50, "x");
    assert!(sync_preview(&mut st, true, None, Some(&item), true, true, 22).is_some());
    assert_eq!(st.scroll, 40);
    st.content_stale = false;
    st.scroll = 3;
    assert!(sync_preview(&mut st, true, None, Some(&item), true, false, 22).is_none());
    assert!(!st.content_stale);
    assert_eq!(st.scroll, 3);
    assert!(sync_preview(&mut st, true, None, Some(&item), true, true, 22).is_none());
    assert_eq!(st.scroll, 40);
}

#[test]
fn marked_diff_takes_over_and_hidden_preview_clears() {
    let mut st = fresh();
    let item = SearchItem::path("a.rs");
    let req = sync_preview(&mut st, true, Some(("a".to_string(), "b".to_string())), Some(&item), false, true, 20);
    let diff = PreviewSource::Diff { left: "a".to_string(), right: "b".to_string() };
    assert!(sources_equal(&req.unwrap(), &diff));
    assert_eq!(st.scroll, 0);
    assert!(sync_preview(&mut st, true, Some(("a".to_string(), "b".to_string())), None, false, true, 20).is_none());
    assert!(sync_preview(&mut st, false, None, Some(&item), false, true, 20).is_none());
    assert!(st.source.is_none());
    let mut idle = fresh();
    assert!(sync_preview(&mut idle, true, None, None, true, true, 20).is_none());
    assert_eq!(idle.scroll, 7);
}

#[test]
fn preview_scrolling_and_focus() {
    assert_eq!(center_preview_on_line(24, 38), 6);
    assert_eq!(center_preview_on_line(5, 38), 0);
    assert_eq!(center_preview_on_line(30, 1), 20);
    assert_eq!(scroll_preview_page(0, 100, 22, true), 21);
    assert_eq!(scroll_preview_page(70, 100, 22, true), 80);
    assert_eq!(scroll_preview_page(10, 100, 22, false), 0);
    assert_eq!(scroll_preview_page(30, 100, 22, false), 9);
    assert_eq!(focus_cursor_line(Some(24), 3), 23);
    assert_eq!(focus_cursor_line(None, 3), 3);
    let b = SearchItem::GitBranch {
        branch: "main".to_string(),
        commit: "c".to_string(),
        subject: "s".to_string(),
        is_head: true,
        relative_time: "now".to_string(),
    };
    assert!(sources_equal(&preview_source_for(&b), &PreviewSource::GitBranch { branch: "main".to_string() }));
}

#[test]
fn preview_focus_stays_on_search_for_read_only_preview() {
    let src = Some(PreviewSource::SearchItem(SearchItem::path("a.png")));
    let can = can_focus_preview(&src, Some(PreviewKind::Image));
    assert!(!can);
    assert_eq!(toggle_window_mode(true, false, false, can, None, 0), WindowToggle::ReadOnly);
}

#[test]
fn preview_focus_moves_to_text_preview() {
    let src = Some(PreviewSource::SearchItem(SearchItem::path("a.rs")));
    let can = can_focus_preview(&src, Some(PreviewKind::RichText));
    assert!(can);
    assert_eq!(toggle_window_mode(true, false, false, can, Some(12), 0), WindowToggle::FocusPreview { cursor_line: 11 });
    assert_eq!(toggle_window_mode(true, false, false, can, None, 4), WindowToggle::FocusPreview { cursor_line: 4 });
    assert_eq!(toggle_window_mode(false, false, false, can, None, 4), WindowToggle::FocusSearch);
    assert_eq!(toggle_window_mode(true, true, true, can, None, 4), WindowToggle::LeaveFullscreen);
    assert_eq!(toggle_window_mode(true, false, true, can, None, 4), WindowToggle::LeavePreview);
    assert!(can_focus_preview(&None, None));
}

#[test]
fn git_history_rich_text_preview_stays_read_only() {
    let source = PreviewSource::GitHistory { commit: "HEAD".to_string(), path: "Architecture.md".to_string(), line: 2 };
    let current = Some(PreviewSource::GitHistory { commit: "HEAD".to_string(), path: "Architecture.md".to_string(), line: 2 });
    assert_eq!(preview_arrival(&current, &source, PreviewKind::RichText, true), PreviewArrival::ShownReadOnly);
    assert!(!can_focus_preview(&current, Some(PreviewKind::RichText)));
}

#[test]
fn previews_arrive_for_their_source_only() {
    let a = PreviewSource::SearchItem(SearchItem::path("a.rs"));
    let current = Some(PreviewSource::SearchItem(SearchItem::path("b.rs")));
    assert_eq!(preview_arrival(&current, &a, PreviewKind::RichText, false), PreviewArrival::Stale);
    let current = Some(PreviewSource::SearchItem(SearchItem::path("a.rs")));
    assert_eq!(preview_arrival(&current, &a, PreviewKind::RichText, true), PreviewArrival::Shown);
    assert_eq!(preview_arrival(&current, &a, PreviewKind::StructuredLog, true), PreviewArrival::Shown);
    assert_eq!(preview_arrival(&current, &a, PreviewKind::Diff, false), PreviewArrival::Shown);
}

#[test]
fn result_limit_grows_near_the_end() {
    let mut limit = 100u32;
    assert_eq!(check_infinite_scroll(500, &mut limit, 95, 100), Some(200));
    assert_eq!(limit, 200);
    assert_eq!(check_infinite_scroll(500, &mut limit, 50, 200), None);
    assert_eq!(check_infinite_scroll(150, &mut limit, 199, 200), None);
    assert_eq!(limit, 200);
}

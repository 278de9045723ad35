//! Keeping the preview in step with the search: which source the preview
//! shows for the selected result (or for two files marked for a diff),
//! when a new preview must be requested, and where the preview scrolls.
use vstd::prelude::*;
use crate::chars::{str_eq, to_owned_string};
use crate::diff_mark::{copy_item, items_equal, same_item};
use crate::search_types::SearchItem;

verus! {

/// What a preview shows: a search result, the diff of two files, a file at
/// a commit (scrolled to a line), a branch, or a commit.
pub enum PreviewSource {
    SearchItem(SearchItem),
    Diff { left: String, right: String },
    GitHistory { commit: String, path: String, line: usize },
    GitBranch { branch: String },
    GitCommit { commit: String },
}

/// The two sources are the same.
pub open spec fn same_source(a: PreviewSource, b: PreviewSource) -> bool {
    match (a, b) {
        (PreviewSource::SearchItem(x), PreviewSource::SearchItem(y)) => same_item(x, y),
        (PreviewSource::Diff { left: l1, right: r1 }, PreviewSource::Diff { left: l2, right: r2 }) => l1@ == l2@ && r1@ == r2@,
        (
            PreviewSource::GitHistory { commit: c1, path: p1, line: n1 },
            PreviewSource::GitHistory { commit: c2, path: p2, line: n2 },
        ) => c1@ == c2@ && p1@ == p2@ && n1 == n2,
        (PreviewSource::GitBranch { branch: b1 }, PreviewSource::GitBranch { branch: b2 }) => b1@ == b2@,
        (PreviewSource::GitCommit { commit: c1 }, PreviewSource::GitCommit { commit: c2 }) => c1@ == c2@,
        _ => false,
    }
}

/// Whether the two sources are the same (see `same_source`).
pub fn sources_equal(a: &PreviewSource, b: &PreviewSource) -> (r: bool)
    ensures
        r == same_source(*a, *b),
{
    match (a, b) {
        (PreviewSource::SearchItem(x), PreviewSource::SearchItem(y)) => items_equal(x, y),
        (PreviewSource::Diff { left: l1, right: r1 }, PreviewSource::Diff { left: l2, right: r2 }) => str_eq(l1, l2) && str_eq(r1, r2),
        (
            PreviewSource::GitHistory { commit: c1, path: p1, line: n1 },
            PreviewSource::GitHistory { commit: c2, path: p2, line: n2 },
        ) => str_eq(c1, c2) && str_eq(p1, p2) && *n1 == *n2,
        (PreviewSource::GitBranch { branch: b1 }, PreviewSource::GitBranch { branch: b2 }) => str_eq(b1, b2),
        (PreviewSource::GitCommit { commit: c1 }, PreviewSource::GitCommit { commit: c2 }) => str_eq(c1, c2),
        _ => false,
    }
}

/// The source the result `item` is previewed from (`source_of` holds of
/// it: a git result by its commit, file and line, branch or commit, any
/// other result as itself).
pub open spec fn is_source_of(s: PreviewSource, item: SearchItem) -> bool {
    match item {
        SearchItem::GitHistory { commit, path, line, .. } =>
            s matches PreviewSource::GitHistory { commit: c, path: p, line: n } && c@ == commit@ && p@ == path@ && n == line,
        SearchItem::GitBranch { branch, .. } => s matches PreviewSource::GitBranch { branch: b } && b@ == branch@,
        SearchItem::GitCommit { commit, .. } => s matches PreviewSource::GitCommit { commit: c } && c@ == commit@,
        _ => s matches PreviewSource::SearchItem(x) && same_item(x, item),
    }
}

/// The source the result `item` is previewed from (see `is_source_of`).
pub fn preview_source_for(item: &SearchItem) -> (s: PreviewSource)
    ensures
        is_source_of(s, *item),
{
    match item {
        SearchItem::GitHistory { commit, path, line, .. } =>
            PreviewSource::GitHistory { commit: to_owned_string(commit), path: to_owned_string(path), line: *line },
        SearchItem::GitBranch { branch, .. } => PreviewSource::GitBranch { branch: to_owned_string(branch) },
        SearchItem::GitCommit { commit, .. } => PreviewSource::GitCommit { commit: to_owned_string(commit) },
        _ => PreviewSource::SearchItem(copy_item(item)),
    }
}

/// A copy of a source.
fn copy_source(s: &PreviewSource) -> (r: PreviewSource)
    ensures
        same_source(r, *s),
{
    match s {
        PreviewSource::SearchItem(x) => PreviewSource::SearchItem(copy_item(x)),
        PreviewSource::Diff { left, right } => PreviewSource::Diff { left: to_owned_string(left), right: to_owned_string(right) },
        PreviewSource::GitHistory { commit, path, line } =>
            PreviewSource::GitHistory { commit: to_owned_string(commit), path: to_owned_string(path), line: *line },
        PreviewSource::GitBranch { branch } => PreviewSource::GitBranch { branch: to_owned_string(branch) },
        PreviewSource::GitCommit { commit } => PreviewSource::GitCommit { commit: to_owned_string(commit) },
    }
}

/// The scroll that puts line `line` in the middle of a preview
/// `preview_height` rows high (inside its borders; 20 rows when too small).
pub open spec fn centered(line: int, preview_height: int) -> int {
    let h = if preview_height > 2 { preview_height - 2 } else { 20 };
    if line >= h / 2 { line - h / 2 } else { 0 }
}

/// Centering keeps the line in view: the scroll is at most the line, and
/// the line sits half the visible rows below the top (or higher, near the
/// start of the text, where the scroll is 0).
pub proof fn lemma_centered_line_in_view(line: int, preview_height: int)
    requires
        0 <= line,
    ensures
        ({
            let h = if preview_height > 2 { preview_height - 2 } else { 20 };
            let c = centered(line, preview_height);
            &&& 0 <= c <= line
            &&& line - c <= h / 2
            &&& (line >= h / 2 ==> line - c == h / 2)
            &&& (line < h / 2 ==> c == 0)
            &&& line - c < h
        }),
{
}

/// The scroll that centers the preview on line `line` (see `centered`).
pub fn center_preview_on_line(line: usize, preview_height: u16) -> (r: usize)
    ensures
        r == centered(line as int, preview_height as int),
{
    let h: usize = if preview_height > 2 { (preview_height - 2) as usize } else { 20 };
    if line >= h / 2 { line - h / 2 } else { 0 }
}

/// A page up or down moves the preview this many lines.
pub const SCROLL_LINES: usize = 21;

/// The scroll after a page down (at most to where the last page shows the
/// last line) or up (at least to the top), for `total` lines in a preview
/// `preview_height` rows high.
pub fn scroll_preview_page(scroll: usize, total: usize, preview_height: u16, down: bool) -> (r: usize)
    requires
        down ==> scroll + SCROLL_LINES <= usize::MAX,
    ensures
        ({
            let page = if preview_height >= 2 { preview_height - 2 } else { 0 };
            let max_scroll = if total >= page { total - page } else { 0 };
            r == (if down {
                if scroll + SCROLL_LINES < max_scroll { scroll + SCROLL_LINES } else { max_scroll }
            } else if scroll >= SCROLL_LINES {
                scroll - SCROLL_LINES
            } else {
                0
            })
        }),
{
    let page: usize = if preview_height >= 2 { (preview_height - 2) as usize } else { 0 };
    if down {
        let max_scroll = if total >= page { total - page } else { 0 };
        let next = scroll + SCROLL_LINES;
        if next < max_scroll { next } else { max_scroll }
    } else if scroll >= SCROLL_LINES {
        scroll - SCROLL_LINES
    } else {
        0
    }
}

/// The cursor line when the preview takes the focus: the line the search
/// jumped to (zero-based), else the first line shown.
pub fn focus_cursor_line(highlight_line: Option<usize>, scroll: usize) -> (r: usize)
    ensures
        r == (match highlight_line {
            Some(l) => if l >= 1 { (l - 1) as int } else { 0 },
            None => scroll as int,
        }),
{
    match highlight_line {
        Some(l) => if l >= 1 { l - 1 } else { 0 },
        None => scroll,
    }
}

/// What the preview shows and where: its source (`None` when hidden),
/// whether its content must be loaded anew, its scroll and the line the
/// search jumped to.
pub struct PreviewSyncState {
    pub source: Option<PreviewSource>,
    pub content_stale: bool,
    pub scroll: usize,
    pub highlight_line: Option<usize>,
}

/// There is a source, and it is the diff of `l` and `r`.
pub open spec fn is_diff_of(o: Option<PreviewSource>, l: Seq<char>, r: Seq<char>) -> bool {
    match o {
        Some(PreviewSource::Diff { left, right }) => left@ == l && right@ == r,
        _ => false,
    }
}

/// There is a source, and it is that of `item`.
pub open spec fn is_opt_source_of(o: Option<PreviewSource>, item: SearchItem) -> bool {
    match o {
        Some(x) => is_source_of(x, item),
        None => false,
    }
}

/// Brings the preview in step with the search: hidden, it shows nothing;
/// with two files marked for a diff, their diff from the top; else the
/// selected result (when there is one), in content searches at its line.
/// A source other than the one shown marks the content stale and is
/// returned, to be requested.
pub fn sync_preview(
    st: &mut PreviewSyncState,
    show_preview: bool,
    diff_paths: Option<(String, String)>,
    selected: Option<&SearchItem>,
    content_mode: bool,
    search_focused: bool,
    preview_height: u16,
) -> (r: Option<PreviewSource>)
    ensures
        !show_preview ==> r is None && final(st).source is None && final(st).content_stale
            && final(st).highlight_line is None && final(st).scroll == old(st).scroll,
        show_preview && diff_paths is Some ==> ({
            let (l, rt) = diff_paths->0;
            let shown = is_diff_of(old(st).source, l@, rt@);
            &&& is_diff_of(final(st).source, l@, rt@)
            &&& (shown ==> r is None && final(st).content_stale == old(st).content_stale)
            &&& (!shown ==> final(st).content_stale && is_diff_of(r, l@, rt@))
            &&& final(st).scroll == 0
            &&& final(st).highlight_line is None
        }),
        show_preview && diff_paths is None && selected is None ==> r is None && *final(st) == *old(st),
        show_preview && diff_paths is None && selected is Some ==> ({
            let item = *selected->0;
            let line = match item {
                SearchItem::Grep { line, .. } => line as int,
                SearchItem::GitHistory { line, .. } => line as int,
                _ => 0,
            };
            let shown = is_opt_source_of(old(st).source, item);
            &&& is_opt_source_of(final(st).source, item)
            &&& (shown ==> r is None && final(st).content_stale == old(st).content_stale)
            &&& (!shown ==> final(st).content_stale && is_opt_source_of(r, item))
            &&& final(st).highlight_line == (if content_mode && line > 0 { Some(line as usize) } else { None::<usize> })
            &&& final(st).scroll == (if !shown {
                if content_mode && line > 0 { centered(line, preview_height as int) } else { 0 }
            } else if content_mode && line > 0 && search_focused {
                centered(line, preview_height as int)
            } else {
                old(st).scroll as int
            })
        }),
{
    if !show_preview {
        st.source = None;
        st.content_stale = true;
        st.highlight_line = None;
        return None;
    }
    match diff_paths {
        Some((left, right)) => {
            let src = PreviewSource::Diff { left, right };
            let shown = match &st.source {
                Some(cur) => sources_equal(&src, cur),
                None => false,
            };
            let mut req: Option<PreviewSource> = None;
            if !shown {
                req = Some(copy_source(&src));
                st.source = Some(src);
                st.content_stale = true;
            }
            st.scroll = 0;
            st.highlight_line = None;
            return req;
        },
        None => {},
    }
    let item = match selected {
        Some(i) => i,
        None => return None,
    };
    let src = preview_source_for(item);
    let line_num = match item.grep_line() {
        Some(l) => l,
        None => 0,
    };
    let shown = match &st.source {
        Some(cur) => sources_equal(&src, cur),
        None => false,
    };
    proof {
        if st.source is Some {
            lemma_source_unique(src, st.source->0, *item);
        }
    }
    if !shown {
        let req = copy_source(&src);
        proof {
            lemma_same_source_keeps(src, req, *item);
        }
        st.source = Some(src);
        st.content_stale = true;
        if content_mode && line_num > 0 {
            st.scroll = center_preview_on_line(line_num, preview_height);
            st.highlight_line = Some(line_num);
        } else {
            st.scroll = 0;
            st.highlight_line = None;
        }
        Some(req)
    } else {
        if content_mode && line_num > 0 {
            st.highlight_line = Some(line_num);
            if search_focused {
                st.scroll = center_preview_on_line(line_num, preview_height);
            }
        } else {
            st.highlight_line = None;
        }
        None
    }
}

proof fn lemma_same_item_symmetric_transitive(a: SearchItem, b: SearchItem, c: SearchItem)
    ensures
        same_item(a, b) ==> same_item(b, a),
        same_item(a, b) && same_item(b, c) ==> same_item(a, c),
{
}

/// A source that is that of `item` is the same as another exactly when the
/// other is that of `item` too.
proof fn lemma_source_unique(s: PreviewSource, x: PreviewSource, item: SearchItem)
    requires
        is_source_of(s, item),
    ensures
        same_source(s, x) == is_source_of(x, item),
{
    match (s, x) {
        (PreviewSource::SearchItem(a), PreviewSource::SearchItem(b)) => {
            lemma_same_item_symmetric_transitive(a, item, b);
            lemma_same_item_symmetric_transitive(b, a, item);
            lemma_same_item_symmetric_transitive(item, a, b);
            lemma_same_item_symmetric_transitive(a, b, item);
        },
        _ => {},
    }
}

/// A copy of the source of `item` is a source of `item`.
proof fn lemma_same_source_keeps(s: PreviewSource, t: PreviewSource, item: SearchItem)
    requires
        is_source_of(s, item),
        same_source(t, s),
    ensures
        is_source_of(t, item),
{
    match (s, t) {
        (PreviewSource::SearchItem(a), PreviewSource::SearchItem(b)) => {
            lemma_same_item_symmetric_transitive(b, a, item);
        },
        _ => {},
    }
}

/// What kind of content a preview holds.
#[derive(Debug, Clone, Copy, PartialEq, Eq, Structural)]
pub enum PreviewKind {
    RichText,
    StructuredLog,
    Diff,
    PlainText,
    Image,
    Media,
}

/// The preview can take the focus: not a file at a commit; editable text,
/// a log, or nothing loaded yet.
pub open spec fn focusable(source: Option<PreviewSource>, kind: Option<PreviewKind>) -> bool {
    if source matches Some(PreviewSource::GitHistory { .. }) {
        false
    } else {
        match kind {
            Some(PreviewKind::RichText) | Some(PreviewKind::StructuredLog) | None => true,
            _ => false,
        }
    }
}

/// Whether the preview can take the focus (see `focusable`).
pub fn can_focus_preview(source: &Option<PreviewSource>, kind: Option<PreviewKind>) -> (b: bool)
    ensures
        b == focusable(*source, kind),
{
    match source {
        Some(PreviewSource::GitHistory { .. }) => return false,
        _ => {},
    }
    match kind {
        Some(PreviewKind::RichText) | Some(PreviewKind::StructuredLog) | None => true,
        _ => false,
    }
}

/// What switching between the search and the preview does.
#[derive(Debug, Clone, Copy, PartialEq, Eq, Structural)]
pub enum WindowToggle {
    /// No preview: the search keeps the focus.
    FocusSearch,
    /// The full-screen preview gives the focus back to the search.
    LeaveFullscreen,
    /// The focused preview gives the focus back to the search.
    LeavePreview,
    /// The preview cannot take the focus: the search keeps it, with a note.
    ReadOnly,
    /// The preview takes the focus, its cursor at the start of this line.
    FocusPreview { cursor_line: usize },
}

/// What switching the focus does (checked in this order): nothing to
/// focus without a preview; back to the search from a full-screen or
/// focused preview; refused for a read-only preview; else the preview
/// takes the focus at the line the search jumped to, or at the first line
/// shown.
pub fn toggle_window_mode(
    show_preview: bool,
    fullscreen: bool,
    preview_focused: bool,
    can_focus: bool,
    highlight_line: Option<usize>,
    scroll: usize,
) -> (r: WindowToggle)
    ensures
        r == (if !show_preview {
            WindowToggle::FocusSearch
        } else if fullscreen {
            WindowToggle::LeaveFullscreen
        } else if preview_focused {
            WindowToggle::LeavePreview
        } else if !can_focus {
            WindowToggle::ReadOnly
        } else {
            WindowToggle::FocusPreview {
                cursor_line: match highlight_line {
                    Some(l) => if l >= 1 { (l - 1) as usize } else { 0 },
                    None => scroll,
                },
            }
        }),
{
    if !show_preview {
        WindowToggle::FocusSearch
    } else if fullscreen {
        WindowToggle::LeaveFullscreen
    } else if preview_focused {
        WindowToggle::LeavePreview
    } else if !can_focus {
        WindowToggle::ReadOnly
    } else {
        WindowToggle::FocusPreview { cursor_line: focus_cursor_line(highlight_line, scroll) }
    }
}

/// What a finished preview does when it arrives.
#[derive(Debug, Clone, Copy, PartialEq, Eq, Structural)]
pub enum PreviewArrival {
    /// It is for another source than the one shown: dropped.
    Stale,
    /// It is shown.
    Shown,
    /// It is shown, and the focus goes back to the search: it cannot be
    /// edited.
    ShownReadOnly,
}

/// What a preview of `source` holding `kind` does when the preview shows
/// `current`: dropped when stale; else shown, and a focused preview gives
/// the focus back unless it is editable text (not a file at a commit) or a
/// log.
pub fn preview_arrival(current: &Option<PreviewSource>, source: &PreviewSource, kind: PreviewKind, preview_focused: bool)
    -> (r: PreviewArrival)
    ensures
        r == (if !(*current matches Some(c) && same_source(c, *source)) {
            PreviewArrival::Stale
        } else if preview_focused && !(kind == PreviewKind::RichText && !(source is GitHistory)) && kind != PreviewKind::StructuredLog {
            PreviewArrival::ShownReadOnly
        } else {
            PreviewArrival::Shown
        }),
{
    let same = match current {
        Some(c) => sources_equal(c, source),
        None => false,
    };
    if !same {
        return PreviewArrival::Stale;
    }
    let is_history = match source {
        PreviewSource::GitHistory { .. } => true,
        _ => false,
    };
    let rich = kind == PreviewKind::RichText && !is_history;
    let log = kind == PreviewKind::StructuredLog;
    if preview_focused && !rich && !log {
        PreviewArrival::ShownReadOnly
    } else {
        PreviewArrival::Shown
    }
}

/// When the selection comes within ten results of the end of the results
/// loaded and more matches exist than the limit, the limit grows by 100;
/// the new limit is returned, for the matcher.
pub fn check_infinite_scroll(total_matches: u64, item_limit: &mut u32, selection: usize, results_len: usize) -> (r: Option<u32>)
    requires
        *old(item_limit) + 100 <= u32::MAX,
    ensures
        ({
            let near_end = selection >= (if results_len >= 10 { results_len - 10 } else { 0 });
            if total_matches > *old(item_limit) && near_end {
                *final(item_limit) == *old(item_limit) + 100 && r == Some(*final(item_limit))
            } else {
                *final(item_limit) == *old(item_limit) && r is None
            }
        }),
{
    let threshold = if results_len >= 10 { results_len - 10 } else { 0 };
    if total_matches > *item_limit as u64 && selection >= threshold {
        *item_limit = *item_limit + 100;
        Some(*item_limit)
    } else {
        None
    }
}

} // verus!

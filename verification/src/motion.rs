//! Cursor motions of the preview editor.
use vstd::prelude::*;
use crate::editor::{
    adjust_scroll, get_line_content, get_line_count, line_len, line_count_of, line_length,
    line_of, same_but_cursor, same_but_position, sat_sub, scroll_fits, scroll_for,
    viewport_height, App, DocIter, char_at_pos, class_at, next_pos, prev_pos, line_size,
};
use crate::chars::{chars_of, is_whitespace, is_ws};

verus! {

/// The cursor of `app`, as integers.
pub open spec fn cursor_at(app: &App) -> (int, int) {
    (app.state.cursor_line as int, app.state.cursor_char as int)
}

/// The smaller of `a` and `b`.
pub open spec fn min(a: int, b: int) -> int {
    if a < b { a } else { b }
}

/// `b` is `a` with the cursor at `(line, ch)` and the view scrolled to it.
pub open spec fn moved_to(a: &App, b: &App, line: int, ch: int) -> bool {
    &&& cursor_at(b) == (line, ch)
    &&& (b.state.scroll as int, b.state.scroll_char as int) == scroll_for(a, line, ch)
    &&& same_but_position(a, b)
}

/// What moving down `n` lines does.
pub open spec fn moved_down(a: &App, b: &App, n: int) -> bool {
    let lc = line_count_of(a);
    if lc == 0 {
        *b == *a
    } else {
        let l = min(a.state.cursor_line + n, lc - 1);
        moved_to(a, b, l, min(a.state.cursor_char as int, sat_sub(line_length(a, l), 1)))
    }
}

/// What moving up `n` lines does.
pub open spec fn moved_up(a: &App, b: &App, n: int) -> bool {
    let lc = line_count_of(a);
    if lc == 0 {
        *b == *a
    } else {
        let l = sat_sub(a.state.cursor_line as int, n);
        moved_to(a, b, l, min(a.state.cursor_char as int, sat_sub(line_length(a, l), 1)))
    }
}

proof fn lemma_line_length_bound(app: &App, i: int)
    ensures
        0 <= line_length(app, i),
        line_of(app, i) is Some ==> line_length(app, i) <= line_of(app, i)->0.len(),
{
    if line_of(app, i) is Some {
        crate::editor::lemma_trim_newlines_len(line_of(app, i)->0);
    }
}

/// Moves the cursor down `count` lines (to the last line at most), keeping
/// its column within the line.
pub fn move_down(app: &mut App, count: usize)
    requires
        old(app).state.cursor_line + count <= usize::MAX,
        scroll_fits(old(app)),
    ensures
        moved_down(old(app), final(app), count as int),
{
    let line_count = get_line_count(app);
    if line_count == 0 {
        return ;
    }
    let target = app.state.cursor_line + count;
    app.state.cursor_line = if target < line_count - 1 { target } else { line_count - 1 };
    let len = line_len(app, app.state.cursor_line);
    let max_idx = if len > 0 { len - 1 } else { 0 };
    if app.state.cursor_char > max_idx {
        app.state.cursor_char = max_idx;
    }
    proof {
        lemma_line_length_bound(app, app.state.cursor_line as int);
    }
    adjust_scroll(app);
}

/// Moves the cursor up `count` lines (to the first line at most), keeping
/// its column within the line.
pub fn move_up(app: &mut App, count: usize)
    requires
        sat_sub(old(app).state.cursor_line as int, count as int) < usize::MAX,
        scroll_fits(old(app)),
    ensures
        moved_up(old(app), final(app), count as int),
{
    let line_count = get_line_count(app);
    if line_count == 0 {
        return ;
    }
    app.state.cursor_line = if app.state.cursor_line >= count { app.state.cursor_line - count } else { 0 };
    let len = line_len(app, app.state.cursor_line);
    let max_idx = if len > 0 { len - 1 } else { 0 };
    if app.state.cursor_char > max_idx {
        app.state.cursor_char = max_idx;
    }
    proof {
        lemma_line_length_bound(app, app.state.cursor_line as int);
    }
    adjust_scroll(app);
}

/// Moves the cursor `count` chars left (to the start of the line at most).
pub fn move_left(app: &mut App, count: usize)
    ensures
        cursor_at(final(app)) == (old(app).state.cursor_line as int, sat_sub(old(app).state.cursor_char as int, count as int)),
        same_but_cursor(old(app), final(app)),
{
    app.state.cursor_char = if app.state.cursor_char >= count { app.state.cursor_char - count } else { 0 };
}

/// Moves the cursor `count` chars right (to the last char of the line at most).
pub fn move_right(app: &mut App, count: usize)
    requires
        old(app).state.cursor_char + count <= usize::MAX,
        old(app).state.cursor_line < usize::MAX,
        scroll_fits(old(app)),
    ensures
        moved_to(old(app), final(app), old(app).state.cursor_line as int, min(
            old(app).state.cursor_char + count,
            sat_sub(line_length(old(app), old(app).state.cursor_line as int), 1),
        )),
{
    let len = line_len(app, app.state.cursor_line);
    let max_idx = if len > 0 { len - 1 } else { 0 };
    let target = app.state.cursor_char + count;
    app.state.cursor_char = if target < max_idx { target } else { max_idx };
    adjust_scroll(app);
}

/// Moves the cursor to the start of its line.
pub fn move_start_of_line(app: &mut App)
    ensures
        cursor_at(final(app)) == (old(app).state.cursor_line as int, 0int),
        same_but_cursor(old(app), final(app)),
{
    app.state.cursor_char = 0;
}

/// Moves the cursor to the last char of its line.
pub fn move_end_of_line(app: &mut App)
    requires
        old(app).state.cursor_line < usize::MAX,
        scroll_fits(old(app)),
    ensures
        moved_to(old(app), final(app), old(app).state.cursor_line as int, sat_sub(
            line_length(old(app), old(app).state.cursor_line as int),
            1,
        )),
{
    let len = line_len(app, app.state.cursor_line);
    app.state.cursor_char = if len > 0 { len - 1 } else { 0 };
    adjust_scroll(app);
}

/// Moves the cursor past the last char of its line (where typing appends).
pub fn move_end_of_line_for_insert(app: &mut App)
    ensures
        cursor_at(final(app)) == (old(app).state.cursor_line as int, line_length(old(app), old(app).state.cursor_line as int)),
        same_but_cursor(old(app), final(app)),
{
    app.state.cursor_char = line_len(app, app.state.cursor_line);
}

/// Moves down `count` half screens.
pub fn move_half_page_down(app: &mut App, count: usize)
    requires
        (viewport_height(old(app)) / 2) * count <= usize::MAX,
        old(app).state.cursor_line + (viewport_height(old(app)) / 2) * count <= usize::MAX,
        scroll_fits(old(app)),
    ensures
        moved_down(old(app), final(app), (viewport_height(old(app)) / 2) * count),
{
    let height: u16 = if app.preview_height > 2 { app.preview_height - 2 } else { 1 };
    let half = (height / 2) as usize;
    proof {
        assert(half * count <= usize::MAX);
    }
    move_down(app, half * count);
}

/// Moves up `count` half screens.
pub fn move_half_page_up(app: &mut App, count: usize)
    requires
        (viewport_height(old(app)) / 2) * count <= usize::MAX,
        sat_sub(old(app).state.cursor_line as int, (viewport_height(old(app)) / 2) * count) < usize::MAX,
        scroll_fits(old(app)),
    ensures
        moved_up(old(app), final(app), (viewport_height(old(app)) / 2) * count),
{
    let height: u16 = if app.preview_height > 2 { app.preview_height - 2 } else { 1 };
    let half = (height / 2) as usize;
    move_up(app, half * count);
}

/// Moves the cursor to line `count` (1-based) when `count` is above 1, else
/// to the last line.
pub fn move_to_end_of_file(app: &mut App, count: usize)
    ensures
        line_count_of(old(app)) == 0 ==> *final(app) == *old(app),
        line_count_of(old(app)) > 0 ==> {
            &&& final(app).state.cursor_line == (if count > 1 {
                min(count - 1, line_count_of(old(app)) - 1)
            } else {
                line_count_of(old(app)) - 1
            })
            &&& final(app).state.cursor_char == old(app).state.cursor_char
            &&& same_but_cursor(old(app), final(app))
        },
{
    let line_count = get_line_count(app);
    if line_count == 0 {
        return ;
    }
    if count > 1 {
        app.state.cursor_line = if count - 1 < line_count - 1 { count - 1 } else { line_count - 1 };
    } else {
        app.state.cursor_line = line_count - 1;
    }
}

/// Moves the cursor to line `count` (1-based) when `count` is above 1, else
/// to the first line.
pub fn move_to_start_of_file(app: &mut App, count: usize)
    ensures
        count > 1 && line_count_of(old(app)) == 0 ==> *final(app) == *old(app),
        !(count > 1 && line_count_of(old(app)) == 0) ==> {
            &&& final(app).state.cursor_line == (if count > 1 {
                min(count - 1, line_count_of(old(app)) - 1)
            } else {
                0
            })
            &&& final(app).state.cursor_char == old(app).state.cursor_char
            &&& same_but_cursor(old(app), final(app))
        },
{
    if count > 1 {
        let line_count = get_line_count(app);
        if line_count == 0 {
            return ;
        }
        app.state.cursor_line = if count - 1 < line_count - 1 { count - 1 } else { line_count - 1 };
    } else {
        app.state.cursor_line = 0;
    }
}

/// The first index at or after `i` whose char satisfies `p`.
pub open spec fn first_from(s: Seq<char>, i: int, p: spec_fn(char) -> bool) -> Option<int>
    decreases s.len() - i,
{
    if i < 0 || i >= s.len() {
        None
    } else if p(s[i]) {
        Some(i)
    } else {
        first_from(s, i + 1, p)
    }
}

/// The last index before `i` whose char satisfies `p`.
pub open spec fn last_before(s: Seq<char>, i: int, p: spec_fn(char) -> bool) -> Option<int>
    decreases i,
{
    if i <= 0 {
        None
    } else if p(s[i - 1]) {
        Some(i - 1)
    } else {
        last_before(s, i - 1, p)
    }
}

pub proof fn lemma_first_from_bounds(s: Seq<char>, i: int, p: spec_fn(char) -> bool)
    ensures
        first_from(s, i, p) is Some ==> i <= first_from(s, i, p)->0 < s.len() && p(s[first_from(s, i, p)->0]),
    decreases s.len() - i,
{
    if 0 <= i < s.len() && !p(s[i]) {
        lemma_first_from_bounds(s, i + 1, p);
    }
}

proof fn lemma_last_before_bounds(s: Seq<char>, i: int, p: spec_fn(char) -> bool)
    ensures
        last_before(s, i, p) is Some ==> 0 <= last_before(s, i, p)->0 < i,
    decreases i,
{
    if i > 0 && !p(s[i - 1]) {
        lemma_last_before_bounds(s, i - 1, p);
    }
}

/// The predicate "is `t`".
pub open spec fn is_char(t: char) -> spec_fn(char) -> bool {
    |c: char| c == t
}

/// The predicate "is not white space".
pub open spec fn not_blank() -> spec_fn(char) -> bool {
    |c: char| !is_ws(c)
}

/// Index of the last char of `v` before `before` that is `target`.
fn find_last(v: &Vec<char>, before: usize, target: char) -> (r: Option<usize>)
    requires
        before <= v@.len(),
    ensures
        r == (match last_before(v@, before as int, is_char(target)) {
            Some(j) => Some(j as usize),
            None => None,
        }),
{
    let mut j = before;
    while j > 0
        invariant
            j <= before <= v@.len(),
            last_before(v@, before as int, is_char(target)) == last_before(v@, j as int, is_char(target)),
        decreases j,
    {
        if v[j - 1] == target {
            return Some(j - 1);
        }
        j = j - 1;
    }
    None
}

/// Index of the first char of `v` at or after `from` that satisfies `p`.
fn find_first(v: &Vec<char>, from: usize, Ghost(p): Ghost<spec_fn(char) -> bool>, target: Option<char>) -> (r: Option<usize>)
    requires
        target is Some ==> (forall|c: char| #[trigger] p(c) == (c == target->0)),
        target is None ==> (forall|c: char| #[trigger] p(c) == !is_ws(c)),
    ensures
        r == (match first_from(v@, from as int, p) {
            Some(j) => Some(j as usize),
            None => None,
        }),
{
    let mut j = from;
    while j < v.len()
        invariant
            from <= j,
            target is Some ==> (forall|c: char| #[trigger] p(c) == (c == target->0)),
            target is None ==> (forall|c: char| #[trigger] p(c) == !is_ws(c)),
            first_from(v@, from as int, p) == first_from(v@, j as int, p),
        decreases v.len() - j,
    {
        let hit = match target {
            Some(t) => v[j] == t,
            None => !is_whitespace(v[j]),
        };
        if hit {
            return Some(j);
        }
        j = j + 1;
    }
    None
}

/// Moves the cursor to the first char of its line that is not white space
/// (the line break counts as white space: on a blank line, its last char).
pub fn move_first_non_blank(app: &mut App)
    ensures
        match line_of(old(app), old(app).state.cursor_line as int) {
            None => *final(app) == *old(app),
            Some(l) => match first_from(l, 0, not_blank()) {
                Some(i) => cursor_at(final(app)) == (old(app).state.cursor_line as int, i)
                    && same_but_cursor(old(app), final(app)),
                None => if l.len() > 0 {
                    cursor_at(final(app)) == (old(app).state.cursor_line as int, l.len() - 1)
                        && same_but_cursor(old(app), final(app))
                } else {
                    *final(app) == *old(app)
                },
            },
        },
{
    if let Some(content) = get_line_content(app, app.state.cursor_line) {
        let chars = chars_of(content.as_str());
        match find_first(&chars, 0, Ghost(not_blank()), None) {
            Some(i) => {
                app.state.cursor_char = i;
                proof {
                    lemma_first_from_bounds(chars@, 0, not_blank());
                }
                return ;
            },
            None => {},
        }
        if chars.len() > 0 {
            app.state.cursor_char = chars.len() - 1;
        }
    }
}

/// Where one `f`/`F` search for `target` from column `idx` of line `l`
/// lands: the next occurrence after it, or the last one before it.
pub open spec fn search_step(l: Seq<char>, idx: int, target: char, forward: bool) -> Option<int> {
    if forward {
        first_from(l, idx + 1, is_char(target))
    } else if idx == 0 {
        None
    } else {
        last_before(l, idx, is_char(target))
    }
}

/// The column after `n` searches for `target` from column `idx` of line
/// `l`, stopping at the first search that finds nothing.
pub open spec fn char_search(l: Seq<char>, idx: int, target: char, forward: bool, n: nat) -> int
    decreases n,
{
    if n == 0 {
        idx
    } else {
        match search_step(l, idx, target, forward) {
            Some(j) => char_search(l, j, target, forward, (n - 1) as nat),
            None => idx,
        }
    }
}

proof fn lemma_last_before_nearest(s: Seq<char>, i: int, p: spec_fn(char) -> bool)
    requires
        i <= s.len(),
    ensures
        match last_before(s, i, p) {
            Some(j) => 0 <= j < i && p(s[j]) && forall|k: int| j < k < i ==> !p(#[trigger] s[k]),
            None => forall|k: int| 0 <= k < i ==> !p(#[trigger] s[k]),
        },
    decreases i,
{
    if i > 0 && !p(s[i - 1]) {
        lemma_last_before_nearest(s, i - 1, p);
    }
}

proof fn lemma_first_from_nearest(s: Seq<char>, i: int, p: spec_fn(char) -> bool)
    requires
        0 <= i,
    ensures
        match first_from(s, i, p) {
            Some(j) => i <= j < s.len() && p(s[j]) && forall|k: int| i <= k < j ==> !p(#[trigger] s[k]),
            None => forall|k: int| i <= k < s.len() ==> !p(#[trigger] s[k]),
        },
    decreases s.len() - i,
{
    if i < s.len() && !p(s[i]) {
        lemma_first_from_nearest(s, i + 1, p);
    }
}

/// A single `F` search lands on the nearest `target` before the cursor: a
/// column `j < idx` holding `target` with no `target` strictly between `j`
/// and the cursor. When there is no `target` before the cursor the cursor
/// stays.
pub proof fn lemma_backward_search_nearest(l: Seq<char>, idx: int, target: char)
    requires
        0 <= idx <= l.len(),
    ensures
        ({
            let j = char_search(l, idx, target, false, 1);
            &&& j <= idx
            &&& (j < idx ==> 0 <= j && l[j] == target && forall|k: int| j < k < idx ==> #[trigger] l[k] != target)
            &&& (j == idx ==> forall|k: int| 0 <= k < idx ==> #[trigger] l[k] != target)
        }),
{
    lemma_last_before_nearest(l, idx, is_char(target));
    assert(char_search(l, idx, target, false, 1) == match search_step(l, idx, target, false) {
        Some(j) => char_search(l, j, target, false, 0),
        None => idx,
    });
}

/// A single `f` search lands on the nearest `target` after the cursor: a
/// column `j > idx` of the line holding `target` with no `target` strictly
/// between the cursor and `j`. When there is no `target` after the cursor
/// the cursor stays.
pub proof fn lemma_forward_search_nearest(l: Seq<char>, idx: int, target: char)
    requires
        0 <= idx,
    ensures
        ({
            let j = char_search(l, idx, target, true, 1);
            &&& j >= idx
            &&& (j > idx ==> j < l.len() && l[j] == target && forall|k: int| idx < k < j ==> #[trigger] l[k] != target)
            &&& (j == idx ==> forall|k: int| idx < k < l.len() ==> #[trigger] l[k] != target)
        }),
{
    lemma_first_from_nearest(l, idx + 1, is_char(target));
    assert(char_search(l, idx, target, true, 1) == match search_step(l, idx, target, true) {
        Some(j) => char_search(l, j, target, true, 0),
        None => idx,
    });
}

/// Moves the cursor to the `count`-th occurrence of `target` after it
/// (`forward`) or before it on its line; as far as the occurrences go.
pub fn perform_char_search(app: &mut App, target: char, forward: bool, count: usize)
    requires
        old(app).state.cursor_char < usize::MAX,
        !forward && count > 0 && line_of(old(app), old(app).state.cursor_line as int) is Some
            ==> old(app).state.cursor_char <= line_of(old(app), old(app).state.cursor_line as int)->0.len(),
    ensures
        match line_of(old(app), old(app).state.cursor_line as int) {
            None => *final(app) == *old(app),
            Some(l) => cursor_at(final(app)) == (
                old(app).state.cursor_line as int,
                char_search(l, old(app).state.cursor_char as int, target, forward, count as nat),
            ) && same_but_cursor(old(app), final(app)),
        },
{
    if let Some(content) = get_line_content(app, app.state.cursor_line) {
        let chars = chars_of(content.as_str());
        let ghost l = chars@;
        let mut current_idx = app.state.cursor_char;
        let mut i: usize = 0;
        let mut stopped = false;
        while i < count && !stopped
            invariant
                i <= count,
                l == chars@,
                char_search(l, current_idx as int, target, forward, (count - i) as nat) == char_search(
                    l,
                    old(app).state.cursor_char as int,
                    target,
                    forward,
                    count as nat,
                ),
                stopped ==> char_search(l, current_idx as int, target, forward, (count - i) as nat) == current_idx,
                forward ==> current_idx < usize::MAX,
                !forward && i < count ==> current_idx <= l.len(),
            decreases count - i, (if stopped { 0int } else { 1int }),
        {
            if forward {
                match find_first(&chars, current_idx + 1, Ghost(is_char(target)), Some(target)) {
                    Some(idx) => {
                        proof {
                            lemma_first_from_bounds(l, current_idx + 1, is_char(target));
                        }
                        current_idx = idx;
                        i = i + 1;
                    },
                    None => {
                        stopped = true;
                    },
                }
            } else if current_idx == 0 {
                stopped = true;
            } else {
                proof {
                    lemma_last_before_bounds(l, current_idx as int, is_char(target));
                }
                match find_last(&chars, current_idx, target) {
                    Some(idx) => {
                        current_idx = idx;
                        i = i + 1;
                    },
                    None => {
                        stopped = true;
                    },
                }
            }
        }
        app.state.cursor_char = current_idx;
    }
}

/// Number of lines of the document `d` (0 without one).
pub open spec fn doc_lines(d: Option<Seq<char>>) -> int {
    match d {
        Some(s) => crate::buffer::spec_lines(s).len() as int,
        None => 0,
    }
}

/// Line `i` of the document `d`, with its line break.
pub open spec fn doc_line(d: Option<Seq<char>>, i: int) -> Option<Seq<char>> {
    match d {
        Some(s) => if 0 <= i < crate::buffer::spec_lines(s).len() {
            Some(s.subrange(crate::buffer::spec_lines(s)[i].0, crate::buffer::spec_lines(s)[i].1))
        } else {
            None
        },
        None => None,
    }
}

/// Number of chars of line `i` of `d` (0 when it does not exist).
pub open spec fn doc_size(d: Option<Seq<char>>, i: int) -> int {
    match doc_line(d, i) {
        Some(l) => l.len() as int,
        None => 0,
    }
}

/// Class of the char at a position of `d` (0 where there is none).
pub open spec fn doc_class(d: Option<Seq<char>>, line: int, col: int) -> u8 {
    match doc_line(d, line) {
        Some(l) => if 0 <= col < l.len() {
            crate::editor::char_class(l[col])
        } else {
            0
        },
        None => 0,
    }
}

/// There is a char at the position.
pub open spec fn doc_has_char(d: Option<Seq<char>>, line: int, col: int) -> bool {
    0 <= col < doc_size(d, line)
}

/// The position after `(line, col)` in `d`.
pub open spec fn doc_next(d: Option<Seq<char>>, line: int, col: int) -> Option<(int, int)> {
    if col + 1 < doc_size(d, line) {
        Some((line, col + 1))
    } else if line + 1 < doc_lines(d) {
        Some((line + 1, 0))
    } else {
        None
    }
}

/// The position before `(line, col)` in `d`.
pub open spec fn doc_prev(d: Option<Seq<char>>, line: int, col: int) -> Option<(int, int)> {
    if col > 0 {
        Some((line, col - 1))
    } else if line > 0 {
        Some((line - 1, if doc_size(d, line - 1) > 0 { doc_size(d, line - 1) - 1 } else { 0 }))
    } else {
        None
    }
}

/// The app-level position helpers read the app's document.
proof fn lemma_doc_view(app: &App)
    ensures
        doc_lines(crate::editor::text_of(app)) == line_count_of(app),
        forall|i: int| #[trigger] doc_size(crate::editor::text_of(app), i) == line_size(app, i),
        forall|i: int, j: int| #[trigger] doc_class(crate::editor::text_of(app), i, j) == class_at(app, i, j),
        forall|i: int, j: int| #[trigger] doc_has_char(crate::editor::text_of(app), i, j) == (char_at_pos(app, i, j) is Some),
        forall|i: int, j: int| #[trigger] doc_next(crate::editor::text_of(app), i, j) == next_pos(app, line_count_of(app), i, j),
        forall|i: int, j: int| #[trigger] doc_prev(crate::editor::text_of(app), i, j) == prev_pos(app, i, j),
{
}

/// Walks forward from `p` while the class there is (or, with `same` false,
/// is not) `cls`; stops there, or at the last position.
pub open spec fn skip_forward(d: Option<Seq<char>>, p: (int, int), cls: u8, same: bool) -> (int, int)
    decreases doc_lines(d) - p.0, doc_size(d, p.0) - p.1,
{
    if (doc_class(d, p.0, p.1) == cls) == same {
        match doc_next(d, p.0, p.1) {
            Some(q) => skip_forward(d, q, cls, same),
            None => p,
        }
    } else {
        p
    }
}

/// Walks backward from `p` while the class there is `cls` (or, with `same`
/// false, is not); stops there, or at the first position.
pub open spec fn skip_backward(d: Option<Seq<char>>, p: (int, int), cls: u8, same: bool) -> (int, int)
    decreases p.0, p.1,
{
    if (doc_class(d, p.0, p.1) == cls) == same {
        match doc_prev(d, p.0, p.1) {
            Some(q) => skip_backward(d, q, cls, same),
            None => p,
        }
    } else {
        p
    }
}

/// Walks forward from `p` while the next position's class is (or is not)
/// `cls`.
pub open spec fn extend_forward(d: Option<Seq<char>>, p: (int, int), cls: u8, same: bool) -> (int, int)
    decreases doc_lines(d) - p.0, doc_size(d, p.0) - p.1,
{
    match doc_next(d, p.0, p.1) {
        Some(q) => if (doc_class(d, q.0, q.1) == cls) == same {
            extend_forward(d, q, cls, same)
        } else {
            p
        },
        None => p,
    }
}

/// Walks backward from `p` while the previous position's class is (or is
/// not) `cls`.
pub open spec fn extend_backward(d: Option<Seq<char>>, p: (int, int), cls: u8, same: bool) -> (int, int)
    decreases p.0, p.1,
{
    match doc_prev(d, p.0, p.1) {
        Some(q) => if (doc_class(d, q.0, q.1) == cls) == same {
            extend_backward(d, q, cls, same)
        } else {
            p
        },
        None => p,
    }
}

/// `w`: where the cursor lands after one word motion from `p`.
pub open spec fn word_forward_from(d: Option<Seq<char>>, p: (int, int)) -> (int, int) {
    if !doc_has_char(d, p.0, p.1) {
        p
    } else {
        skip_forward(d, skip_forward(d, p, doc_class(d, p.0, p.1), true), 0, true)
    }
}

/// `e`: where the cursor lands after one word-end motion from `p`.
pub open spec fn word_end_from(d: Option<Seq<char>>, p: (int, int)) -> (int, int) {
    if !doc_has_char(d, p.0, p.1) {
        p
    } else {
        match doc_next(d, p.0, p.1) {
            None => p,
            Some(p1) => {
                let p2 = skip_forward(d, p1, 0, true);
                extend_forward(d, p2, doc_class(d, p2.0, p2.1), true)
            },
        }
    }
}

/// `b`: where the cursor lands after one word-back motion from `p`.
pub open spec fn word_backward_from(d: Option<Seq<char>>, p: (int, int)) -> (int, int) {
    match doc_prev(d, p.0, p.1) {
        None => p,
        Some(p1) => {
            let p2 = skip_backward(d, p1, 0, true);
            if doc_class(d, p2.0, p2.1) == 0 {
                p2
            } else {
                extend_backward(d, p2, doc_class(d, p2.0, p2.1), true)
            }
        },
    }
}

/// `W`: like `w`, with words delimited by white space only.
pub open spec fn big_word_forward_from(d: Option<Seq<char>>, p: (int, int)) -> (int, int) {
    if !doc_has_char(d, p.0, p.1) {
        p
    } else {
        skip_forward(d, skip_forward(d, p, 0, false), 0, true)
    }
}

/// `E`: like `e`, with words delimited by white space only.
pub open spec fn big_word_end_from(d: Option<Seq<char>>, p: (int, int)) -> (int, int) {
    if !doc_has_char(d, p.0, p.1) {
        p
    } else {
        match doc_next(d, p.0, p.1) {
            None => p,
            Some(p1) => extend_forward(d, skip_forward(d, p1, 0, true), 0, false),
        }
    }
}

/// `B`: like `b`, with words delimited by white space only.
pub open spec fn big_word_backward_from(d: Option<Seq<char>>, p: (int, int)) -> (int, int) {
    match doc_prev(d, p.0, p.1) {
        None => p,
        Some(p1) => {
            let p2 = skip_backward(d, p1, 0, true);
            if doc_class(d, p2.0, p2.1) == 0 {
                p2
            } else {
                extend_backward(d, p2, 0, false)
            }
        },
    }
}

/// Position `p` comes at or before position `q` in the document.
pub open spec fn pos_le(p: (int, int), q: (int, int)) -> bool {
    p.0 < q.0 || (p.0 == q.0 && p.1 <= q.1)
}

proof fn lemma_skip_forward(d: Option<Seq<char>>, p: (int, int), cls: u8, same: bool)
    ensures
        ({
            let r = skip_forward(d, p, cls, same);
            &&& pos_le(p, r)
            &&& ((doc_class(d, r.0, r.1) == cls) != same || doc_next(d, r.0, r.1) is None)
        }),
    decreases doc_lines(d) - p.0, doc_size(d, p.0) - p.1,
{
    if (doc_class(d, p.0, p.1) == cls) == same {
        if let Some(q) = doc_next(d, p.0, p.1) {
            lemma_skip_forward(d, q, cls, same);
        }
    }
}

proof fn lemma_extend_forward(d: Option<Seq<char>>, p: (int, int), cls: u8, same: bool)
    ensures
        ({
            let r = extend_forward(d, p, cls, same);
            &&& pos_le(p, r)
            &&& (r != p ==> (doc_class(d, r.0, r.1) == cls) == same)
            &&& match doc_next(d, r.0, r.1) {
                Some(q) => (doc_class(d, q.0, q.1) == cls) != same,
                None => true,
            }
        }),
    decreases doc_lines(d) - p.0, doc_size(d, p.0) - p.1,
{
    if let Some(q) = doc_next(d, p.0, p.1) {
        if (doc_class(d, q.0, q.1) == cls) == same {
            lemma_extend_forward(d, q, cls, same);
        }
    }
}

proof fn lemma_skip_backward(d: Option<Seq<char>>, p: (int, int), cls: u8, same: bool)
    ensures
        ({
            let r = skip_backward(d, p, cls, same);
            &&& pos_le(r, p)
            &&& ((doc_class(d, r.0, r.1) == cls) != same || doc_prev(d, r.0, r.1) is None)
        }),
    decreases p.0, p.1,
{
    if (doc_class(d, p.0, p.1) == cls) == same {
        if let Some(q) = doc_prev(d, p.0, p.1) {
            lemma_skip_backward(d, q, cls, same);
        }
    }
}

proof fn lemma_extend_backward(d: Option<Seq<char>>, p: (int, int), cls: u8, same: bool)
    ensures
        ({
            let r = extend_backward(d, p, cls, same);
            &&& pos_le(r, p)
            &&& (r != p ==> (doc_class(d, r.0, r.1) == cls) == same)
            &&& match doc_prev(d, r.0, r.1) {
                Some(q) => (doc_class(d, q.0, q.1) == cls) != same,
                None => true,
            }
        }),
    decreases p.0, p.1,
{
    if let Some(q) = doc_prev(d, p.0, p.1) {
        if (doc_class(d, q.0, q.1) == cls) == same {
            lemma_extend_backward(d, q, cls, same);
        }
    }
}

/// `w` and `W` never move back, and from a char they land on a char that
/// is not white space (or on the document's last position): `w` leaves
/// the run of its starting class and then the white space after it, `W`
/// leaves the run of non-blank chars and then the white space.
pub proof fn lemma_word_forward_lands_on_word(d: Option<Seq<char>>, p: (int, int))
    ensures
        pos_le(p, word_forward_from(d, p)),
        pos_le(p, big_word_forward_from(d, p)),
        doc_has_char(d, p.0, p.1) ==> ({
            let r = word_forward_from(d, p);
            let r1 = skip_forward(d, p, doc_class(d, p.0, p.1), true);
            &&& pos_le(p, r1) && pos_le(r1, r)
            &&& (doc_class(d, r1.0, r1.1) != doc_class(d, p.0, p.1) || doc_next(d, r1.0, r1.1) is None)
            &&& (doc_class(d, r.0, r.1) != 0 || doc_next(d, r.0, r.1) is None)
        }),
        doc_has_char(d, p.0, p.1) ==> ({
            let r = big_word_forward_from(d, p);
            doc_class(d, r.0, r.1) != 0 || doc_next(d, r.0, r.1) is None
        }),
{
    if doc_has_char(d, p.0, p.1) {
        let r1 = skip_forward(d, p, doc_class(d, p.0, p.1), true);
        lemma_skip_forward(d, p, doc_class(d, p.0, p.1), true);
        lemma_skip_forward(d, r1, 0, true);
        let b1 = skip_forward(d, p, 0, false);
        lemma_skip_forward(d, p, 0, false);
        lemma_skip_forward(d, b1, 0, true);
    }
}

/// `e` and `E` never move back, and from a char they land on the last char
/// of a word: a char that is not white space whose next position (if any)
/// is of another class (for `E`: is white space), or on the document's last
/// position.
pub proof fn lemma_word_end_lands_on_word_end(d: Option<Seq<char>>, p: (int, int))
    ensures
        pos_le(p, word_end_from(d, p)),
        pos_le(p, big_word_end_from(d, p)),
        ({
            let r = word_end_from(d, p);
            doc_has_char(d, p.0, p.1) && r != p ==> (doc_class(d, r.0, r.1) != 0 || doc_next(d, r.0, r.1) is None)
                && match doc_next(d, r.0, r.1) {
                    Some(q) => doc_class(d, q.0, q.1) != doc_class(d, r.0, r.1),
                    None => true,
                }
        }),
        ({
            let r = big_word_end_from(d, p);
            doc_has_char(d, p.0, p.1) && r != p ==> (doc_class(d, r.0, r.1) != 0 || doc_next(d, r.0, r.1) is None)
                && match doc_next(d, r.0, r.1) {
                    Some(q) => doc_class(d, q.0, q.1) == 0,
                    None => true,
                }
        }),
{
    if doc_has_char(d, p.0, p.1) {
        if let Some(p1) = doc_next(d, p.0, p.1) {
            let p2 = skip_forward(d, p1, 0, true);
            lemma_skip_forward(d, p1, 0, true);
            lemma_extend_forward(d, p2, doc_class(d, p2.0, p2.1), true);
            lemma_extend_forward(d, p2, 0, false);
        }
    }
}

/// `b` and `B` never move forward, and they land on the first char of a
/// word: a char that is not white space whose previous position (if any)
/// is of another class (for `B`: is white space), or on the document's
/// first position.
pub proof fn lemma_word_backward_lands_on_word_start(d: Option<Seq<char>>, p: (int, int))
    ensures
        pos_le(word_backward_from(d, p), p),
        pos_le(big_word_backward_from(d, p), p),
        ({
            let r = word_backward_from(d, p);
            r != p ==> (doc_class(d, r.0, r.1) != 0 && match doc_prev(d, r.0, r.1) {
                Some(q) => doc_class(d, q.0, q.1) != doc_class(d, r.0, r.1),
                None => true,
            }) || doc_prev(d, r.0, r.1) is None
        }),
        ({
            let r = big_word_backward_from(d, p);
            r != p ==> (doc_class(d, r.0, r.1) != 0 && match doc_prev(d, r.0, r.1) {
                Some(q) => doc_class(d, q.0, q.1) == 0,
                None => true,
            }) || doc_prev(d, r.0, r.1) is None
        }),
{
    if let Some(p1) = doc_prev(d, p.0, p.1) {
        let p2 = skip_backward(d, p1, 0, true);
        lemma_skip_backward(d, p1, 0, true);
        lemma_extend_backward(d, p2, doc_class(d, p2.0, p2.1), true);
        lemma_extend_backward(d, p2, 0, false);
    }
}

/// `f` applied `n` times to `p`.
pub open spec fn repeat_motion(p: (int, int), n: nat, f: spec_fn((int, int)) -> (int, int)) -> (int, int)
    decreases n,
{
    if n == 0 {
        p
    } else {
        f(repeat_motion(p, (n - 1) as nat, f))
    }
}

pub open spec fn word_forward_fn(d: Option<Seq<char>>) -> spec_fn((int, int)) -> (int, int) {
    |p: (int, int)| word_forward_from(d, p)
}

pub open spec fn word_end_fn(d: Option<Seq<char>>) -> spec_fn((int, int)) -> (int, int) {
    |p: (int, int)| word_end_from(d, p)
}

pub open spec fn word_backward_fn(d: Option<Seq<char>>) -> spec_fn((int, int)) -> (int, int) {
    |p: (int, int)| word_backward_from(d, p)
}

pub open spec fn big_word_forward_fn(d: Option<Seq<char>>) -> spec_fn((int, int)) -> (int, int) {
    |p: (int, int)| big_word_forward_from(d, p)
}

pub open spec fn big_word_end_fn(d: Option<Seq<char>>) -> spec_fn((int, int)) -> (int, int) {
    |p: (int, int)| big_word_end_from(d, p)
}

pub open spec fn big_word_backward_fn(d: Option<Seq<char>>) -> spec_fn((int, int)) -> (int, int) {
    |p: (int, int)| big_word_backward_from(d, p)
}

fn move_word_forward_once(app: &mut App)
    ensures
        cursor_at(final(app)) == word_forward_from(crate::editor::text_of(old(app)), cursor_at(old(app))),
        same_but_cursor(old(app), final(app)),
{
    let ghost d = crate::editor::text_of(app);
    proof {
        lemma_doc_view(app);
    }
    let mut it = DocIter::from_cursor(app);
    if it.char_at(app).is_none() {
        return ;
    }
    let start_type = it.char_type_at(app);
    let ghost p0 = (it.line as int, it.col as int);
    loop
        invariant
            d == crate::editor::text_of(app),
            it.line_total() == line_count_of(app),
            skip_forward(d, (it.line as int, it.col as int), start_type, true) == skip_forward(d, p0, start_type, true),
            forall|i: int, j: int| #[trigger] doc_class(d, i, j) == class_at(app, i, j),
            forall|i: int, j: int| #[trigger] doc_next(d, i, j) == next_pos(app, line_count_of(app), i, j),
        ensures
            skip_forward(d, p0, start_type, true) == (it.line as int, it.col as int),
        decreases doc_lines(d) - it.line, doc_size(d, it.line as int) - it.col,
    {
        if it.char_type_at(app) != start_type {
            break ;
        }
        if !it.advance(app) {
            break ;
        }
    }
    let ghost p1 = (it.line as int, it.col as int);
    loop
        invariant
            d == crate::editor::text_of(app),
            it.line_total() == line_count_of(app),
            skip_forward(d, (it.line as int, it.col as int), 0, true) == skip_forward(d, p1, 0, true),
            forall|i: int, j: int| #[trigger] doc_class(d, i, j) == class_at(app, i, j),
            forall|i: int, j: int| #[trigger] doc_next(d, i, j) == next_pos(app, line_count_of(app), i, j),
        ensures
            skip_forward(d, p1, 0, true) == (it.line as int, it.col as int),
        decreases doc_lines(d) - it.line, doc_size(d, it.line as int) - it.col,
    {
        if it.char_type_at(app) != 0 {
            break ;
        }
        if !it.advance(app) {
            break ;
        }
    }
    it.apply(app);
}

fn move_word_end_forward_once(app: &mut App)
    ensures
        cursor_at(final(app)) == word_end_from(crate::editor::text_of(old(app)), cursor_at(old(app))),
        same_but_cursor(old(app), final(app)),
{
    let ghost d = crate::editor::text_of(app);
    proof {
        lemma_doc_view(app);
    }
    let mut it = DocIter::from_cursor(app);
    if it.char_at(app).is_none() {
        return ;
    }
    if !it.advance(app) {
        return ;
    }
    let ghost p1 = (it.line as int, it.col as int);
    loop
        invariant
            d == crate::editor::text_of(app),
            it.line_total() == line_count_of(app),
            forall|i: int, j: int| #[trigger] doc_class(d, i, j) == class_at(app, i, j),
            forall|i: int, j: int| #[trigger] doc_next(d, i, j) == next_pos(app, line_count_of(app), i, j),
            forall|i: int, j: int| #[trigger] doc_prev(d, i, j) == prev_pos(app, i, j),
            skip_forward(d, (it.line as int, it.col as int), 0, true) == skip_forward(d, p1, 0, true),
        ensures
            skip_forward(d, p1, 0, true) == (it.line as int, it.col as int),
        decreases doc_lines(d) - it.line, doc_size(d, it.line as int) - it.col,
    {
        if it.char_type_at(app) != 0 {
            break ;
        }
        if !it.advance(app) {
            break ;
        }
    }
    let token_type = it.char_type_at(app);
    let ghost p2 = (it.line as int, it.col as int);
    loop
        invariant
            d == crate::editor::text_of(app),
            it.line_total() == line_count_of(app),
            forall|i: int, j: int| #[trigger] doc_class(d, i, j) == class_at(app, i, j),
            forall|i: int, j: int| #[trigger] doc_next(d, i, j) == next_pos(app, line_count_of(app), i, j),
            forall|i: int, j: int| #[trigger] doc_prev(d, i, j) == prev_pos(app, i, j),
            extend_forward(d, (it.line as int, it.col as int), token_type, true) == extend_forward(d, p2, token_type, true),
        ensures
            extend_forward(d, p2, token_type, true) == (it.line as int, it.col as int),
        decreases doc_lines(d) - it.line, doc_size(d, it.line as int) - it.col,
    {
        let mut next = DocIter::new(app, it.line, it.col);
        if !next.advance(app) {
            break ;
        }
        if next.char_type_at(app) != token_type {
            break ;
        }
        it.line = next.line;
        it.col = next.col;
    }
    it.apply(app);
}

fn move_word_backward_once(app: &mut App)
    ensures
        cursor_at(final(app)) == word_backward_from(crate::editor::text_of(old(app)), cursor_at(old(app))),
        same_but_cursor(old(app), final(app)),
{
    let ghost d = crate::editor::text_of(app);
    proof {
        lemma_doc_view(app);
    }
    let mut it = DocIter::from_cursor(app);
    if !it.retreat(app) {
        return ;
    }
    let ghost p1 = (it.line as int, it.col as int);
    loop
        invariant
            d == crate::editor::text_of(app),
            it.line_total() == line_count_of(app),
            forall|i: int, j: int| #[trigger] doc_class(d, i, j) == class_at(app, i, j),
            forall|i: int, j: int| #[trigger] doc_next(d, i, j) == next_pos(app, line_count_of(app), i, j),
            forall|i: int, j: int| #[trigger] doc_prev(d, i, j) == prev_pos(app, i, j),
            skip_backward(d, (it.line as int, it.col as int), 0, true) == skip_backward(d, p1, 0, true),
            *app == *old(app),
            doc_prev(d, old(app).state.cursor_line as int, old(app).state.cursor_char as int) == Some(p1),
        ensures
            skip_backward(d, p1, 0, true) == (it.line as int, it.col as int),
            doc_class(d, it.line as int, it.col as int) != 0,
        decreases it.line, it.col,
    {
        if it.char_type_at(app) != 0 {
            break ;
        }
        if !it.retreat(app) {
            it.apply(app);
            return ;
        }
    }
    let token_type = it.char_type_at(app);
    let ghost p2 = (it.line as int, it.col as int);
    loop
        invariant
            d == crate::editor::text_of(app),
            it.line_total() == line_count_of(app),
            forall|i: int, j: int| #[trigger] doc_class(d, i, j) == class_at(app, i, j),
            forall|i: int, j: int| #[trigger] doc_next(d, i, j) == next_pos(app, line_count_of(app), i, j),
            forall|i: int, j: int| #[trigger] doc_prev(d, i, j) == prev_pos(app, i, j),
            extend_backward(d, (it.line as int, it.col as int), token_type, true) == extend_backward(d, p2, token_type, true),
        ensures
            extend_backward(d, p2, token_type, true) == (it.line as int, it.col as int),
        decreases it.line, it.col,
    {
        let mut next = DocIter::new(app, it.line, it.col);
        if !next.retreat(app) {
            break ;
        }
        if next.char_type_at(app) != token_type {
            break ;
        }
        it.line = next.line;
        it.col = next.col;
    }
    it.apply(app);
}

fn move_big_word_forward_once(app: &mut App)
    ensures
        cursor_at(final(app)) == big_word_forward_from(crate::editor::text_of(old(app)), cursor_at(old(app))),
        same_but_cursor(old(app), final(app)),
{
    let ghost d = crate::editor::text_of(app);
    proof {
        lemma_doc_view(app);
    }
    let mut it = DocIter::from_cursor(app);
    if it.char_at(app).is_none() {
        return ;
    }
    let ghost p1 = (it.line as int, it.col as int);
    loop
        invariant
            d == crate::editor::text_of(app),
            it.line_total() == line_count_of(app),
            forall|i: int, j: int| #[trigger] doc_class(d, i, j) == class_at(app, i, j),
            forall|i: int, j: int| #[trigger] doc_next(d, i, j) == next_pos(app, line_count_of(app), i, j),
            forall|i: int, j: int| #[trigger] doc_prev(d, i, j) == prev_pos(app, i, j),
            skip_forward(d, (it.line as int, it.col as int), 0, false) == skip_forward(d, p1, 0, false),
        ensures
            skip_forward(d, p1, 0, false) == (it.line as int, it.col as int),
        decreases doc_lines(d) - it.line, doc_size(d, it.line as int) - it.col,
    {
        if it.char_type_at(app) == 0 {
            break ;
        }
        if !it.advance(app) {
            break ;
        }
    }
    let ghost p2 = (it.line as int, it.col as int);
    loop
        invariant
            d == crate::editor::text_of(app),
            it.line_total() == line_count_of(app),
            forall|i: int, j: int| #[trigger] doc_class(d, i, j) == class_at(app, i, j),
            forall|i: int, j: int| #[trigger] doc_next(d, i, j) == next_pos(app, line_count_of(app), i, j),
            forall|i: int, j: int| #[trigger] doc_prev(d, i, j) == prev_pos(app, i, j),
            skip_forward(d, (it.line as int, it.col as int), 0, true) == skip_forward(d, p2, 0, true),
        ensures
            skip_forward(d, p2, 0, true) == (it.line as int, it.col as int),
        decreases doc_lines(d) - it.line, doc_size(d, it.line as int) - it.col,
    {
        if it.char_type_at(app) != 0 {
            break ;
        }
        if !it.advance(app) {
            break ;
        }
    }
    it.apply(app);
}

fn move_big_word_end_forward_once(app: &mut App)
    ensures
        cursor_at(final(app)) == big_word_end_from(crate::editor::text_of(old(app)), cursor_at(old(app))),
        same_but_cursor(old(app), final(app)),
{
    let ghost d = crate::editor::text_of(app);
    proof {
        lemma_doc_view(app);
    }
    let mut it = DocIter::from_cursor(app);
    if it.char_at(app).is_none() {
        return ;
    }
    if !it.advance(app) {
        return ;
    }
    let ghost p1 = (it.line as int, it.col as int);
    loop
        invariant
            d == crate::editor::text_of(app),
            it.line_total() == line_count_of(app),
            forall|i: int, j: int| #[trigger] doc_class(d, i, j) == class_at(app, i, j),
            forall|i: int, j: int| #[trigger] doc_next(d, i, j) == next_pos(app, line_count_of(app), i, j),
            forall|i: int, j: int| #[trigger] doc_prev(d, i, j) == prev_pos(app, i, j),
            skip_forward(d, (it.line as int, it.col as int), 0, true) == skip_forward(d, p1, 0, true),
        ensures
            skip_forward(d, p1, 0, true) == (it.line as int, it.col as int),
        decreases doc_lines(d) - it.line, doc_size(d, it.line as int) - it.col,
    {
        if it.char_type_at(app) != 0 {
            break ;
        }
        if !it.advance(app) {
            break ;
        }
    }
    let ghost p2 = (it.line as int, it.col as int);
    loop
        invariant
            d == crate::editor::text_of(app),
            it.line_total() == line_count_of(app),
            forall|i: int, j: int| #[trigger] doc_class(d, i, j) == class_at(app, i, j),
            forall|i: int, j: int| #[trigger] doc_next(d, i, j) == next_pos(app, line_count_of(app), i, j),
            forall|i: int, j: int| #[trigger] doc_prev(d, i, j) == prev_pos(app, i, j),
            extend_forward(d, (it.line as int, it.col as int), 0, false) == extend_forward(d, p2, 0, false),
        ensures
            extend_forward(d, p2, 0, false) == (it.line as int, it.col as int),
        decreases doc_lines(d) - it.line, doc_size(d, it.line as int) - it.col,
    {
        let mut next = DocIter::new(app, it.line, it.col);
        if !next.advance(app) {
            break ;
        }
        if next.char_type_at(app) == 0 {
            break ;
        }
        it.line = next.line;
        it.col = next.col;
    }
    it.apply(app);
}

fn move_big_word_backward_once(app: &mut App)
    ensures
        cursor_at(final(app)) == big_word_backward_from(crate::editor::text_of(old(app)), cursor_at(old(app))),
        same_but_cursor(old(app), final(app)),
{
    let ghost d = crate::editor::text_of(app);
    proof {
        lemma_doc_view(app);
    }
    let mut it = DocIter::from_cursor(app);
    if !it.retreat(app) {
        return ;
    }
    let ghost p1 = (it.line as int, it.col as int);
    loop
        invariant
            d == crate::editor::text_of(app),
            it.line_total() == line_count_of(app),
            forall|i: int, j: int| #[trigger] doc_class(d, i, j) == class_at(app, i, j),
            forall|i: int, j: int| #[trigger] doc_next(d, i, j) == next_pos(app, line_count_of(app), i, j),
            forall|i: int, j: int| #[trigger] doc_prev(d, i, j) == prev_pos(app, i, j),
            skip_backward(d, (it.line as int, it.col as int), 0, true) == skip_backward(d, p1, 0, true),
            *app == *old(app),
            doc_prev(d, old(app).state.cursor_line as int, old(app).state.cursor_char as int) == Some(p1),
        ensures
            skip_backward(d, p1, 0, true) == (it.line as int, it.col as int),
            doc_class(d, it.line as int, it.col as int) != 0,
        decreases it.line, it.col,
    {
        if it.char_type_at(app) != 0 {
            break ;
        }
        if !it.retreat(app) {
            it.apply(app);
            return ;
        }
    }
    let ghost p2 = (it.line as int, it.col as int);
    loop
        invariant
            d == crate::editor::text_of(app),
            it.line_total() == line_count_of(app),
            forall|i: int, j: int| #[trigger] doc_class(d, i, j) == class_at(app, i, j),
            forall|i: int, j: int| #[trigger] doc_next(d, i, j) == next_pos(app, line_count_of(app), i, j),
            forall|i: int, j: int| #[trigger] doc_prev(d, i, j) == prev_pos(app, i, j),
            extend_backward(d, (it.line as int, it.col as int), 0, false) == extend_backward(d, p2, 0, false),
        ensures
            extend_backward(d, p2, 0, false) == (it.line as int, it.col as int),
        decreases it.line, it.col,
    {
        let mut next = DocIter::new(app, it.line, it.col);
        if !next.retreat(app) {
            break ;
        }
        if next.char_type_at(app) == 0 {
            break ;
        }
        it.line = next.line;
        it.col = next.col;
    }
    it.apply(app);
}

/// Moves `count` words forward (`w`).
pub fn move_word_forward(app: &mut App, count: usize)
    ensures
        cursor_at(final(app)) == repeat_motion(cursor_at(old(app)), count as nat, word_forward_fn(crate::editor::text_of(old(app)))),
        same_but_cursor(old(app), final(app)),
{
    let mut i: usize = 0;
    while i < count
        invariant
            i <= count,
            crate::editor::text_of(app) == crate::editor::text_of(old(app)),
            cursor_at(app) == repeat_motion(cursor_at(old(app)), i as nat, word_forward_fn(crate::editor::text_of(old(app)))),
            same_but_cursor(old(app), app),
        decreases count - i,
    {
        move_word_forward_once(app);
        i = i + 1;
    }
}

/// Moves to the end of the `count`-th word ahead (`e`).
pub fn move_word_end_forward(app: &mut App, count: usize)
    ensures
        cursor_at(final(app)) == repeat_motion(cursor_at(old(app)), count as nat, word_end_fn(crate::editor::text_of(old(app)))),
        same_but_cursor(old(app), final(app)),
{
    let mut i: usize = 0;
    while i < count
        invariant
            i <= count,
            crate::editor::text_of(app) == crate::editor::text_of(old(app)),
            cursor_at(app) == repeat_motion(cursor_at(old(app)), i as nat, word_end_fn(crate::editor::text_of(old(app)))),
            same_but_cursor(old(app), app),
        decreases count - i,
    {
        move_word_end_forward_once(app);
        i = i + 1;
    }
}

/// Moves `count` words back (`b`).
pub fn move_word_backward(app: &mut App, count: usize)
    ensures
        cursor_at(final(app)) == repeat_motion(cursor_at(old(app)), count as nat, word_backward_fn(crate::editor::text_of(old(app)))),
        same_but_cursor(old(app), final(app)),
{
    let mut i: usize = 0;
    while i < count
        invariant
            i <= count,
            crate::editor::text_of(app) == crate::editor::text_of(old(app)),
            cursor_at(app) == repeat_motion(cursor_at(old(app)), i as nat, word_backward_fn(crate::editor::text_of(old(app)))),
            same_but_cursor(old(app), app),
        decreases count - i,
    {
        move_word_backward_once(app);
        i = i + 1;
    }
}

/// Moves `count` white-space-delimited words forward (`W`).
pub fn move_big_word_forward(app: &mut App, count: usize)
    ensures
        cursor_at(final(app)) == repeat_motion(cursor_at(old(app)), count as nat, big_word_forward_fn(crate::editor::text_of(old(app)))),
        same_but_cursor(old(app), final(app)),
{
    let mut i: usize = 0;
    while i < count
        invariant
            i <= count,
            crate::editor::text_of(app) == crate::editor::text_of(old(app)),
            cursor_at(app) == repeat_motion(cursor_at(old(app)), i as nat, big_word_forward_fn(crate::editor::text_of(old(app)))),
            same_but_cursor(old(app), app),
        decreases count - i,
    {
        move_big_word_forward_once(app);
        i = i + 1;
    }
}

/// Moves to the end of the `count`-th white-space-delimited word ahead (`E`).
pub fn move_big_word_end_forward(app: &mut App, count: usize)
    ensures
        cursor_at(final(app)) == repeat_motion(cursor_at(old(app)), count as nat, big_word_end_fn(crate::editor::text_of(old(app)))),
        same_but_cursor(old(app), final(app)),
{
    let mut i: usize = 0;
    while i < count
        invariant
            i <= count,
            crate::editor::text_of(app) == crate::editor::text_of(old(app)),
            cursor_at(app) == repeat_motion(cursor_at(old(app)), i as nat, big_word_end_fn(crate::editor::text_of(old(app)))),
            same_but_cursor(old(app), app),
        decreases count - i,
    {
        move_big_word_end_forward_once(app);
        i = i + 1;
    }
}

/// Moves `count` white-space-delimited words back (`B`).
pub fn move_big_word_backward(app: &mut App, count: usize)
    ensures
        cursor_at(final(app)) == repeat_motion(cursor_at(old(app)), count as nat, big_word_backward_fn(crate::editor::text_of(old(app)))),
        same_but_cursor(old(app), final(app)),
{
    let mut i: usize = 0;
    while i < count
        invariant
            i <= count,
            crate::editor::text_of(app) == crate::editor::text_of(old(app)),
            cursor_at(app) == repeat_motion(cursor_at(old(app)), i as nat, big_word_backward_fn(crate::editor::text_of(old(app)))),
            same_but_cursor(old(app), app),
        decreases count - i,
    {
        move_big_word_backward_once(app);
        i = i + 1;
    }
}

/// One of `()[]{}`.
pub open spec fn is_bracket(c: char) -> bool {
    c == '(' || c == ')' || c == '[' || c == ']' || c == '{' || c == '}'
}

/// The predicate "is a bracket".
pub open spec fn bracket_pred() -> spec_fn(char) -> bool {
    |c: char| is_bracket(c)
}

/// The bracket that matches `c`, and whether it lies after it.
pub open spec fn bracket_partner(c: char) -> (char, bool) {
    if c == '(' {
        (')', true)
    } else if c == '[' {
        (']', true)
    } else if c == '{' {
        ('}', true)
    } else if c == ')' {
        ('(', false)
    } else if c == ']' {
        ('[', false)
    } else {
        ('{', false)
    }
}

/// Scanning forward from `k` with `depth` unmatched `open` brackets seen:
/// the index of the `close` bracket that matches.
pub open spec fn match_forward(s: Seq<char>, open: char, close: char, k: int, depth: nat) -> Option<int>
    decreases s.len() - k,
{
    if k < 0 || k >= s.len() {
        None
    } else if s[k] == close {
        if depth == 0 {
            Some(k)
        } else {
            match_forward(s, open, close, k + 1, (depth - 1) as nat)
        }
    } else if s[k] == open {
        match_forward(s, open, close, k + 1, depth + 1)
    } else {
        match_forward(s, open, close, k + 1, depth)
    }
}

/// Scanning backward from `k` with `depth` unmatched `open` brackets seen:
/// the index of the `close` bracket that matches.
pub open spec fn match_backward(s: Seq<char>, open: char, close: char, k: int, depth: nat) -> Option<int>
    decreases k + 1,
{
    if k < 0 || k >= s.len() {
        None
    } else if s[k] == close {
        if depth == 0 {
            Some(k)
        } else {
            match_backward(s, open, close, k - 1, (depth - 1) as nat)
        }
    } else if s[k] == open {
        match_backward(s, open, close, k - 1, depth + 1)
    } else {
        match_backward(s, open, close, k - 1, depth)
    }
}

/// The index of the bracket matching the one at index `p` of `s`.
pub open spec fn bracket_match(s: Seq<char>, p: int) -> Option<int> {
    let (t, forward) = bracket_partner(s[p]);
    if forward {
        match_forward(s, s[p], t, p + 1, 0)
    } else {
        match_backward(s, s[p], t, p - 1, 0)
    }
}

/// `(line, col)` is the position of char index `q` of `s`.
pub open spec fn at_index(s: Seq<char>, line: int, col: int, q: int) -> bool {
    &&& 0 <= line < crate::buffer::spec_lines(s).len()
    &&& crate::buffer::spec_lines(s)[line].0 + col == q
    &&& q < crate::buffer::spec_lines(s)[line].1
}

proof fn lemma_match_forward_bounds(s: Seq<char>, open: char, close: char, k: int, depth: nat)
    ensures
        match_forward(s, open, close, k, depth) is Some ==> k <= match_forward(s, open, close, k, depth)->0 < s.len(),
    decreases s.len() - k,
{
    if 0 <= k < s.len() {
        if s[k] == close {
            if depth > 0 {
                lemma_match_forward_bounds(s, open, close, k + 1, (depth - 1) as nat);
            }
        } else if s[k] == open {
            lemma_match_forward_bounds(s, open, close, k + 1, depth + 1);
        } else {
            lemma_match_forward_bounds(s, open, close, k + 1, depth);
        }
    }
}

proof fn lemma_match_backward_bounds(s: Seq<char>, open: char, close: char, k: int, depth: nat)
    ensures
        match_backward(s, open, close, k, depth) is Some ==> 0 <= match_backward(s, open, close, k, depth)->0 <= k
            && match_backward(s, open, close, k, depth)->0 < s.len(),
    decreases k + 1,
{
    if 0 <= k < s.len() {
        if s[k] == close {
            if depth > 0 {
                lemma_match_backward_bounds(s, open, close, k - 1, (depth - 1) as nat);
            }
        } else if s[k] == open {
            lemma_match_backward_bounds(s, open, close, k - 1, depth + 1);
        } else {
            lemma_match_backward_bounds(s, open, close, k - 1, depth);
        }
    }
}

/// The line and column of char index `q` of the buffer.
pub(crate) fn position_of_index(buf: &crate::buffer::TextBuffer, q: usize) -> (r: (usize, usize))
    requires
        q < buf@.len(),
    ensures
        at_index(buf@, r.0 as int, r.1 as int, q as int),
{
    let ghost s = buf@;
    proof {
        crate::buffer::lemma_lines_bounds(s);
        crate::buffer::lemma_lines_shape(s);
    }
    let n = buf.line_count();
    let mut i: usize = 0;
    while i < n
        invariant
            s == buf@,
            n == crate::buffer::spec_lines(s).len(),
            i < n,
            q < s.len(),
            crate::buffer::spec_lines(s)[i as int].0 <= q,
            crate::buffer::spec_lines(s).last().1 == s.len(),
            forall|k: int|
                0 <= k < crate::buffer::spec_lines(s).len() - 1 ==> (#[trigger] crate::buffer::spec_lines(s)[k]).1
                    == crate::buffer::spec_lines(s)[k + 1].0,
        decreases n - i,
    {
        let r = buf.line_char_range(i).unwrap();
        if q < r.1 {
            return (i, q - r.0);
        }
        assert(crate::buffer::spec_lines(s)[i as int].1 == crate::buffer::spec_lines(s)[i + 1].0);
        i = i + 1;
    }
    (0, 0)
}

/// Jumps to the bracket matching the one under the cursor, or the first
/// bracket after it on its line (the cursor moves to that bracket even
/// when it has no match).
pub fn move_matching_bracket(app: &mut App)
    ensures
        match line_of(old(app), old(app).state.cursor_line as int) {
            None => *final(app) == *old(app),
            Some(l) => if old(app).state.cursor_char >= l.len() {
                *final(app) == *old(app)
            } else {
                match first_from(l, old(app).state.cursor_char as int, bracket_pred()) {
                    None => *final(app) == *old(app),
                    Some(b) => {
                        let s = crate::editor::text_of(old(app))->0;
                        let p = crate::buffer::spec_lines(s)[old(app).state.cursor_line as int].0 + b;
                        &&& same_but_cursor(old(app), final(app))
                        &&& match bracket_match(s, p) {
                            Some(q) => at_index(s, final(app).state.cursor_line as int, final(app).state.cursor_char as int, q),
                            None => cursor_at(final(app)) == (old(app).state.cursor_line as int, b),
                        }
                    },
                }
            },
        },
{
    let content = match get_line_content(app, app.state.cursor_line) {
        Some(c) => c,
        None => return ,
    };
    let chars = chars_of(content.as_str());
    if app.state.cursor_char >= chars.len() {
        return ;
    }
    let mut start_char = chars[app.state.cursor_char];
    let is_b = start_char == '(' || start_char == ')' || start_char == '[' || start_char == ']'
        || start_char == '{' || start_char == '}';
    let ghost cc = app.state.cursor_char as int;
    if !is_b {
        let mut j = app.state.cursor_char;
        while j < chars.len()
            invariant
                cc <= j,
                first_from(chars@, cc, bracket_pred()) == first_from(chars@, j as int, bracket_pred()),
            ensures
                j < chars.len() ==> first_from(chars@, cc, bracket_pred()) == Some(j as int),
                j >= chars.len() ==> first_from(chars@, cc, bracket_pred()) is None,
            decreases chars.len() - j,
        {
            let c = chars[j];
            if c == '(' || c == ')' || c == '[' || c == ']' || c == '{' || c == '}' {
                break ;
            }
            j = j + 1;
        }
        if j >= chars.len() {
            return ;
        }
        app.state.cursor_char = j;
        start_char = chars[j];
    }
    let (target_char, forward) = if start_char == '(' {
        (')', true)
    } else if start_char == '[' {
        (']', true)
    } else if start_char == '{' {
        ('}', true)
    } else if start_char == ')' {
        ('(', false)
    } else if start_char == ']' {
        ('[', false)
    } else {
        ('{', false)
    };
    let result = match &app.content {
        Some(doc) => {
            let ghost s = doc.buffer@;
            let v = doc.buffer.chars();
            let n = v.len();
            let range = doc.buffer.line_char_range(app.state.cursor_line).unwrap();
            proof {
                crate::buffer::lemma_lines_bounds(s);
                assert(0 <= crate::buffer::spec_lines(s)[app.state.cursor_line as int].0
                    <= crate::buffer::spec_lines(s)[app.state.cursor_line as int].1 <= s.len());
            }
            let p = range.0 + app.state.cursor_char;
            let mut depth: usize = 0;
            let mut found: Option<usize> = None;
            if forward {
                let mut k = p + 1;
                while k < n
                    invariant_except_break
                        found is None,
                    invariant
                        v@ == s,
                        n == s.len(),
                        p < k <= n + 1,
                        depth < k,
                        match_forward(s, start_char, target_char, k as int, depth as nat) == match_forward(
                            s,
                            start_char,
                            target_char,
                            p + 1,
                            0,
                        ),
                    ensures
                        match found {
                            Some(q) => match_forward(s, start_char, target_char, p + 1, 0) == Some(q as int),
                            None => match_forward(s, start_char, target_char, p + 1, 0) is None,
                        },
                    decreases n - k,
                {
                    let c = v[k];
                    if c == target_char {
                        if depth == 0 {
                            found = Some(k);
                            break ;
                        }
                        depth = depth - 1;
                    } else if c == start_char {
                        depth = depth + 1;
                    }
                    k = k + 1;
                }
            } else {
                let mut k = p;
                while k > 0
                    invariant_except_break
                        found is None,
                    invariant
                        v@ == s,
                        n == s.len(),
                        k <= p < n,
                        depth <= p - k,
                        match_backward(s, start_char, target_char, k - 1, depth as nat) == match_backward(
                            s,
                            start_char,
                            target_char,
                            p - 1,
                            0,
                        ),
                    ensures
                        match found {
                            Some(q) => match_backward(s, start_char, target_char, p - 1, 0) == Some(q as int),
                            None => match_backward(s, start_char, target_char, p - 1, 0) is None,
                        },
                    decreases k,
                {
                    let c = v[k - 1];
                    if c == target_char {
                        if depth == 0 {
                            found = Some(k - 1);
                            break ;
                        }
                        depth = depth - 1;
                    } else if c == start_char {
                        depth = depth + 1;
                    }
                    k = k - 1;
                }
            }
            proof {
                lemma_match_forward_bounds(s, start_char, target_char, p + 1, 0);
                lemma_match_backward_bounds(s, start_char, target_char, p - 1, 0);
            }
            match found {
                Some(q) => Some(position_of_index(&doc.buffer, q)),
                None => None,
            }
        },
        None => None,
    };
    if let Some((line, col)) = result {
        app.state.cursor_line = line;
        app.state.cursor_char = col;
    }
}

} // verus!

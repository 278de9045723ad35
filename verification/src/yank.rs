//! The text that yank commands copy from the preview document (the
//! clipboard itself is the application's business).
use vstd::prelude::*;
use crate::editor::{App, InputMode, line_of, text_of, get_line_content, get_byte_index, lemma_pos_index, pos_index};
use crate::edit_ops::{pos_after, range_end_index};
use crate::chars::{chars_of, push_str, push_char, string_from_chars, byte_offset};

verus! {

/// The selection's two ends in document order.
pub open spec fn ordered(a: (usize, usize), b: (usize, usize)) -> ((usize, usize), (usize, usize)) {
    if a.0 < b.0 || (a.0 == b.0 && a.1 <= b.1) {
        (a, b)
    } else {
        (b, a)
    }
}

/// What a yank of the selection `start..=end` takes from line `i`: the whole
/// line in line-wise visual mode; else the selected chars of the line (its
/// line break included when selected), and a line break after every line
/// but the last.
pub open spec fn yank_piece(app: &App, start: (usize, usize), end: (usize, usize), i: int) -> Seq<char> {
    match line_of(app, i) {
        None => seq![],
        Some(l) => if app.state.mode == InputMode::VisualLine {
            l
        } else {
            let last = if l.len() > 0 { l.len() - 1 } else { 0 };
            let si = if i == start.0 { start.1 as int } else { 0 };
            let ei = if i == end.0 {
                if (end.1 as int) < last { end.1 as int } else { last }
            } else {
                last
            };
            let chunk = if si <= ei && si < l.len() { l.subrange(si, ei + 1) } else { seq![] };
            if i < end.0 {
                chunk.push('\n')
            } else {
                chunk
            }
        },
    }
}

/// The pieces of lines `start.0` up to (not including) `n`, joined.
pub open spec fn yank_upto(app: &App, start: (usize, usize), end: (usize, usize), n: int) -> Seq<char>
    decreases n - start.0,
{
    if n <= start.0 {
        seq![]
    } else {
        yank_upto(app, start, end, n - 1) + yank_piece(app, start, end, n - 1)
    }
}

/// A char-wise selection within one line yanks exactly the selected chars,
/// both ends included: with the selection start and the cursor at columns
/// `a` and `b` of line `l` (in either order, both on the line), the yank is
/// the `|a - b| + 1` chars from the smaller column to the larger one.
pub proof fn lemma_single_line_yank(app: &App, l: usize, a: usize, b: usize)
    requires
        app.state.mode != InputMode::VisualLine,
        app.state.selection_start == Some((l, a)),
        app.state.cursor_line == l,
        app.state.cursor_char == b,
        line_of(app, l as int) is Some,
        a < line_of(app, l as int)->0.len(),
        b < line_of(app, l as int)->0.len(),
    ensures
        ({
            let (start, end) = ordered((l, a), (l, b));
            let lo = if a <= b { a as int } else { b as int };
            let hi = if a <= b { b as int } else { a as int };
            &&& yank_upto(app, start, end, end.0 + 1) == line_of(app, l as int)->0.subrange(lo, hi + 1)
            &&& yank_upto(app, start, end, end.0 + 1).len() == hi - lo + 1
        }),
{
    let (start, end) = ordered((l, a), (l, b));
    assert(yank_upto(app, start, end, l as int) == Seq::<char>::empty());
    assert(yank_upto(app, start, end, l + 1) == yank_upto(app, start, end, l as int) + yank_piece(app, start, end, l as int));
}

/// Lines `lo` up to (not including) `n` of the document, each with its
/// line break, joined.
pub open spec fn whole_lines(app: &App, lo: int, n: int) -> Seq<char>
    decreases n - lo,
{
    if n <= lo {
        seq![]
    } else {
        whole_lines(app, lo, n - 1) + line_of(app, n - 1)->0
    }
}

proof fn lemma_linewise_upto(app: &App, start: (usize, usize), end: (usize, usize), n: int)
    requires
        app.state.mode == InputMode::VisualLine,
        forall|i: int| start.0 <= i < n ==> #[trigger] line_of(app, i) is Some,
    ensures
        yank_upto(app, start, end, n) == whole_lines(app, start.0 as int, n),
    decreases n - start.0,
{
    if n > start.0 {
        assert(line_of(app, n - 1) is Some);
        lemma_linewise_upto(app, start, end, n - 1);
    }
}

/// A line-wise selection yanks the whole lines it spans, each with its
/// line break, from the upper line through the lower one, whichever end the
/// cursor is at.
pub proof fn lemma_linewise_yank(app: &App, sel: (usize, usize))
    requires
        app.state.mode == InputMode::VisualLine,
        app.state.selection_start == Some(sel),
        ({
            let lo = if sel.0 <= app.state.cursor_line { sel.0 as int } else { app.state.cursor_line as int };
            let hi = if sel.0 <= app.state.cursor_line { app.state.cursor_line as int } else { sel.0 as int };
            forall|i: int| lo <= i <= hi ==> #[trigger] line_of(app, i) is Some
        }),
    ensures
        ({
            let (start, end) = ordered(sel, (app.state.cursor_line, app.state.cursor_char));
            let lo = if sel.0 <= app.state.cursor_line { sel.0 as int } else { app.state.cursor_line as int };
            let hi = if sel.0 <= app.state.cursor_line { app.state.cursor_line as int } else { sel.0 as int };
            yank_upto(app, start, end, end.0 + 1) == whole_lines(app, lo, hi + 1)
        }),
{
    let (start, end) = ordered(sel, (app.state.cursor_line, app.state.cursor_char));
    lemma_linewise_upto(app, start, end, end.0 + 1);
}

/// The text of the selection (from the selection start to the cursor, in
/// either order), or nothing without a selection.
pub fn yank_selection(app: &App) -> (r: Option<String>)
    ensures
        match app.state.selection_start {
            None => r is None,
            Some(sel) => {
                let (start, end) = ordered(sel, (app.state.cursor_line, app.state.cursor_char));
                r is Some && r->0@ == yank_upto(app, start, end, end.0 + 1)
            },
        },
{
    let sel = match app.state.selection_start {
        Some(p) => p,
        None => return None,
    };
    let cur = (app.state.cursor_line, app.state.cursor_char);
    let (start, end) = if sel.0 < cur.0 || (sel.0 == cur.0 && sel.1 <= cur.1) {
        (sel, cur)
    } else {
        (cur, sel)
    };
    let mut yanked = String::new();
    let mut i = start.0;
    loop
        invariant_except_break
            yanked@ == yank_upto(app, start, end, i as int),
        invariant
            start.0 <= i <= end.0,
            (start, end) == ordered(sel, cur),
            cur == (app.state.cursor_line, app.state.cursor_char),
            app.state.selection_start == Some(sel),
        ensures
            yanked@ == yank_upto(app, start, end, end.0 + 1),
        decreases end.0 - i,
    {
        match get_line_content(app, i) {
            Some(line) => {
                if app.state.mode == InputMode::VisualLine {
                    push_str(&mut yanked, line.as_str());
                } else {
                    let chars = chars_of(line.as_str());
                    let last = if chars.len() > 0 { chars.len() - 1 } else { 0 };
                    let si = if i == start.0 { start.1 } else { 0 };
                    let ei = if i == end.0 {
                        if end.1 < last { end.1 } else { last }
                    } else {
                        last
                    };
                    if si <= ei && si < chars.len() {
                        let chunk = string_from_chars(chars.as_slice(), si, ei + 1);
                        push_str(&mut yanked, chunk.as_str());
                    }
                    if i < end.0 {
                        push_char(&mut yanked, '\n');
                    }
                }
            },
            None => {},
        }
        proof {
            assert(yanked@ =~= yank_upto(app, start, end, i + 1));
        }
        if i == end.0 {
            break ;
        }
        i = i + 1;
    }
    Some(yanked)
}

/// The cursor's line, with its line break.
pub fn yank_line(app: &App) -> (r: Option<String>)
    ensures
        match line_of(app, app.state.cursor_line as int) {
            Some(l) => r is Some && r->0@ == l,
            None => r is None,
        },
{
    get_line_content(app, app.state.cursor_line)
}

/// The text from `start` through `end` (both included): empty for a
/// reversed range, nothing when the range covers no char.
pub fn yank_range_content(app: &App, start: (usize, usize), end: (usize, usize)) -> (r: Option<String>)
    ensures
        match text_of(app) {
            None => r is None,
            Some(s) => if pos_after(start, end) {
                r is Some && r->0@ == Seq::<char>::empty()
            } else {
                let ks = pos_index(s, start.0 as int, start.1 as int);
                let je = range_end_index(s, end);
                if ks < je {
                    r is Some && r->0@ == s.subrange(ks, je)
                } else {
                    r is None
                }
            },
        },
{
    let doc = match &app.content {
        Some(d) => d,
        None => return None,
    };
    let ghost s = doc.buffer@;
    let content = doc.content();
    let start_idx = get_byte_index(content, start.0, start.1);
    if start.0 > end.0 || (start.0 == end.0 && start.1 > end.1) {
        return Some(String::new());
    }
    let end_idx = get_byte_index(content, end.0, end.1);
    let total = doc.len_bytes();
    proof {
        lemma_pos_index(s, start.0 as int, start.1 as int);
        lemma_pos_index(s, end.0 as int, end.1 as int);
        crate::chars::lemma_byte_offset_full(s);
    }
    let end_char_len = match doc.buffer.char_at_byte(end_idx) {
        Some(c) => crate::chars::char_utf8_len(c),
        None => 0,
    };
    proof {
        let ke = pos_index(s, end.0 as int, end.1 as int);
        if ke < s.len() {
            crate::chars::lemma_byte_offset_step(s, ke);
            crate::chars::lemma_byte_offset_mono(s, ke + 1, s.len() as int);
        }
        let ks = pos_index(s, start.0 as int, start.1 as int);
        let je = range_end_index(s, end);
        if ks < je {
            crate::chars::lemma_byte_offset_mono(s, ks, je);
        } else {
            crate::chars::lemma_byte_offset_mono(s, je, ks);
        }
    }
    let yank_end = end_idx + end_char_len;
    if start_idx < yank_end && yank_end <= total {
        let ks = pos_index_exec(doc, start_idx);
        let je = pos_index_exec(doc, yank_end);
        let v = doc.buffer.chars();
        proof {
            let ks_ = pos_index(s, start.0 as int, start.1 as int);
            let je_ = range_end_index(s, end);
            crate::buffer::lemma_char_index_of(s, ks_);
            crate::buffer::lemma_char_index_of(s, je_);
        }
        Some(string_from_chars(v, ks, je))
    } else {
        None
    }
}

/// The char index at byte `b`, a char boundary of the document.
fn pos_index_exec(doc: &crate::editor::RichTextDocument, b: usize) -> (k: usize)
    requires
        crate::chars::is_boundary(doc.buffer@, b as int),
    ensures
        k == crate::chars::char_index_of(doc.buffer@, b as int),
{
    let v = doc.buffer.chars();
    let total = doc.len_bytes();
    proof {
        crate::chars::lemma_byte_offset_full(doc.buffer@);
        let m = crate::chars::char_index_of(doc.buffer@, b as int);
        crate::chars::lemma_byte_offset_mono(doc.buffer@, m, doc.buffer@.len() as int);
    }
    let k = crate::chars::ceil_char_index(v, b);
    proof {
        crate::text_objects::lemma_ceil_at_boundary(doc.buffer@, b as int);
    }
    k
}

} // verus!

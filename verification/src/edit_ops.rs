//! Editing commands of the preview editor, each recorded for undo.
use vstd::prelude::*;
use crate::buffer::{
    inverse_kind, lemma_byte_index, lemma_char_index_of, lemma_lines_bounds, spec_apply,
    spec_byte_index, spec_delete_range, spec_insert, spec_lines, TextEdit, TextEditKind,
    TextUndoFrame,
};
use crate::chars::{byte_len, byte_offset, char_index_of, is_boundary, lemma_byte_offset_full, lemma_byte_offset_mono};
use crate::editor::{
    App, RichTextDocument, text_of, clamp_in, ensure_cursor_in_bounds, get_byte_index, line_len,
    line_len_in, lemma_pos_index, pos_index, same_but_cursor, same_view,
};
use crate::undo::{record_edit, recorded, top_frame};

verus! {

/// `e` is an edit of the given kind, position and text.
pub open spec fn edit_is(e: TextEdit, kind: TextEditKind, b: int, t: Seq<char>) -> bool {
    e.kind == kind && e.byte_idx == b && e.text@ == t
}

/// `f` records an edit of the given kind, position and text, with the
/// cursor before and after it.
pub open spec fn frame_is(
    f: TextUndoFrame,
    kind: TextEditKind,
    b: int,
    t: Seq<char>,
    before: (usize, usize),
    after: (usize, usize),
) -> bool {
    &&& edit_is(f.redo_edit, kind, b, t)
    &&& edit_is(f.undo_edit, inverse_kind(kind), b, t)
    &&& f.before_cursor == before
    &&& f.after_cursor == after
}

/// Applies an edit to the document; whether it applied.
pub fn apply_text_edit(text_file: &mut RichTextDocument, edit: &TextEdit) -> (applied: bool)
    requires
        edit.byte_idx + byte_len(edit.text@) <= usize::MAX,
        byte_len(old(text_file).buffer@) + byte_len(edit.text@) <= usize::MAX,
    ensures
        applied == spec_apply(old(text_file).buffer@, edit.kind, edit.byte_idx as int, edit.text@) is Some,
        final(text_file).buffer@ == (if applied {
            spec_apply(old(text_file).buffer@, edit.kind, edit.byte_idx as int, edit.text@)->0
        } else {
            old(text_file).buffer@
        }),
        final(text_file).dirty == (applied || old(text_file).dirty),
{
    let applied = text_file.buffer.apply_edit(edit);
    if applied {
        text_file.invalidate_caches();
    }
    applied
}

/// Inserts `c` at byte `byte_idx` of the document.
pub fn edit_content_insert_char(text_file: &mut RichTextDocument, byte_idx: usize, c: char) -> (r:
    Option<TextEdit>)
    requires
        byte_len(old(text_file).buffer@) + 4 <= usize::MAX,
    ensures
        r is Some == spec_insert(old(text_file).buffer@, byte_idx as int, seq![c]) is Some,
        r is Some ==> edit_is(r->0, TextEditKind::Insert, byte_idx as int, seq![c]),
        final(text_file).buffer@ == (if r is Some {
            spec_insert(old(text_file).buffer@, byte_idx as int, seq![c])->0
        } else {
            old(text_file).buffer@
        }),
        final(text_file).dirty == (r is Some || old(text_file).dirty),
{
    let edit = match text_file.buffer.insert_char(byte_idx, c) {
        Some(e) => e,
        None => return None,
    };
    text_file.invalidate_caches();
    Some(edit)
}

/// Inserts `text` at byte `byte_idx` of the document.
pub fn edit_content_insert_text(text_file: &mut RichTextDocument, byte_idx: usize, text: String) -> (r:
    Option<TextEdit>)
    requires
        byte_len(old(text_file).buffer@) + byte_len(text@) <= usize::MAX,
    ensures
        r is Some == spec_insert(old(text_file).buffer@, byte_idx as int, text@) is Some,
        r is Some ==> edit_is(r->0, TextEditKind::Insert, byte_idx as int, text@),
        final(text_file).buffer@ == (if r is Some {
            spec_insert(old(text_file).buffer@, byte_idx as int, text@)->0
        } else {
            old(text_file).buffer@
        }),
        final(text_file).dirty == (r is Some || old(text_file).dirty),
{
    let edit = match text_file.buffer.insert_text(byte_idx, text) {
        Some(e) => e,
        None => return None,
    };
    text_file.invalidate_caches();
    Some(edit)
}

/// Deletes the char before byte `byte_idx` of the document.
pub fn edit_content_delete_char(text_file: &mut RichTextDocument, byte_idx: usize) -> (r: Option<
    TextEdit,
>)
    ensures
        ({
            let s = old(text_file).buffer@;
            let k = char_index_of(s, byte_idx as int);
            if is_boundary(s, byte_idx as int) && k > 0 {
                &&& r is Some
                &&& edit_is(r->0, TextEditKind::Delete, byte_offset(s, k - 1) as int, seq![s[k - 1]])
                &&& final(text_file).buffer@ == s.take(k - 1) + s.skip(k)
                &&& final(text_file).dirty
            } else {
                r is None && final(text_file).buffer@ == s && final(text_file).dirty == old(
                    text_file,
                ).dirty
            }
        }),
{
    let edit = match text_file.buffer.delete_char_before(byte_idx) {
        Some(e) => e,
        None => return None,
    };
    text_file.invalidate_caches();
    Some(edit)
}

/// Deletes the char at byte `byte_idx` of the document.
pub fn edit_content_delete_char_at(text_file: &mut RichTextDocument, byte_idx: usize) -> (r: Option<
    TextEdit,
>)
    ensures
        ({
            let s = old(text_file).buffer@;
            let k = char_index_of(s, byte_idx as int);
            if is_boundary(s, byte_idx as int) && k < s.len() {
                &&& r is Some
                &&& edit_is(r->0, TextEditKind::Delete, byte_idx as int, seq![s[k]])
                &&& final(text_file).buffer@ == s.take(k) + s.skip(k + 1)
                &&& final(text_file).dirty
            } else {
                r is None && final(text_file).buffer@ == s && final(text_file).dirty == old(
                    text_file,
                ).dirty
            }
        }),
{
    let edit = match text_file.buffer.delete_char_at(byte_idx) {
        Some(e) => e,
        None => return None,
    };
    text_file.invalidate_caches();
    Some(edit)
}

/// Deletes the bytes `start..end` of the document.
pub fn edit_content_delete_range(text_file: &mut RichTextDocument, start: usize, end: usize) -> (r:
    Option<TextEdit>)
    ensures
        match spec_delete_range(old(text_file).buffer@, start as int, end as int) {
            Some(p) => r is Some && edit_is(r->0, TextEditKind::Delete, start as int, p.1)
                && final(text_file).buffer@ == p.0 && final(text_file).dirty,
            None => r is None && final(text_file).buffer@ == old(text_file).buffer@
                && final(text_file).dirty == old(text_file).dirty,
        },
{
    let deleted = match text_file.buffer.delete_range(start..end) {
        Some(d) => d,
        None => return None,
    };
    text_file.invalidate_caches();
    Some(TextEdit::delete(start, deleted))
}

fn push_edit_frame(app: &mut App, edit: TextEdit, before_cursor: (usize, usize), after_cursor: (
    usize,
    usize,
))
    ensures
        recorded(old(app), final(app)),
        frame_is(top_frame(final(app)), edit.kind, edit.byte_idx as int, edit.text@, before_cursor, after_cursor),
        final(app).content == old(app).content,
        final(app).state.cursor_line == old(app).state.cursor_line,
        final(app).state.cursor_char == old(app).state.cursor_char,
        final(app).state.status_message == old(app).state.status_message,
        same_view(old(app), final(app)),
{
    let frame = TextUndoFrame::from_forward_edit(edit, before_cursor, after_cursor);
    record_edit(app, frame);
}

/// The document after an insertion of `t` at byte `b`, and the edit, as the
/// editing commands below report them.
pub open spec fn inserted(old_app: &App, new_app: &App, b: int, t: Seq<char>) -> bool {
    &&& text_of(new_app) == spec_insert(text_of(old_app)->0, b, t)
    &&& new_app.content->0.dirty
    &&& recorded(old_app, new_app)
    &&& new_app.state.status_message == old_app.state.status_message
    &&& same_view(old_app, new_app)
}

/// The cursor of `app`.
pub open spec fn cursor(app: &App) -> (usize, usize) {
    (app.state.cursor_line, app.state.cursor_char)
}

/// Byte offset of the end of line `line` (after its newline), or of the end
/// of the text when there is no such line.
pub open spec fn line_end_byte(s: Seq<char>, line: int) -> int {
    if 0 <= line < spec_lines(s).len() {
        byte_offset(s, spec_lines(s)[line].1) as int
    } else {
        byte_len(s) as int
    }
}

/// Byte offset of the start of line `line`, or 0 when there is no such line.
pub open spec fn line_start_byte(s: Seq<char>, line: int) -> int {
    if 0 <= line < spec_lines(s).len() {
        byte_offset(s, spec_lines(s)[line].0) as int
    } else {
        0
    }
}

proof fn lemma_line_bytes(s: Seq<char>, line: int)
    ensures
        is_boundary(s, line_end_byte(s, line)),
        is_boundary(s, line_start_byte(s, line)),
{
    lemma_lines_bounds(s);
    lemma_byte_offset_full(s);
    if 0 <= line < spec_lines(s).len() {
        assert(0 <= spec_lines(s)[line].0 <= spec_lines(s)[line].1 <= s.len());
        lemma_char_index_of(s, spec_lines(s)[line].1);
        lemma_char_index_of(s, spec_lines(s)[line].0);
    } else {
        lemma_char_index_of(s, s.len() as int);
        lemma_char_index_of(s, 0);
    }
}

/// Types `c` at the cursor and moves the cursor past it.
pub fn insert_char(app: &mut App, c: char)
    requires
        text_of(old(app)) is Some ==> byte_len(text_of(old(app))->0) + 4 <= usize::MAX
            && old(app).state.cursor_char < usize::MAX,
    ensures
        match text_of(old(app)) {
            None => *final(app) == *old(app),
            Some(s) => {
                let (l, ch) = cursor(old(app));
                let b = spec_byte_index(s, l as int, ch as int);
                &&& inserted(old(app), final(app), b, seq![c])
                &&& cursor(final(app)) == (l, (ch + 1) as usize)
                &&& frame_is(top_frame(final(app)), TextEditKind::Insert, b, seq![c], (l, ch), (l, (ch + 1) as usize))
            },
        },
{
    let before = (app.state.cursor_line, app.state.cursor_char);
    let edit = match &mut app.content {
        Some(doc) => {
            let idx = doc.buffer.byte_index(before.0, before.1);
            proof {
                lemma_byte_index(doc.buffer@, before.0 as int, before.1 as int);
            }
            if idx <= doc.len_bytes() {
                edit_content_insert_char(doc, idx, c)
            } else {
                None
            }
        },
        None => None,
    };
    if let Some(edit) = edit {
        app.state.cursor_char = app.state.cursor_char + 1;
        let after = (app.state.cursor_line, app.state.cursor_char);
        push_edit_frame(app, edit, before, after);
    }
}

/// Breaks the line at the cursor and moves the cursor to the start of the
/// new line.
pub fn insert_newline(app: &mut App)
    requires
        text_of(old(app)) is Some ==> byte_len(text_of(old(app))->0) + 4 <= usize::MAX
            && old(app).state.cursor_line < usize::MAX,
    ensures
        match text_of(old(app)) {
            None => *final(app) == *old(app),
            Some(s) => {
                let (l, ch) = cursor(old(app));
                let b = spec_byte_index(s, l as int, ch as int);
                &&& inserted(old(app), final(app), b, seq!['\n'])
                &&& cursor(final(app)) == ((l + 1) as usize, 0usize)
                &&& frame_is(top_frame(final(app)), TextEditKind::Insert, b, seq!['\n'], (l, ch), ((l + 1) as usize, 0usize))
            },
        },
{
    let before = (app.state.cursor_line, app.state.cursor_char);
    let edit = match &mut app.content {
        Some(doc) => {
            let idx = doc.buffer.byte_index(before.0, before.1);
            proof {
                lemma_byte_index(doc.buffer@, before.0 as int, before.1 as int);
            }
            if idx <= doc.len_bytes() {
                edit_content_insert_char(doc, idx, '\n')
            } else {
                None
            }
        },
        None => None,
    };
    if let Some(edit) = edit {
        push_edit_frame(app, edit, before, (before.0 + 1, 0));
        app.state.cursor_line = app.state.cursor_line + 1;
        app.state.cursor_char = 0;
    }
}

/// Opens an empty line below the cursor's line and moves the cursor to it.
pub fn open_line_below(app: &mut App)
    requires
        text_of(old(app)) is Some ==> byte_len(text_of(old(app))->0) + 4 <= usize::MAX
            && old(app).state.cursor_line < usize::MAX,
    ensures
        match text_of(old(app)) {
            None => cursor(final(app)) == (0usize, 0usize) && crate::editor::same_but_cursor(old(app), final(app)),
            Some(s) => {
                let (l, ch) = cursor(old(app));
                let b = line_end_byte(s, l as int);
                &&& inserted(old(app), final(app), b, seq!['\n'])
                &&& cursor(final(app)) == clamp_in(text_of(final(app))->0, old(app).state.mode, (l + 1) as usize, 0)
                &&& frame_is(top_frame(final(app)), TextEditKind::Insert, b, seq!['\n'], (l, ch), ((l + 1) as usize, 0usize))
            },
        },
{
    let before = (app.state.cursor_line, app.state.cursor_char);
    let edit = match &mut app.content {
        Some(doc) => {
            proof {
                lemma_line_bytes(doc.buffer@, before.0 as int);
            }
            let insert_pos = match doc.buffer.line_range(before.0) {
                Some(r) => r.1,
                None => doc.len_bytes(),
            };
            edit_content_insert_char(doc, insert_pos, '\n')
        },
        None => None,
    };
    if let Some(edit) = edit {
        app.state.cursor_line = app.state.cursor_line + 1;
        app.state.cursor_char = 0;
        let after = (app.state.cursor_line, app.state.cursor_char);
        push_edit_frame(app, edit, before, after);
    }
    ensure_cursor_in_bounds(app);
}

/// Opens an empty line above the cursor's line; the cursor stays on the
/// (new, empty) line number it had.
pub fn open_line_above(app: &mut App)
    requires
        text_of(old(app)) is Some ==> byte_len(text_of(old(app))->0) + 4 <= usize::MAX,
    ensures
        match text_of(old(app)) {
            None => cursor(final(app)) == (0usize, 0usize) && crate::editor::same_but_cursor(old(app), final(app)),
            Some(s) => {
                let (l, ch) = cursor(old(app));
                let b = line_start_byte(s, l as int);
                &&& inserted(old(app), final(app), b, seq!['\n'])
                &&& cursor(final(app)) == clamp_in(text_of(final(app))->0, old(app).state.mode, l, 0)
                &&& frame_is(top_frame(final(app)), TextEditKind::Insert, b, seq!['\n'], (l, ch), (l, 0usize))
            },
        },
{
    let before = (app.state.cursor_line, app.state.cursor_char);
    let edit = match &mut app.content {
        Some(doc) => {
            proof {
                lemma_line_bytes(doc.buffer@, before.0 as int);
            }
            let insert_pos = match doc.buffer.line_range(before.0) {
                Some(r) => r.0,
                None => 0,
            };
            edit_content_insert_char(doc, insert_pos, '\n')
        },
        None => None,
    };
    if let Some(edit) = edit {
        app.state.cursor_char = 0;
        let after = (app.state.cursor_line, app.state.cursor_char);
        push_edit_frame(app, edit, before, after);
    }
    ensure_cursor_in_bounds(app);
}

/// The document after removing the chars `[i, j)`, and the edit, as the
/// editing commands below report them (status message aside).
pub open spec fn removed(old_app: &App, new_app: &App, i: int, j: int) -> bool {
    &&& text_of(new_app) == Some(text_of(old_app)->0.take(i) + text_of(old_app)->0.skip(j))
    &&& new_app.content->0.dirty
    &&& recorded(old_app, new_app)
    &&& same_view(old_app, new_app)
}

/// Deletes the char before the cursor (joining the line with the previous
/// one at the start of a line).
pub fn delete_char(app: &mut App)
    ensures
        match text_of(old(app)) {
            None => *final(app) == *old(app),
            Some(s) => {
                let (l, ch) = cursor(old(app));
                let k = pos_index(s, l as int, ch as int);
                if k == 0 {
                    *final(app) == *old(app)
                } else {
                    let after = if ch == 0 && l > 0 {
                        ((l - 1) as usize, line_len_in(s, l - 1) as usize)
                    } else {
                        (l, (ch - 1) as usize)
                    };
                    &&& removed(old(app), final(app), k - 1, k)
                    &&& final(app).state.status_message == old(app).state.status_message
                    &&& cursor(final(app)) == after
                    &&& frame_is(top_frame(final(app)), TextEditKind::Delete, byte_offset(s, k - 1) as int, seq![s[k - 1]], (l, ch), after)
                }
            },
        },
{
    let before = (app.state.cursor_line, app.state.cursor_char);
    let idx = match &app.content {
        Some(doc) => {
            let idx = get_byte_index(doc.content(), before.0, before.1);
            proof {
                lemma_pos_index(doc.buffer@, before.0 as int, before.1 as int);
            }
            if idx > 0 {
                Some(idx)
            } else {
                None
            }
        },
        None => None,
    };
    let idx = match idx {
        Some(i) => i,
        None => return ,
    };
    let ghost s = text_of(app)->0;
    proof {
        crate::chars::lemma_byte_offset_step(s, 0);
        if pos_index(s, before.0 as int, before.1 as int) > 0 {
            lemma_byte_offset_mono(s, 1, pos_index(s, before.0 as int, before.1 as int));
        }
    }
    let deleting_newline = before.1 == 0 && before.0 > 0;
    let new_cursor_char = if deleting_newline {
        line_len(app, before.0 - 1)
    } else {
        before.1 - 1
    };
    let edit = match &mut app.content {
        Some(doc) => edit_content_delete_char(doc, idx),
        None => None,
    };
    if let Some(edit) = edit {
        if deleting_newline {
            app.state.cursor_line = app.state.cursor_line - 1;
            app.state.cursor_char = new_cursor_char;
        } else {
            app.state.cursor_char = new_cursor_char;
        }
        let after = (app.state.cursor_line, app.state.cursor_char);
        push_edit_frame(app, edit, before, after);
    }
}

/// Deletes the char under the cursor (never a line break), keeping the
/// cursor on the line.
pub fn delete_char_under_cursor(app: &mut App)
    ensures
        match text_of(old(app)) {
            None => *final(app) == *old(app),
            Some(s) => {
                let (l, ch) = cursor(old(app));
                let k = pos_index(s, l as int, ch as int);
                if k < s.len() && s[k] != '\n' {
                    let len = line_len_in(s.take(k) + s.skip(k + 1), l as int);
                    let nc = if ch >= len && len > 0 {
                        (len - 1) as usize
                    } else if len == 0 {
                        0usize
                    } else {
                        ch
                    };
                    &&& removed(old(app), final(app), k, k + 1)
                    &&& final(app).state.status_message == old(app).state.status_message
                    &&& cursor(final(app)) == (l, nc)
                    &&& frame_is(top_frame(final(app)), TextEditKind::Delete, byte_offset(s, k) as int, seq![s[k]], (l, ch), (l, nc))
                } else {
                    *final(app) == *old(app)
                }
            },
        },
{
    let before = (app.state.cursor_line, app.state.cursor_char);
    let idx = match &app.content {
        Some(doc) => {
            let idx = get_byte_index(doc.content(), before.0, before.1);
            proof {
                lemma_pos_index(doc.buffer@, before.0 as int, before.1 as int);
            }
            if idx < doc.len_bytes() {
                match doc.buffer.char_at_byte(idx) {
                    Some(c) => if c != '\n' {
                        Some(idx)
                    } else {
                        None
                    },
                    None => None,
                }
            } else {
                None
            }
        },
        None => None,
    };
    let idx = match idx {
        Some(i) => i,
        None => {
            proof {
                if text_of(app) is Some {
                    let s = text_of(app)->0;
                    let k = pos_index(s, before.0 as int, before.1 as int);
                    if k < s.len() {
                        lemma_byte_offset_mono(s, k + 1, s.len() as int);
                        crate::chars::lemma_byte_offset_step(s, k);
                        lemma_byte_offset_full(s);
                    }
                }
            }
            return ;
        },
    };
    let edit = match &mut app.content {
        Some(doc) => edit_content_delete_char_at(doc, idx),
        None => None,
    };
    if let Some(edit) = edit {
        let len = line_len(app, app.state.cursor_line);
        if app.state.cursor_char >= len && len > 0 {
            app.state.cursor_char = len - 1;
        } else if len == 0 {
            app.state.cursor_char = 0;
        }
        let after = (app.state.cursor_line, app.state.cursor_char);
        push_edit_frame(app, edit, before, after);
    }
}

/// `a` comes after `b` (line first, then column).
pub open spec fn pos_after(a: (usize, usize), b: (usize, usize)) -> bool {
    a.0 > b.0 || (a.0 == b.0 && a.1 > b.1)
}

/// One past the char index at `end`, capped at the end of the text.
pub open spec fn range_end_index(s: Seq<char>, end: (usize, usize)) -> int {
    let ke = pos_index(s, end.0 as int, end.1 as int);
    if ke < s.len() {
        ke + 1
    } else {
        s.len() as int
    }
}

/// A range from `start` through `end` takes the char at `end` too: when
/// `end` is on a char at or after `start`'s, the range holds the
/// `ke - ks + 1` chars from `start`'s char through `end`'s, the last of
/// them the char at `end`.
pub proof fn lemma_range_includes_end(s: Seq<char>, start: (usize, usize), end: (usize, usize))
    requires
        pos_index(s, end.0 as int, end.1 as int) < s.len(),
        pos_index(s, start.0 as int, start.1 as int) <= pos_index(s, end.0 as int, end.1 as int),
    ensures
        ({
            let ks = pos_index(s, start.0 as int, start.1 as int);
            let ke = pos_index(s, end.0 as int, end.1 as int);
            let r = s.subrange(ks, range_end_index(s, end));
            &&& range_end_index(s, end) == ke + 1
            &&& r.len() == ke - ks + 1
            &&& r.last() == s[ke]
            &&& r[0] == s[ks]
        }),
{
    crate::editor::lemma_pos_index(s, start.0 as int, start.1 as int);
}

/// Deletes the text from `start` through `end` (both included); the cursor
/// goes to `start`. A reversed range only moves the cursor.
pub fn delete_range(app: &mut App, start: (usize, usize), end: (usize, usize))
    ensures
        ({
            let s = text_of(old(app))->0;
            let ks = pos_index(s, start.0 as int, start.1 as int);
            let je = range_end_index(s, end);
            if text_of(old(app)) is Some && !pos_after(start, end) && ks < je {
                &&& removed(old(app), final(app), ks, je)
                &&& final(app).state.status_message == old(app).state.status_message
                &&& cursor(final(app)) == clamp_in(text_of(final(app))->0, old(app).state.mode, start.0, start.1)
                &&& frame_is(top_frame(final(app)), TextEditKind::Delete, byte_offset(s, ks) as int, s.subrange(ks, je), cursor(old(app)), cursor(final(app)))
            } else if pos_after(start, end) {
                cursor(final(app)) == start && same_but_cursor(old(app), final(app))
            } else {
                *final(app) == *old(app)
            }
        }),
{
    let reversed = start.0 > end.0 || (start.0 == end.0 && start.1 > end.1);
    let range = match &app.content {
        Some(doc) => {
            let content = doc.content();
            let total = doc.len_bytes();
            let ghost s = doc.buffer@;
            let start_idx = get_byte_index(content, start.0, start.1);
            proof {
                lemma_pos_index(s, start.0 as int, start.1 as int);
                lemma_pos_index(s, end.0 as int, end.1 as int);
                lemma_byte_offset_full(s);
            }
            if reversed {
                None
            } else {
                let end_idx = get_byte_index(content, end.0, end.1);
                let end_char_len = match doc.buffer.char_at_byte(end_idx) {
                    Some(c) => crate::chars::char_utf8_len(c),
                    None => 0,
                };
                proof {
                    let ke = pos_index(s, end.0 as int, end.1 as int);
                    if ke < s.len() {
                        crate::chars::lemma_byte_offset_step(s, ke);
                        lemma_byte_offset_mono(s, ke + 1, s.len() as int);
                    }
                }
                let delete_end = end_idx + end_char_len;
                proof {
                    let ks = pos_index(s, start.0 as int, start.1 as int);
                    let je = range_end_index(s, end);
                    assert(delete_end == byte_offset(s, je));
                    if ks < je {
                        lemma_byte_offset_mono(s, ks, je);
                    } else {
                        lemma_byte_offset_mono(s, je, ks);
                    }
                    lemma_char_index_of(s, je);
                }
                if start_idx < delete_end && delete_end <= total {
                    Some((start_idx, delete_end))
                } else {
                    None
                }
            }
        },
        None => None,
    };
    match range {
        Some((a, e)) => {
            let before = (app.state.cursor_line, app.state.cursor_char);
            let edit = match &mut app.content {
                Some(doc) => edit_content_delete_range(doc, a, e),
                None => None,
            };
            if let Some(edit) = edit {
                app.state.cursor_line = start.0;
                app.state.cursor_char = start.1;
                ensure_cursor_in_bounds(app);
                let after = (app.state.cursor_line, app.state.cursor_char);
                push_edit_frame(app, edit, before, after);
            }
        },
        None => {
            if reversed {
                app.state.cursor_line = start.0;
                app.state.cursor_char = start.1;
            }
        },
    }
}

/// The status shown after deleting `n` lines.
pub open spec fn lines_deleted_message(n: nat) -> Seq<char> {
    crate::chars::decimal(n) + " line(s) deleted"@
}

/// Deletes `count` lines from the cursor's line on (fewer at the end of
/// the text), with their line breaks.
pub fn delete_line(app: &mut App, count: usize)
    requires
        text_of(old(app)) is Some ==> old(app).state.cursor_line + count <= usize::MAX,
    ensures
        ({
            let s = text_of(old(app))->0;
            let lines = spec_lines(s);
            let l = old(app).state.cursor_line as int;
            if text_of(old(app)) is Some && l < lines.len() {
                let el = if l + count < lines.len() { l + count } else { lines.len() as int };
                let a = lines[l].0;
                let b = if el >= lines.len() { s.len() as int } else { lines[el].0 };
                let s2 = s.take(a) + s.skip(b);
                let nlc = spec_lines(s2).len();
                let c1 = if l >= nlc { ((nlc - 1) as usize, 0usize) } else { (l as usize, 0usize) };
                &&& removed(old(app), final(app), a, b)
                &&& final(app).state.status_message is Some
                &&& final(app).state.status_message->0@ == lines_deleted_message((el - l) as nat)
                &&& frame_is(top_frame(final(app)), TextEditKind::Delete, byte_offset(s, a) as int, s.subrange(a, b), cursor(old(app)), c1)
                &&& cursor(final(app)) == clamp_in(s2, old(app).state.mode, c1.0, c1.1)
            } else {
                *final(app) == *old(app)
            }
        }),
{
    let line_count = crate::editor::get_line_count(app);
    proof {
        if text_of(app) is Some {
            lemma_lines_bounds(text_of(app)->0);
        }
    }
    if line_count == 0 {
        return ;
    }
    let before = (app.state.cursor_line, app.state.cursor_char);
    let start_line = app.state.cursor_line;
    let end_line = if start_line + count < line_count {
        start_line + count
    } else {
        line_count
    };
    let edit = match &mut app.content {
        Some(doc) => {
            let ghost s = doc.buffer@;
            proof {
                lemma_lines_bounds(s);
                lemma_byte_offset_full(s);
            }
            let start_byte = match doc.buffer.line_range(start_line) {
                Some(r) => r.0,
                None => return ,
            };
            let end_byte = if end_line >= line_count {
                doc.len_bytes()
            } else {
                match doc.buffer.line_range(end_line) {
                    Some(r) => r.0,
                    None => doc.len_bytes(),
                }
            };
            proof {
                let lines = spec_lines(s);
                let a = lines[start_line as int].0;
                assert(0 <= lines[start_line as int].0 <= lines[start_line as int].1 <= s.len());
                let b = if end_line >= line_count { s.len() as int } else { lines[end_line as int].0 };
                if end_line < line_count {
                    assert(0 <= lines[end_line as int].0 <= lines[end_line as int].1 <= s.len());
                    crate::buffer::lemma_lines_order(s, start_line as int, end_line as int);
                }
                lemma_char_index_of(s, a);
                lemma_char_index_of(s, b);
                lemma_byte_offset_mono(s, a, b);
                lemma_byte_offset_mono(s, b, s.len() as int);
            }
            edit_content_delete_range(doc, start_byte, end_byte)
        },
        None => None,
    };
    if let Some(edit) = edit {
        let new_line_count = crate::editor::get_line_count(app);
        proof {
            lemma_lines_bounds(text_of(app)->0);
        }
        if new_line_count == 0 {
            app.state.cursor_line = 0;
            app.state.cursor_char = 0;
        } else if app.state.cursor_line >= new_line_count {
            app.state.cursor_line = new_line_count - 1;
            app.state.cursor_char = 0;
        } else {
            app.state.cursor_char = 0;
        }
        let deleted = end_line - start_line;
        let mut msg = crate::chars::usize_to_string(deleted);
        crate::chars::push_str(&mut msg, " line(s) deleted");
        app.state.status_message = Some(msg);
        let after = (app.state.cursor_line, app.state.cursor_char);
        push_edit_frame(app, edit, before, after);
    }
    ensure_cursor_in_bounds(app);
}

/// Where the text of line `r` ends: before its line break, if it has one.
pub open spec fn content_end(s: Seq<char>, r: (int, int)) -> int {
    if r.0 < r.1 && s[r.1 - 1] == '\n' {
        r.1 - 1
    } else {
        r.1
    }
}

/// Empties the cursor's line (keeping its line break) and moves the cursor
/// to its start.
pub fn delete_line_content(app: &mut App)
    ensures
        ({
            let s = text_of(old(app))->0;
            let l = old(app).state.cursor_line as int;
            if text_of(old(app)) is Some && l < spec_lines(s).len() {
                let r = spec_lines(s)[l];
                let e = content_end(s, r);
                &&& removed(old(app), final(app), r.0, e)
                &&& final(app).state.status_message == old(app).state.status_message
                &&& frame_is(top_frame(final(app)), TextEditKind::Delete, byte_offset(s, r.0) as int, s.subrange(r.0, e), cursor(old(app)), cursor(old(app)))
                &&& cursor(final(app)) == clamp_in(text_of(final(app))->0, old(app).state.mode, l as usize, 0)
            } else if text_of(old(app)) is Some {
                cursor(final(app)) == clamp_in(s, old(app).state.mode, l as usize, 0)
                    && same_but_cursor(old(app), final(app))
            } else {
                cursor(final(app)) == (0usize, 0usize) && same_but_cursor(old(app), final(app))
            }
        }),
{
    let before = (app.state.cursor_line, app.state.cursor_char);
    let has_doc = app.content.is_some();
    let edit = match &mut app.content {
        Some(doc) => {
            let ghost s = doc.buffer@;
            proof {
                lemma_lines_bounds(s);
            }
            match doc.buffer.line_range(before.0) {
                Some(r) => {
                    let ghost cr = spec_lines(s)[before.0 as int];
                    proof {
                        assert(0 <= cr.0 <= cr.1 <= s.len());
                        lemma_char_index_of(s, cr.0);
                        lemma_char_index_of(s, cr.1);
                        if cr.0 < cr.1 {
                            lemma_byte_offset_mono(s, cr.0, cr.1 - 1);
                            lemma_char_index_of(s, cr.1 - 1);
                        }
                    }
                    let delete_end = if r.0 < r.1 {
                        match doc.buffer.char_before_byte(r.1) {
                            Some((p, c)) => if c == '\n' {
                                p
                            } else {
                                r.1
                            },
                            None => r.1,
                        }
                    } else {
                        r.1
                    };
                    proof {
                        lemma_byte_offset_mono(s, cr.0, cr.1);
                        lemma_byte_offset_mono(s, cr.1, s.len() as int);
                        lemma_byte_offset_full(s);
                        if cr.0 < cr.1 {
                            crate::chars::lemma_byte_offset_step(s, cr.1 - 1);
                        }
                    }
                    edit_content_delete_range(doc, r.0, delete_end)
                },
                None => None,
            }
        },
        None => None,
    };
    if let Some(edit) = edit {
        push_edit_frame(app, edit, before, before);
    }
    if has_doc {
        app.state.cursor_char = 0;
    }
    ensure_cursor_in_bounds(app);
}

/// Deletes from the cursor to the end of its line (the line break stays).
pub fn delete_to_end_of_line(app: &mut App)
    ensures
        ({
            let s = text_of(old(app))->0;
            let (l, ch) = cursor(old(app));
            let len = crate::editor::line_length(old(app), l as int);
            if len == 0 || ch >= len {
                *final(app) == *old(app)
            } else {
                let r = spec_lines(s)[l as int];
                let k = pos_index(s, l as int, ch as int);
                let e = if r.1 > 0 && s[r.1 - 1] == '\n' { r.1 - 1 } else { r.1 };
                &&& text_of(old(app)) is Some
                &&& if k < e {
                    &&& removed(old(app), final(app), k, e)
                    &&& final(app).state.status_message == old(app).state.status_message
                    &&& frame_is(top_frame(final(app)), TextEditKind::Delete, byte_offset(s, k) as int, s.subrange(k, e), (l, ch), (l, ch))
                    &&& cursor(final(app)) == clamp_in(text_of(final(app))->0, old(app).state.mode, l, ch)
                } else {
                    cursor(final(app)) == clamp_in(s, old(app).state.mode, l, ch)
                        && same_but_cursor(old(app), final(app))
                }
            }
        }),
{
    let content_len = line_len(app, app.state.cursor_line);
    if content_len == 0 || app.state.cursor_char >= content_len {
        return ;
    }
    let before = (app.state.cursor_line, app.state.cursor_char);
    let edit = match &mut app.content {
        Some(doc) => {
            let ghost s = doc.buffer@;
            proof {
                lemma_lines_bounds(s);
                lemma_pos_index(s, before.0 as int, before.1 as int);
            }
            let cursor_byte = get_byte_index(doc.content(), before.0, before.1);
            match doc.buffer.line_range(before.0) {
                Some(r) => {
                    let ghost cr = spec_lines(s)[before.0 as int];
                    proof {
                        assert(0 <= cr.0 <= cr.1 <= s.len());
                        lemma_char_index_of(s, cr.1);
                        if cr.1 > 0 {
                            lemma_char_index_of(s, cr.1 - 1);
                            crate::chars::lemma_byte_offset_step(s, cr.1 - 1);
                        }
                    }
                    let actual_end = match doc.buffer.char_before_byte(r.1) {
                        Some((p, c)) => if c == '\n' {
                            p
                        } else {
                            r.1
                        },
                        None => r.1,
                    };
                    proof {
                        let k = pos_index(s, before.0 as int, before.1 as int);
                        let e = if cr.1 > 0 && s[cr.1 - 1] == '\n' { cr.1 - 1 } else { cr.1 };
                        if k < e {
                            lemma_byte_offset_mono(s, k, e);
                        } else {
                            lemma_byte_offset_mono(s, e, k);
                        }
                        lemma_byte_offset_mono(s, e, s.len() as int);
                        lemma_byte_offset_full(s);
                        lemma_char_index_of(s, e);
                    }
                    if cursor_byte < actual_end {
                        edit_content_delete_range(doc, cursor_byte, actual_end)
                    } else {
                        None
                    }
                },
                None => None,
            }
        },
        None => None,
    };
    if let Some(edit) = edit {
        push_edit_frame(app, edit, before, before);
    }
    ensure_cursor_in_bounds(app);
}

} // verus!

//! Undo and redo of the preview editor's edits.
use vstd::prelude::*;
use crate::buffer::{lemma_undo_restores, spec_apply, inverse_kind, TextUndoFrame};
use crate::chars::{byte_len, to_owned_string};
use crate::editor::{App, text_of, clamp_in, ensure_cursor_in_bounds, same_view};
use crate::edit_ops::{apply_text_edit, frame_is};

verus! {

/// `new`'s undo history is `old`'s with one more frame on top, and its redo
/// history is empty.
pub open spec fn recorded(old_app: &App, new_app: &App) -> bool {
    &&& new_app.state.undo_stack@.len() == old_app.state.undo_stack@.len() + 1
    &&& forall|i: int|
        0 <= i < old_app.state.undo_stack@.len() ==> new_app.state.undo_stack@[i]
            == old_app.state.undo_stack@[i]
    &&& new_app.state.redo_stack@.len() == 0
}

/// The frame on top of the undo history.
pub open spec fn top_frame(app: &App) -> TextUndoFrame {
    app.state.undo_stack@.last()
}

/// Records an edit for undo and forgets the redo history.
pub fn record_edit(app: &mut App, frame: TextUndoFrame)
    ensures
        recorded(old(app), final(app)),
        top_frame(final(app)) == frame,
        final(app).content == old(app).content,
        final(app).state.cursor_line == old(app).state.cursor_line,
        final(app).state.cursor_char == old(app).state.cursor_char,
        final(app).state.status_message == old(app).state.status_message,
        same_view(old(app), final(app)),
{
    app.state.undo_stack.push(frame);
    app.state.redo_stack.clear();
}

/// The status message of `app` reads `msg`.
pub open spec fn status_is(app: &App, msg: Seq<char>) -> bool {
    app.state.status_message is Some && app.state.status_message->0@ == msg
}

/// `b` shows the same document as `a`, equally stale.
pub open spec fn same_doc(a: &App, b: &App) -> bool {
    &&& text_of(b) == text_of(a)
    &&& a.content is Some ==> b.content->0.dirty == a.content->0.dirty
}

/// The document text after applying the edit `e` to `app`'s text, if it applies.
pub open spec fn apply_to(app: &App, e: crate::buffer::TextEdit) -> Option<Seq<char>> {
    match text_of(app) {
        Some(s) => spec_apply(s, e.kind, e.byte_idx as int, e.text@),
        None => None,
    }
}

/// What undo does: with an empty undo history only a status; else the top
/// frame leaves the history and, when its reversing edit applies, the text
/// is reverted, the frame goes to the redo history and the cursor returns
/// to where it was before the edit.
pub open spec fn undo_result(a: &App, b: &App) -> bool {
    let st = a.state.undo_stack@;
    &&& same_view(a, b)
    &&& if st.len() == 0 {
        &&& b.content == a.content
        &&& b.state.undo_stack@ == st
        &&& b.state.redo_stack@ == a.state.redo_stack@
        &&& (b.state.cursor_line, b.state.cursor_char) == (a.state.cursor_line, a.state.cursor_char)
        &&& status_is(b, "Already at oldest change"@)
    } else {
        let f = st.last();
        &&& b.state.undo_stack@ == st.drop_last()
        &&& match apply_to(a, f.undo_edit) {
            Some(t) => {
                &&& text_of(b) == Some(t)
                &&& b.content->0.dirty
                &&& b.state.redo_stack@ == a.state.redo_stack@.push(f)
                &&& (b.state.cursor_line, b.state.cursor_char) == clamp_in(t, a.state.mode, f.before_cursor.0, f.before_cursor.1)
                &&& status_is(b, "Undo"@)
            },
            None => {
                &&& same_doc(a, b)
                &&& b.state.redo_stack@ == a.state.redo_stack@
                &&& (b.state.cursor_line, b.state.cursor_char) == (a.state.cursor_line, a.state.cursor_char)
                &&& status_is(b, "Undo failed"@)
            },
        }
    }
}

/// What redo does: the mirror image of `undo_result`, with the forward edit
/// and the cursor after it.
pub open spec fn redo_result(a: &App, b: &App) -> bool {
    let st = a.state.redo_stack@;
    &&& same_view(a, b)
    &&& if st.len() == 0 {
        &&& b.content == a.content
        &&& b.state.redo_stack@ == st
        &&& b.state.undo_stack@ == a.state.undo_stack@
        &&& (b.state.cursor_line, b.state.cursor_char) == (a.state.cursor_line, a.state.cursor_char)
        &&& status_is(b, "Already at newest change"@)
    } else {
        let f = st.last();
        &&& b.state.redo_stack@ == st.drop_last()
        &&& match apply_to(a, f.redo_edit) {
            Some(t) => {
                &&& text_of(b) == Some(t)
                &&& b.content->0.dirty
                &&& b.state.undo_stack@ == a.state.undo_stack@.push(f)
                &&& (b.state.cursor_line, b.state.cursor_char) == clamp_in(t, a.state.mode, f.after_cursor.0, f.after_cursor.1)
                &&& status_is(b, "Redo"@)
            },
            None => {
                &&& same_doc(a, b)
                &&& b.state.undo_stack@ == a.state.undo_stack@
                &&& (b.state.cursor_line, b.state.cursor_char) == (a.state.cursor_line, a.state.cursor_char)
                &&& status_is(b, "Redo failed"@)
            },
        }
    }
}

/// The edit `e` can be applied to `app`'s text without overflowing a byte
/// index.
pub open spec fn edit_fits(app: &App, e: crate::buffer::TextEdit) -> bool {
    text_of(app) is Some ==> e.byte_idx + byte_len(e.text@) <= usize::MAX
        && byte_len(text_of(app)->0) + byte_len(e.text@) <= usize::MAX
}

/// Reverts the last recorded edit.
pub fn perform_undo(app: &mut App)
    requires
        old(app).state.undo_stack@.len() > 0 ==> edit_fits(old(app), old(app).state.undo_stack@.last().undo_edit),
    ensures
        undo_result(old(app), final(app)),
{
    match app.state.undo_stack.pop() {
        Some(frame) => {
            let applied = match &mut app.content {
                Some(doc) => apply_text_edit(doc, &frame.undo_edit),
                None => false,
            };
            if applied {
                let before = frame.before_cursor;
                app.state.redo_stack.push(frame);
                app.state.cursor_line = before.0;
                app.state.cursor_char = before.1;
                ensure_cursor_in_bounds(app);
                app.state.status_message = Some(to_owned_string("Undo"));
                return ;
            }
            app.state.status_message = Some(to_owned_string("Undo failed"));
        },
        None => {
            app.state.status_message = Some(to_owned_string("Already at oldest change"));
        },
    }
}

/// Re-applies the last undone edit.
pub fn perform_redo(app: &mut App)
    requires
        old(app).state.redo_stack@.len() > 0 ==> edit_fits(old(app), old(app).state.redo_stack@.last().redo_edit),
    ensures
        redo_result(old(app), final(app)),
{
    match app.state.redo_stack.pop() {
        Some(frame) => {
            let applied = match &mut app.content {
                Some(doc) => apply_text_edit(doc, &frame.redo_edit),
                None => false,
            };
            if applied {
                let after = frame.after_cursor;
                app.state.undo_stack.push(frame);
                app.state.cursor_line = after.0;
                app.state.cursor_char = after.1;
                ensure_cursor_in_bounds(app);
                app.state.status_message = Some(to_owned_string("Redo"));
                return ;
            }
            app.state.status_message = Some(to_owned_string("Redo failed"));
        },
        None => {
            app.state.status_message = Some(to_owned_string("Already at newest change"));
        },
    }
}

/// Undo reverts the last recorded edit: when the top frame of the undo
/// history records an edit that turned `s` into the current text, undoing
/// brings the text back to `s`, returns the cursor to where it was before
/// the edit and makes the frame the next redo.
pub proof fn lemma_undo_reverts_edit(
    a: &App,
    b: &App,
    s: Seq<char>,
    kind: crate::buffer::TextEditKind,
    pos: int,
    t: Seq<char>,
    before: (usize, usize),
    after: (usize, usize),
)
    requires
        a.state.undo_stack@.len() > 0,
        frame_is(a.state.undo_stack@.last(), kind, pos, t, before, after),
        spec_apply(s, kind, pos, t) is Some,
        text_of(a) == spec_apply(s, kind, pos, t),
        undo_result(a, b),
    ensures
        text_of(b) == Some(s),
        (b.state.cursor_line, b.state.cursor_char) == clamp_in(s, a.state.mode, before.0, before.1),
        b.state.undo_stack@ == a.state.undo_stack@.drop_last(),
        b.state.redo_stack@ == a.state.redo_stack@.push(a.state.undo_stack@.last()),
        b.state.redo_stack@.last() == a.state.undo_stack@.last(),
        status_is(b, "Undo"@),
{
    lemma_undo_restores(s, kind, pos, t);
}

/// Redo re-applies what undo reverted: undoing the top frame and then
/// redoing gives back the text and the undo history, with the cursor where
/// the edit left it.
pub proof fn lemma_redo_after_undo(a: &App, b: &App, c: &App, s: Seq<char>, kind: crate::buffer::TextEditKind, pos: int, t: Seq<char>, before: (usize, usize), after: (usize, usize))
    requires
        a.state.undo_stack@.len() > 0,
        frame_is(a.state.undo_stack@.last(), kind, pos, t, before, after),
        spec_apply(s, kind, pos, t) is Some,
        text_of(a) == spec_apply(s, kind, pos, t),
        undo_result(a, b),
        redo_result(b, c),
    ensures
        text_of(c) == text_of(a),
        c.state.undo_stack@ == a.state.undo_stack@,
        c.state.redo_stack@ == a.state.redo_stack@,
        (c.state.cursor_line, c.state.cursor_char) == clamp_in(text_of(a)->0, a.state.mode, after.0, after.1),
        status_is(c, "Redo"@),
{
    lemma_undo_restores(s, kind, pos, t);
    assert(a.state.undo_stack@.drop_last().push(a.state.undo_stack@.last()) =~= a.state.undo_stack@);
    assert(a.state.redo_stack@.push(a.state.undo_stack@.last()).drop_last() =~= a.state.redo_stack@);
}

/// With nothing to undo, undo changes neither the text nor the histories
/// nor the cursor, and says so.
pub proof fn lemma_undo_at_oldest(a: &App, b: &App)
    requires
        a.state.undo_stack@.len() == 0,
        undo_result(a, b),
    ensures
        text_of(b) == text_of(a),
        b.state.undo_stack@ == a.state.undo_stack@,
        b.state.redo_stack@ == a.state.redo_stack@,
        (b.state.cursor_line, b.state.cursor_char) == (a.state.cursor_line, a.state.cursor_char),
        status_is(b, "Already at oldest change"@),
{
}

/// With nothing to redo, redo changes neither the text nor the histories
/// nor the cursor, and says so.
pub proof fn lemma_redo_at_newest(a: &App, b: &App)
    requires
        a.state.redo_stack@.len() == 0,
        redo_result(a, b),
    ensures
        text_of(b) == text_of(a),
        b.state.undo_stack@ == a.state.undo_stack@,
        b.state.redo_stack@ == a.state.redo_stack@,
        (b.state.cursor_line, b.state.cursor_char) == (a.state.cursor_line, a.state.cursor_char),
        status_is(b, "Already at newest change"@),
{
}

} // verus!

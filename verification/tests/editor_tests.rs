use binocular::buffer::TextBuffer;
use binocular::edit_ops::{delete_char, delete_line, insert_char, insert_newline};
use binocular::editor::{App, InputMode, PreviewState, RichTextDocument};
use binocular::motion::{move_matching_bracket, move_word_forward};
use binocular::search::perform_search;
use binocular::undo::{perform_redo, perform_undo};

fn app(text: &str, line: usize, col: usize) -> App {
    App {
        content: Some(RichTextDocument { buffer: TextBuffer::new(text.to_string()), dirty: false }),
        state: PreviewState {
            cursor_line: line,
            cursor_char: col,
            scroll: 0,
            scroll_char: 0,
            mode: InputMode::Normal,
            selection_start: None,
            undo_stack: Vec::new(),
            redo_stack: Vec::new(),
            status_message: None,
            search_query: String::new(),
        },
        preview_height: 20,
        preview_width: 80,
    }
}

fn text(app: &App) -> String {
    app.content.as_ref().unwrap().buffer.as_str().to_string()
}

#[test]
fn undo_reverts_an_insert_and_redo_replays_it() {
    let mut a = app("ab", 0, 1);
    insert_char(&mut a, 'X');
    assert_eq!(text(&a), "aXb");
    assert_eq!((a.state.cursor_line, a.state.cursor_char), (0, 2));
    perform_undo(&mut a);
    assert_eq!(text(&a), "ab");
    assert_eq!((a.state.cursor_line, a.state.cursor_char), (0, 1));
    perform_redo(&mut a);
    assert_eq!(text(&a), "aXb");
    assert_eq!((a.state.cursor_line, a.state.cursor_char), (0, 2));
}

#[test]
fn newline_splits_the_line() {
    let mut a = app("ab", 0, 1);
    insert_newline(&mut a);
    assert_eq!(text(&a), "a\nb");
    assert_eq!((a.state.cursor_line, a.state.cursor_char), (1, 0));
}

#[test]
fn backspace_removes_the_char_before_the_cursor() {
    let mut a = app("abc", 0, 2);
    delete_char(&mut a);
    assert_eq!(text(&a), "ac");
    assert_eq!((a.state.cursor_line, a.state.cursor_char), (0, 1));
    let mut a = app("abc", 0, 0);
    delete_char(&mut a);
    assert_eq!(text(&a), "abc");
}

#[test]
fn deleting_a_line_reports_it() {
    let mut a = app("one\ntwo\nthree", 1, 0);
    delete_line(&mut a, 1);
    assert_eq!(text(&a), "one\nthree");
    assert_eq!(a.state.status_message.as_deref(), Some("1 line(s) deleted"));
    perform_undo(&mut a);
    assert_eq!(text(&a), "one\ntwo\nthree");
}

#[test]
fn search_moves_to_the_next_match_and_wraps() {
    let mut a = app("foo bar foo", 0, 0);
    a.state.search_query = "foo".to_string();
    perform_search(&mut a, true);
    assert_eq!((a.state.cursor_line, a.state.cursor_char), (0, 8));
    perform_search(&mut a, true);
    assert_eq!((a.state.cursor_line, a.state.cursor_char), (0, 0));
    perform_search(&mut a, false);
    assert_eq!((a.state.cursor_line, a.state.cursor_char), (0, 8));
}

#[test]
fn bracket_and_word_motions() {
    let mut a = app("(a[b])", 0, 0);
    move_matching_bracket(&mut a);
    assert_eq!(a.state.cursor_char, 5);
    move_matching_bracket(&mut a);
    assert_eq!(a.state.cursor_char, 0);
    let mut a = app("foo bar", 0, 0);
    move_word_forward(&mut a, 1);
    assert_eq!(a.state.cursor_char, 4);
}

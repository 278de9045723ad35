use binocular::log_types::{LogEntry, LogFormat, StructuredLog};
use binocular::log_viewer::{
    action_for_key, append_entries, apply_action, apply_append, copy_text, initialize_empty_stream,
    preview_content, ColumnAction, CursorAction, FilterAction, LogKey, LogViewerAction, LogViewerOutcome,
    ModalAction,
};

fn entry(fields: &[(&str, &str)], raw: &str) -> LogEntry {
    LogEntry {
        fields: fields.iter().map(|(k, v)| (k.to_string(), v.to_string())).collect(),
        raw: raw.to_string(),
    }
}

fn two_level_log() -> StructuredLog {
    StructuredLog {
        entries: vec![
            entry(&[("level", "info")], "level=info"),
            entry(&[("level", "warn")], "level=warn"),
        ],
        total_lines: 2,
        all_fields: vec!["level".to_string()],
        format: LogFormat::Logfmt,
    }
}

#[test]
fn preview_content_initializes_reverse_match_order() {
    let preview = preview_content(two_level_log(), vec![None, None]);
    assert_eq!(preview.filter_state.cached_matches, vec![1, 0]);
    assert_eq!(preview.filter_state.visible_cols.len(), 1);
    assert_eq!(preview.filter_state.visible_cols[0].field, "level");
}

#[test]
fn append_entries_tracks_total_lines_even_after_capacity() {
    let log = StructuredLog {
        entries: vec![entry(&[("level", "info")], "level=info")],
        total_lines: 1,
        all_fields: vec!["level".to_string()],
        format: LogFormat::Logfmt,
    };
    let mut preview = preview_content(log, vec![None]);
    append_entries(
        &mut preview,
        vec![
            entry(&[("msg", "first")], "msg=first"),
            entry(&[("msg", "second")], "msg=second"),
        ],
        vec![None, None],
        2,
    );
    assert_eq!(preview.log.total_lines, 3);
    assert_eq!(preview.log.entries.len(), 2);
    assert_eq!(preview.filter_state.cached_matches, vec![1, 0]);
    assert!(preview.log.all_fields.iter().any(|field| field == "msg"));
    assert!(preview.filter_state.visible_cols.iter().any(|c| c.field == "msg" && c.width == 15));
}

#[test]
fn paused_viewer_ignores_new_entries() {
    let mut preview = preview_content(two_level_log(), vec![None, None]);
    apply_action(&mut preview, LogViewerAction::TogglePause, false);
    append_entries(&mut preview, vec![entry(&[("a", "b")], "a=b")], vec![None], 10);
    assert_eq!(preview.log.entries.len(), 2);
    assert_eq!(preview.log.total_lines, 2);
}

#[test]
fn filter_actions_recompute_matches() {
    let mut preview = preview_content(two_level_log(), vec![None, None]);
    apply_action(&mut preview, LogViewerAction::Filter(FilterAction::StartEditing), false);
    apply_action(&mut preview, LogViewerAction::Filter(FilterAction::Insert('w')), false);
    assert_eq!(preview.filter_state.cached_matches, vec![1]);
    apply_action(&mut preview, LogViewerAction::Filter(FilterAction::Backspace), false);
    assert_eq!(preview.filter_state.cached_matches, vec![1, 0]);
    assert_eq!(preview.filter_state.input, "");
}

#[test]
fn modal_actions_toggle_and_apply() {
    let log = StructuredLog {
        entries: vec![entry(&[("level", "info"), ("msg", "hello")], "level=info msg=hello")],
        total_lines: 1,
        all_fields: vec!["level".to_string(), "msg".to_string()],
        format: LogFormat::Logfmt,
    };
    let mut preview = preview_content(log, vec![None]);
    let fields = preview.log.all_fields.clone();
    preview.filter_state.open_col_modal(&fields);

    let (outcome, clip) = apply_action(
        &mut preview,
        LogViewerAction::Modal(ModalAction::Toggle { advance: true }),
        false,
    );
    assert_eq!(outcome, LogViewerOutcome::Continue);
    assert!(clip.is_none());
    assert_eq!(preview.filter_state.col_modal.as_ref().map(|m| m.cursor), Some(1));

    apply_action(&mut preview, LogViewerAction::Modal(ModalAction::Apply), false);
    assert!(preview.filter_state.col_modal.is_none());
    assert_eq!(preview.filter_state.visible_cols.len(), 1);
    assert_eq!(preview.filter_state.visible_cols[0].field, "msg");
}

#[test]
fn normal_mode_keys_map_to_explicit_actions() {
    let log = StructuredLog {
        entries: vec![entry(&[("level", "info")], "level=info")],
        total_lines: 1,
        all_fields: vec!["level".to_string()],
        format: LogFormat::Logfmt,
    };
    let preview = preview_content(log, vec![None]);
    assert_eq!(
        action_for_key(&preview, LogKey::Char('d')),
        Some(LogViewerAction::Cursor(CursorAction::Down(20)))
    );
    assert_eq!(
        action_for_key(&preview, LogKey::Char('a')),
        Some(LogViewerAction::Column(ColumnAction::OpenPicker))
    );
}

#[test]
fn keys_while_typing_edit_the_filter() {
    let mut preview = preview_content(two_level_log(), vec![None, None]);
    preview.filter_state.input_active = true;
    assert_eq!(
        action_for_key(&preview, LogKey::Char('d')),
        Some(LogViewerAction::Filter(FilterAction::Insert('d')))
    );
    assert_eq!(
        action_for_key(&preview, LogKey::Enter),
        Some(LogViewerAction::Filter(FilterAction::StopEditing))
    );
    assert_eq!(action_for_key(&preview, LogKey::Up), None);
}

#[test]
fn exit_depends_on_the_mode() {
    let mut preview = preview_content(two_level_log(), vec![None, None]);
    assert_eq!(apply_action(&mut preview, LogViewerAction::Exit, true).0, LogViewerOutcome::ExitApp);
    assert_eq!(apply_action(&mut preview, LogViewerAction::Exit, false).0, LogViewerOutcome::FocusSearch);
}

#[test]
fn cursor_moves_stay_on_matches() {
    let mut preview = preview_content(two_level_log(), vec![None, None]);
    apply_action(&mut preview, LogViewerAction::Cursor(CursorAction::Down(20)), false);
    assert_eq!(preview.filter_state.cursor, 1);
    apply_action(&mut preview, LogViewerAction::Cursor(CursorAction::Up(5)), false);
    assert_eq!(preview.filter_state.cursor, 0);
    apply_action(&mut preview, LogViewerAction::Cursor(CursorAction::ToOldest), false);
    assert_eq!(preview.filter_state.cursor, 1);
}

#[test]
fn copy_takes_marked_entries_then_clears_marks() {
    let mut preview = preview_content(two_level_log(), vec![None, None]);
    assert_eq!(copy_text(&preview, true), Some("level=warn".to_string()));
    apply_action(&mut preview, LogViewerAction::ToggleMark, false);
    apply_action(&mut preview, LogViewerAction::Cursor(CursorAction::Down(1)), false);
    apply_action(&mut preview, LogViewerAction::ToggleMark, false);
    let (_, clip) = apply_action(&mut preview, LogViewerAction::Copy { raw: true }, false);
    assert_eq!(clip, Some("level=warn\nlevel=info".to_string()));
    assert!(preview.filter_state.marked.is_empty());
    let (_, clip) = apply_action(&mut preview, LogViewerAction::Copy { raw: false }, false);
    assert_eq!(clip, Some("level=info".to_string()));
}

#[test]
fn reset_brings_back_every_entry_and_column() {
    let mut preview = preview_content(two_level_log(), vec![None, None]);
    apply_action(&mut preview, LogViewerAction::Filter(FilterAction::Insert('w')), false);
    apply_action(&mut preview, LogViewerAction::Column(ColumnAction::IsolateSelected), false);
    apply_action(&mut preview, LogViewerAction::ResetView, false);
    assert_eq!(preview.filter_state.input, "");
    assert_eq!(preview.filter_state.cached_matches, vec![1, 0]);
    assert_eq!(preview.filter_state.visible_cols.len(), 1);
}

#[test]
fn columns_resize_and_hide() {
    let log = StructuredLog {
        entries: vec![entry(&[("a", "1"), ("b", "2")], "a=1 b=2")],
        total_lines: 1,
        all_fields: vec!["a".to_string(), "b".to_string()],
        format: LogFormat::Logfmt,
    };
    let mut preview = preview_content(log, vec![None]);
    apply_action(&mut preview, LogViewerAction::Column(ColumnAction::Resize(-5)), false);
    assert_eq!(preview.filter_state.visible_cols[0].width, 3);
    apply_action(&mut preview, LogViewerAction::Column(ColumnAction::MoveRight), false);
    assert_eq!(preview.filter_state.selected_col, 1);
    apply_action(&mut preview, LogViewerAction::Column(ColumnAction::HideSelected), false);
    assert_eq!(preview.filter_state.visible_cols.len(), 1);
    assert_eq!(preview.filter_state.selected_col, 0);
    apply_action(&mut preview, LogViewerAction::Column(ColumnAction::HideSelected), false);
    assert_eq!(preview.filter_state.visible_cols.len(), 1);
}

#[test]
fn appending_to_a_stream_needs_the_right_source() {
    let mut preview = initialize_empty_stream(LogFormat::Jsonl);
    assert!(preview.filter_state.cached_matches.is_empty());
    let files = vec!["/var/log/a.log".to_string()];
    assert!(!apply_append(Some("<stdin>"), &files, &mut preview, "/tmp/other", vec![entry(&[("k", "v")], "r")], vec![None], 10));
    assert_eq!(preview.log.entries.len(), 0);
    assert!(apply_append(Some("<stdin>"), &files, &mut preview, "/var/log/a.log", vec![entry(&[("k", "v")], "r")], vec![None], 10));
    assert_eq!(preview.log.entries.len(), 1);
    assert!(!apply_append(None, &files, &mut preview, "<stdin>", vec![], vec![], 10));
}

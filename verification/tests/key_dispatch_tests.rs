use binocular::key_dispatch::{handle_input, KeyContext, KeyDispatch, KeyMatches};
use binocular::search_types::SearchMode;

fn none() -> KeyMatches {
    KeyMatches {
        quit: false,
        toggle_help: false,
        toggle_preview_focus: false,
        toggle_preview_fullscreen: false,
        swap_panes: false,
        preview_wider: false,
        preview_narrower: false,
        toggle_search_bar_position: false,
        toggle_preview_visibility: false,
        toggle_exact: false,
        mode_path: false,
        mode_files: false,
        mode_grep: false,
        mode_dirs: false,
        scroll_preview_up: false,
        scroll_preview_down: false,
    }
}

fn ctx() -> KeyContext {
    KeyContext { help_visible: false, show_preview: true, stdin: false, has_preview_command: false, preview_focused: false }
}

#[test]
fn mode_shortcuts_switch_search_mode_and_request_restart() {
    let grep = KeyMatches { mode_grep: true, ..none() };
    assert_eq!(handle_input(grep, ctx()), KeyDispatch::SetSearchMode(SearchMode::Grep));
    let dirs = KeyMatches { mode_dirs: true, ..none() };
    assert_eq!(handle_input(dirs, ctx()), KeyDispatch::SetSearchMode(SearchMode::Dirs));
    let piped = KeyContext { stdin: true, ..ctx() };
    assert_eq!(handle_input(dirs, piped), KeyDispatch::SearchInput);
}

#[test]
fn keys_are_dispatched_in_order() {
    let everything = KeyMatches { quit: true, toggle_help: true, mode_grep: true, ..none() };
    assert_eq!(handle_input(everything, ctx()), KeyDispatch::Quit);
    let help = KeyContext { help_visible: true, ..ctx() };
    assert_eq!(handle_input(KeyMatches { mode_grep: true, ..none() }, help), KeyDispatch::HelpModal);
    assert_eq!(handle_input(KeyMatches { toggle_help: true, ..none() }, help), KeyDispatch::ToggleHelp);
    let hidden = KeyContext { show_preview: false, ..ctx() };
    assert_eq!(handle_input(KeyMatches { toggle_preview_focus: true, ..none() }, hidden), KeyDispatch::Ignore);
    assert_eq!(handle_input(KeyMatches { toggle_preview_focus: true, ..none() }, ctx()), KeyDispatch::ToggleWindow);
    assert_eq!(handle_input(KeyMatches { preview_narrower: true, ..none() }, ctx()), KeyDispatch::AdjustPreviewWidth(-5));
    assert_eq!(handle_input(KeyMatches { preview_wider: true, ..none() }, hidden), KeyDispatch::SearchInput);
    let piped = KeyContext { stdin: true, ..ctx() };
    assert_eq!(handle_input(KeyMatches { toggle_preview_visibility: true, ..none() }, piped), KeyDispatch::Ignore);
    let piped_cmd = KeyContext { stdin: true, has_preview_command: true, ..ctx() };
    assert_eq!(handle_input(KeyMatches { toggle_preview_visibility: true, ..none() }, piped_cmd), KeyDispatch::TogglePreviewVisibility);
    assert_eq!(handle_input(KeyMatches { scroll_preview_down: true, ..none() }, ctx()), KeyDispatch::ScrollPreview { down: true });
    let focused = KeyContext { preview_focused: true, ..ctx() };
    assert_eq!(handle_input(KeyMatches { scroll_preview_down: true, ..none() }, focused), KeyDispatch::PreviewInput);
    assert_eq!(handle_input(KeyMatches { toggle_exact: true, ..none() }, ctx()), KeyDispatch::ToggleExact);
}

//! Which handler a key press goes to: the key's matches against the
//! configured bindings, and the state of the screen, decide it.
use vstd::prelude::*;
use crate::search_types::SearchMode;

verus! {

/// The configured bindings the pressed key matches.
#[derive(Debug, Clone, Copy, PartialEq, Eq, Structural)]
pub struct KeyMatches {
    pub quit: bool,
    pub toggle_help: bool,
    pub toggle_preview_focus: bool,
    pub toggle_preview_fullscreen: bool,
    pub swap_panes: bool,
    pub preview_wider: bool,
    pub preview_narrower: bool,
    pub toggle_search_bar_position: bool,
    pub toggle_preview_visibility: bool,
    pub toggle_exact: bool,
    pub mode_path: bool,
    pub mode_files: bool,
    pub mode_grep: bool,
    pub mode_dirs: bool,
    pub scroll_preview_up: bool,
    pub scroll_preview_down: bool,
}

/// The state of the screen that decides where a key goes.
#[derive(Debug, Clone, Copy, PartialEq, Eq, Structural)]
pub struct KeyContext {
    pub help_visible: bool,
    pub show_preview: bool,
    pub stdin: bool,
    pub has_preview_command: bool,
    pub preview_focused: bool,
}

/// Where a key press goes.
#[derive(Debug, Clone, Copy, PartialEq, Eq, Structural)]
pub enum KeyDispatch {
    Quit,
    ToggleHelp,
    HelpModal,
    ToggleWindow,
    Ignore,
    TogglePreviewFullscreen,
    SwapPanes,
    AdjustPreviewWidth(i16),
    ToggleSearchBarPosition,
    TogglePreviewVisibility,
    ToggleExact,
    SetSearchMode(SearchMode),
    ScrollPreview { down: bool },
    PreviewInput,
    SearchInput,
}

/// Where a key goes, the bindings tried in order: quitting, help (and,
/// while help shows, nothing else), the focus switch, the preview's layout
/// keys (while it shows), the search bar's place, the preview's visibility
/// (only where the preview shows on its own), the exact matcher, the
/// search modes (not for piped input), paging the preview from the search,
/// and else the focused pane.
pub open spec fn dispatch(m: KeyMatches, c: KeyContext) -> KeyDispatch {
    if m.quit {
        KeyDispatch::Quit
    } else if m.toggle_help {
        KeyDispatch::ToggleHelp
    } else if c.help_visible {
        KeyDispatch::HelpModal
    } else if m.toggle_preview_focus {
        if c.show_preview { KeyDispatch::ToggleWindow } else { KeyDispatch::Ignore }
    } else if c.show_preview && m.toggle_preview_fullscreen {
        KeyDispatch::TogglePreviewFullscreen
    } else if c.show_preview && m.swap_panes {
        KeyDispatch::SwapPanes
    } else if c.show_preview && m.preview_wider {
        KeyDispatch::AdjustPreviewWidth(5i16)
    } else if c.show_preview && m.preview_narrower {
        KeyDispatch::AdjustPreviewWidth(-5i16)
    } else if m.toggle_search_bar_position {
        KeyDispatch::ToggleSearchBarPosition
    } else if m.toggle_preview_visibility {
        if !c.stdin || c.has_preview_command { KeyDispatch::TogglePreviewVisibility } else { KeyDispatch::Ignore }
    } else if m.toggle_exact {
        KeyDispatch::ToggleExact
    } else if !c.stdin && m.mode_path {
        KeyDispatch::SetSearchMode(SearchMode::Path)
    } else if !c.stdin && m.mode_files {
        KeyDispatch::SetSearchMode(SearchMode::Files)
    } else if !c.stdin && m.mode_grep {
        KeyDispatch::SetSearchMode(SearchMode::Grep)
    } else if !c.stdin && m.mode_dirs {
        KeyDispatch::SetSearchMode(SearchMode::Dirs)
    } else if c.show_preview && !c.preview_focused && m.scroll_preview_up {
        KeyDispatch::ScrollPreview { down: false }
    } else if c.show_preview && !c.preview_focused && m.scroll_preview_down {
        KeyDispatch::ScrollPreview { down: true }
    } else if c.preview_focused {
        KeyDispatch::PreviewInput
    } else {
        KeyDispatch::SearchInput
    }
}

/// Where a key press goes (see `dispatch`).
pub fn handle_input(m: KeyMatches, c: KeyContext) -> (r: KeyDispatch)
    ensures
        r == dispatch(m, c),
{
    if m.quit {
        return KeyDispatch::Quit;
    }
    if m.toggle_help {
        return KeyDispatch::ToggleHelp;
    }
    if c.help_visible {
        return KeyDispatch::HelpModal;
    }
    if m.toggle_preview_focus {
        return if c.show_preview { KeyDispatch::ToggleWindow } else { KeyDispatch::Ignore };
    }
    if c.show_preview {
        if m.toggle_preview_fullscreen {
            return KeyDispatch::TogglePreviewFullscreen;
        }
        if m.swap_panes {
            return KeyDispatch::SwapPanes;
        }
        if m.preview_wider {
            return KeyDispatch::AdjustPreviewWidth(5);
        }
        if m.preview_narrower {
            return KeyDispatch::AdjustPreviewWidth(-5);
        }
    }
    if m.toggle_search_bar_position {
        return KeyDispatch::ToggleSearchBarPosition;
    }
    if m.toggle_preview_visibility {
        return if !c.stdin || c.has_preview_command { KeyDispatch::TogglePreviewVisibility } else { KeyDispatch::Ignore };
    }
    if m.toggle_exact {
        return KeyDispatch::ToggleExact;
    }
    if !c.stdin {
        if m.mode_path {
            return KeyDispatch::SetSearchMode(SearchMode::Path);
        }
        if m.mode_files {
            return KeyDispatch::SetSearchMode(SearchMode::Files);
        }
        if m.mode_grep {
            return KeyDispatch::SetSearchMode(SearchMode::Grep);
        }
        if m.mode_dirs {
            return KeyDispatch::SetSearchMode(SearchMode::Dirs);
        }
    }
    if c.show_preview && !c.preview_focused {
        if m.scroll_preview_up {
            return KeyDispatch::ScrollPreview { down: false };
        }
        if m.scroll_preview_down {
            return KeyDispatch::ScrollPreview { down: true };
        }
    }
    if c.preview_focused {
        KeyDispatch::PreviewInput
    } else {
        KeyDispatch::SearchInput
    }
}

/// Quitting wins over every other binding the key matches.
pub proof fn lemma_quit_wins(m: KeyMatches, c: KeyContext)
    requires
        m.quit,
    ensures
        dispatch(m, c) == KeyDispatch::Quit,
{
}

/// While help shows, only quitting and closing help reach past it.
pub proof fn lemma_help_captures_keys(m: KeyMatches, c: KeyContext)
    requires
        c.help_visible,
        !m.quit,
        !m.toggle_help,
    ensures
        dispatch(m, c) == KeyDispatch::HelpModal,
{
}

/// Piped input never changes the search mode.
pub proof fn lemma_stdin_keeps_mode(m: KeyMatches, c: KeyContext)
    requires
        c.stdin,
    ensures
        !(dispatch(m, c) is SetSearchMode),
{
}

} // verus!

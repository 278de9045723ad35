# binocular

A fuzzy finder for files, file contents, git history and structured logs,
with a preview pane that can edit text in a vim-like way. This crate holds
its logic as a library verified with Verus: every function under `src/`
carries a `requires`/`ensures` contract that Verus proves, and the laws the
tool relies on (undo restores what an edit changed, drawing highlights
keeps a line's text, a restarted search drops the old run's results, ...)
stand as proof functions beside the code they are about.

## Layout

- `src/` — the verified library.
  - Search: `search_types` (items, modes, settings), `matcher` (the exact
    matcher and its incremental refilter), `selection` and `diff_mark`
    (marks, what a search hands back, the search list's keys),
    `search_control` (runs and their epochs), `fs_search` and `git_stream`
    (turning files and git output into items), `headless` (colored output).
  - Text preview: `buffer` (text with line ranges and undoable edits),
    `editor`, `motion`, `text_objects`, `edit_ops`, `yank`, `undo`,
    `search`, `commands`, `line_render` (spans, highlights, cursors,
    scrolling), `highlight` (capture colors and highlighted lines).
  - Structured logs: `log_detect`, `log_parse`, `log_time`, `log_query`,
    `log_filter`, `log_format`, `log_layout`, `log_rows`, `log_viewer`.
  - Screen and startup: `key_dispatch`, `preview_sync`, `startup`,
    `config`, `git`, `sqlite`, `syntax`, `text`, `chars`, `numbers`.
- `tests/` — tests of the library, run against the compiled crate.
- `app/` — the program around the library: argument handling, reading files,
  pipes and git, the clipboard, and printing.

Calls into std and serde_json that Verus cannot read stand behind small
trusted wrappers whose doc comments say what is assumed of them.

//! The data of the structured log viewer: entries, filters, columns and
//! the viewer's state.
use vstd::prelude::*;

verus! {

/// How a log's lines are written.
#[derive(Debug, Clone, Copy, PartialEq, Eq, Structural)]
pub enum LogFormat {
    Jsonl,
    Logfmt,
}

/// One log line: its fields in order, and the line itself.
#[derive(Debug, Clone, PartialEq, Eq)]
pub struct LogEntry {
    pub fields: Vec<(String, String)>,
    pub raw: String,
}

/// A log: its entries, the number of lines read, the field names seen.
#[derive(Debug, Clone, PartialEq, Eq)]
pub struct StructuredLog {
    pub entries: Vec<LogEntry>,
    pub total_lines: usize,
    pub all_fields: Vec<String>,
    pub format: LogFormat,
}

/// A shown column: the field and its width.
#[derive(Debug, Clone, PartialEq, Eq)]
pub struct ColumnConfig {
    pub field: String,
    pub width: usize,
}

/// The column picker: cursor, which fields are ticked, scroll.
#[derive(Debug, Clone, PartialEq, Eq)]
pub struct ColModal {
    pub cursor: usize,
    pub checked: Vec<bool>,
    pub scroll: usize,
}

/// How a filter compares.
#[derive(Debug, Clone, Copy, PartialEq, Eq, Structural)]
pub enum FilterOp {
    Equals,
    Contains,
    NotEquals,
    /// Entries at or after a time (seconds since the epoch).
    Since(u64),
}

/// A filter: a field (or any field), how to compare, the value.
#[derive(Debug, Clone, PartialEq, Eq)]
pub struct LogFilter {
    pub field: Option<String>,
    pub op: FilterOp,
    pub value: String,
}

/// The viewer's state: filter input and filters, cursor and scroll, shown
/// columns, column picker, marked entries, matching entries (newest
/// first), and whether following is paused.
#[derive(Debug)]
pub struct LogFilterState {
    pub input: String,
    pub filters: Vec<LogFilter>,
    pub input_active: bool,
    pub cursor: usize,
    pub scroll: usize,
    pub visible_cols: Vec<ColumnConfig>,
    pub selected_col: usize,
    pub col_scroll: usize,
    pub col_modal: Option<ColModal>,
    pub marked: std::collections::HashSet<usize>,
    pub cached_matches: Vec<usize>,
    pub paused: bool,
}

/// A log shown in the preview, with the viewer's state and each entry's
/// time in seconds since the epoch, when it has one (what `Since` filters
/// compare).
pub struct LogPreview {
    pub log: StructuredLog,
    pub filter_state: LogFilterState,
    pub times: Vec<Option<u64>>,
}

/// The fields of an entry, as text.
pub open spec fn fields_view(e: LogEntry) -> Seq<(Seq<char>, Seq<char>)> {
    e.fields@.map_values(|p: (String, String)| (p.0@, p.1@))
}

/// The columns, as text and width.
pub open spec fn cols_view(v: Seq<ColumnConfig>) -> Seq<(Seq<char>, usize)> {
    v.map_values(|c: ColumnConfig| (c.field@, c.width))
}

/// The state a viewer starts with: nothing typed, no filters, no columns,
/// nothing marked or matched.
impl Default for LogFilterState {
    fn default() -> (s: Self)
        ensures
            s.input@.len() == 0,
            s.filters@.len() == 0,
            !s.input_active,
            s.cursor == 0,
            s.scroll == 0,
            s.visible_cols@.len() == 0,
            s.selected_col == 0,
            s.col_scroll == 0,
            s.col_modal is None,
            s.marked@ == Set::<usize>::empty(),
            s.cached_matches@.len() == 0,
            !s.paused,
    {
        LogFilterState {
            input: String::new(),
            filters: Vec::new(),
            input_active: false,
            cursor: 0,
            scroll: 0,
            visible_cols: Vec::new(),
            selected_col: 0,
            col_scroll: 0,
            col_modal: None,
            marked: std::collections::HashSet::new(),
            cached_matches: Vec::new(),
            paused: false,
        }
    }
}

} // verus!

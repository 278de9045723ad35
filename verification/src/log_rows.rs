//! The rows of the log viewer's table: which matches are on screen, how a
//! row is numbered and marked, and what each of its cells shows.
use vstd::prelude::*;
use crate::chars::{
    ascii_lower_seq, ascii_upper_seq, byte_len, push_decimal, push_str, str_to_ascii_uppercase, byte_offset, char_index_of, chars_of, decimal, is_boundary, lemma_byte_offset_mono,
    push_char, str_eq, str_to_ascii_lowercase, string_from_chars, to_owned_string, usize_to_string, walk_to_byte,
};
use crate::log_format::{field_named, find_field};
use crate::log_layout::{is_timestamp_field, num_width, num_width_of, pad_right, padded, truncate_str, truncated};
use crate::log_query::is_timestamp_name;
use crate::log_parse::index_of_from;
use crate::log_time::{after_char, after_char_vec, before_char, before_char_vec, trim_end_z, trim_end_z_vec};
use crate::log_types::{fields_view, ColModal, ColumnConfig, LogEntry, LogFilterState, LogPreview};
use crate::search_types::{trim_str, trim_ws};

verus! {

/// The part of a time value after its `T`: without trailing `Z`s and an
/// offset after `+`.
pub open spec fn time_main(after: Seq<char>) -> Seq<char> {
    before_char(trim_end_z(after), '+')
}

/// A trimmed time value shortened for a cell: after a `T`, the time part
/// cut to its first twelve bytes; else, for `YYYY-MM-DD hh:mm:ss...`, the
/// bytes 11 to 19; else the value itself.
pub open spec fn abbreviated(v: Seq<char>) -> Seq<char> {
    match after_char(v, 'T') {
        Some(after) => {
            let main = time_main(after);
            if byte_len(main) > 12 { main.take(char_index_of(main, 12)) } else { main }
        },
        None => if byte_len(v) >= 19 && is_boundary(v, 10) && v[char_index_of(v, 10)] == ' ' {
            v.subrange(char_index_of(v, 10) + 1, char_index_of(v, 19))
        } else {
            v
        },
    }
}

/// Shortening `v` cuts it only between chars.
pub open spec fn abbrev_safe(v: Seq<char>) -> bool {
    match after_char(v, 'T') {
        Some(after) => byte_len(time_main(after)) > 12 ==> is_boundary(time_main(after), 12),
        None => (byte_len(v) >= 19 && is_boundary(v, 10) && v[char_index_of(v, 10)] == ' ') ==> is_boundary(v, 19),
    }
}

/// The shortened time value (see `abbreviated`), or `None` when shortening
/// it would cut through a char.
fn abbreviate_core(value: &str) -> (r: Option<String>)
    ensures
        r is Some <==> abbrev_safe(trim_ws(value@)),
        r matches Some(s) ==> s@ == abbreviated(trim_ws(value@)),
{
    let t = trim_str(value);
    let t_bytes = crate::chars::str_byte_len(t.as_str());
    let v = chars_of(t.as_str());
    match after_char_vec(&v, 'T') {
        Some(after) => {
            let z = trim_end_z_vec(&after);
            let main = before_char_vec(&z, '+');
            proof {
                let p = index_of_from(v@, 'T', 0)->0;
                crate::log_parse::lemma_index_of_bounds(v@, 'T', 0);
                assert(after@ =~= v@.subrange(p + 1, v@.len() as int));
                crate::log_time::lemma_trim_end_z_prefix(after@);
                assert(z@ =~= v@.subrange(p + 1, p + 1 + z@.len()));
                crate::log_parse::lemma_index_of_bounds(z@, '+', 0);
                assert(main@.len() <= z@.len());
                assert(main@ =~= v@.subrange(p + 1, p + 1 + main@.len()));
                crate::chars::lemma_byte_len_subrange_le(v@, p + 1, p + 1 + main@.len());
            }
            let (k, off) = walk_to_byte(main.as_slice(), 12);
            if off > 12 {
                None
            } else if off == 12 && k < main.len() {
                proof {
                    assert(main@.subrange(0, k as int) =~= main@.take(k as int));
                }
                Some(string_from_chars(main.as_slice(), 0, k))
            } else {
                proof {
                    assert(main@.subrange(0, main@.len() as int) =~= main@);
                }
                Some(string_from_chars(main.as_slice(), 0, main.len()))
            }
        },
        None => {
            let (k19, o19) = walk_to_byte(v.as_slice(), 19);
            let (k10, o10) = walk_to_byte(v.as_slice(), 10);
            if o19 >= 19 && o10 == 10 && k10 < v.len() && v[k10] == ' ' {
                if o19 != 19 {
                    return None;
                }
                proof {
                    crate::chars::lemma_byte_offset_step(v@, k10 as int);
                    if k19 < k10 + 1 {
                        lemma_byte_offset_mono(v@, k19 as int, k10 as int);
                    }
                }
                Some(string_from_chars(v.as_slice(), k10 + 1, k19))
            } else {
                proof {
                    if o10 == 10 && o19 >= 19 {
                        assert(k10 < v@.len());
                    }
                    assert(v@.subrange(0, v@.len() as int) =~= v@);
                }
                Some(string_from_chars(v.as_slice(), 0, v.len()))
            }
        },
    }
}

/// Whether a time value can be shortened without cutting through a char.
pub fn timestamp_abbreviation_safe(value: &str) -> (b: bool)
    ensures
        b == abbrev_safe(trim_ws(value@)),
{
    abbreviate_core(value).is_some()
}

/// A time value shortened for a cell (see `abbreviated`): the trimmed
/// value's time of day.
pub fn abbreviate_timestamp(value: &str) -> (r: String)
    requires
        abbrev_safe(trim_ws(value@)),
    ensures
        r@ == abbreviated(trim_ws(value@)),
{
    match abbreviate_core(value) {
        Some(s) => s,
        None => String::new(),
    }
}

/// The color a cell gets from what it shows: a level (by its severity), a
/// time, or nothing in particular.
#[derive(Debug, Clone, Copy, PartialEq, Eq, Structural)]
pub enum CellTone {
    Error,
    Warn,
    Info,
    Debug,
    Timestamp,
    Plain,
}

/// How a cell is drawn: its tone, on the selected row's background or not.
#[derive(Debug, Clone, Copy, PartialEq, Eq, Structural)]
pub struct CellStyle {
    pub tone: CellTone,
    pub selected: bool,
}

/// The names (lower-cased) of fields that hold a level.
pub open spec fn is_level_name(n: Seq<char>) -> bool {
    n == "level"@ || n == "severity"@ || n == "lvl"@ || n == "log_level"@ || n == "loglevel"@
}

/// The tone of the value `value` in the column `field`.
pub open spec fn tone_of(field: Seq<char>, value: Seq<char>) -> CellTone {
    let f = ascii_lower_seq(field);
    let v = ascii_lower_seq(value);
    if is_level_name(f) && (v == "error"@ || v == "err"@ || v == "fatal"@ || v == "critical"@) {
        CellTone::Error
    } else if is_level_name(f) && (v == "warn"@ || v == "warning"@) {
        CellTone::Warn
    } else if is_level_name(f) && v == "info"@ {
        CellTone::Info
    } else if is_level_name(f) && (v == "debug"@ || v == "trace"@) {
        CellTone::Debug
    } else if is_timestamp_name(f) {
        CellTone::Timestamp
    } else {
        CellTone::Plain
    }
}

/// How the value `value` of the column `field` is drawn (see `tone_of`).
pub fn cell_style(field: &str, value: &str, selected: bool) -> (s: CellStyle)
    ensures
        s == (CellStyle { tone: tone_of(field@, value@), selected }),
{
    let lf = str_to_ascii_lowercase(field);
    let f = lf.as_str();
    let level = str_eq(f, "level") || str_eq(f, "severity") || str_eq(f, "lvl") || str_eq(f, "log_level")
        || str_eq(f, "loglevel");
    let tone = if level {
        let lv = str_to_ascii_lowercase(value);
        let v = lv.as_str();
        if str_eq(v, "error") || str_eq(v, "err") || str_eq(v, "fatal") || str_eq(v, "critical") {
            CellTone::Error
        } else if str_eq(v, "warn") || str_eq(v, "warning") {
            CellTone::Warn
        } else if str_eq(v, "info") {
            CellTone::Info
        } else if str_eq(v, "debug") || str_eq(v, "trace") {
            CellTone::Debug
        } else if is_timestamp_field(field) {
            CellTone::Timestamp
        } else {
            CellTone::Plain
        }
    } else if is_timestamp_field(field) {
        CellTone::Timestamp
    } else {
        CellTone::Plain
    };
    CellStyle { tone, selected }
}

/// The sign before a row: selected and marked, selected, marked, or none.
#[derive(Debug, Clone, Copy, PartialEq, Eq, Structural)]
pub enum RowMark {
    SelectedMarked,
    Selected,
    Marked,
    Blank,
}

/// The sign of a row that is `selected` and/or `marked`.
pub fn row_mark(selected: bool, marked: bool) -> (m: RowMark)
    ensures
        m == (if selected && marked {
            RowMark::SelectedMarked
        } else if selected {
            RowMark::Selected
        } else if marked {
            RowMark::Marked
        } else {
            RowMark::Blank
        }),
{
    if selected && marked {
        RowMark::SelectedMarked
    } else if selected {
        RowMark::Selected
    } else if marked {
        RowMark::Marked
    } else {
        RowMark::Blank
    }
}

/// `s` padded with spaces on the left to `width` chars.
pub open spec fn padded_left(s: Seq<char>, width: nat) -> Seq<char> {
    if s.len() >= width { s } else { Seq::new((width - s.len()) as nat, |i: int| ' ') + s }
}

/// The number shown for the entry at index `entry_idx` of `total`: its
/// one-based position, right-aligned to the width of `total`.
pub fn row_number(entry_idx: usize, total: usize) -> (r: String)
    requires
        entry_idx < total,
    ensures
        r@ == padded_left(decimal(entry_idx as nat + 1), num_width_of(total as nat)),
{
    let width = num_width(total);
    let digits = usize_to_string(entry_idx + 1);
    let len = digits.as_str().unicode_len();
    let mut r = String::new();
    let mut k = len;
    while k < width
        invariant
            len <= k,
            len < width ==> k <= width,
            len >= width ==> k == len,
            len == digits@.len(),
            r@ == Seq::new((k - len) as nat, |i: int| ' '),
        decreases width - k,
    {
        push_char(&mut r, ' ');
        proof {
            assert(r@ =~= Seq::new((k + 1 - len) as nat, |i: int| ' '));
        }
        k = k + 1;
    }
    crate::chars::push_str(&mut r, digits.as_str());
    proof {
        if len >= width {
            assert(r@ =~= digits@);
        } else {
            assert(r@ =~= Seq::new((width - len) as nat, |i: int| ' ') + digits@);
        }
    }
    r
}

/// The value of the field `name` of `e`, or the empty text.
pub open spec fn entry_value(e: LogEntry, name: Seq<char>) -> Seq<char> {
    match field_named(fields_view(e), name, 0) {
        Some(v) => v,
        None => Seq::empty(),
    }
}

/// Whether the column `c` shows times.
pub open spec fn is_time_column(c: ColumnConfig) -> bool {
    is_timestamp_name(ascii_lower_seq(c.field@))
}

/// What the cell of `e` in the column `c` shows before it is fitted: the
/// value, shortened in a time column.
pub open spec fn cell_shown(e: LogEntry, c: ColumnConfig) -> Seq<char> {
    let val = entry_value(e, c.field@);
    if is_time_column(c) { abbreviated(trim_ws(val)) } else { val }
}

/// The text of the cell of `e` in the column `c`: cut and padded to the
/// column's width.
pub open spec fn cell_text(e: LogEntry, c: ColumnConfig) -> Seq<char> {
    padded(truncated(cell_shown(e, c), c.width as nat), c.width as nat)
}

/// Shortening the cell of `e` in the column `c` cuts only between chars.
pub open spec fn cell_safe(e: LogEntry, c: ColumnConfig) -> bool {
    is_time_column(c) ==> abbrev_safe(trim_ws(entry_value(e, c.field@)))
}

/// The columns shown: `count` of them from `start`, as far as there are.
pub open spec fn shown_cols(cols: Seq<ColumnConfig>, start: int, count: int) -> Seq<ColumnConfig> {
    if start >= cols.len() {
        Seq::empty()
    } else if start + count <= cols.len() {
        cols.subrange(start, start + count)
    } else {
        cols.subrange(start, cols.len() as int)
    }
}

/// Every shown cell of `e` can be shortened safely.
pub open spec fn row_safe(e: LogEntry, cols: Seq<ColumnConfig>, start: int, count: int) -> bool {
    forall|i: int| 0 <= i < shown_cols(cols, start, count).len() ==> #[trigger] cell_safe(e, shown_cols(cols, start, count)[i])
}

/// The end of the shown columns.
fn shown_end(len: usize, start: usize, count: usize) -> (e: usize)
    ensures
        start >= len ==> e == start,
        start < len ==> start < e <= len || count == 0 && e == start,
        start < len && start + count <= len ==> e == start + count,
        start < len && start + count > len ==> e == len,
{
    if start >= len {
        start
    } else if count <= len - start {
        start + count
    } else {
        len
    }
}

/// Whether every shown cell of `entry` can be shortened safely (see
/// `row_safe`).
pub fn row_is_safe(entry: &LogEntry, cols: &[ColumnConfig], start: usize, count: usize) -> (b: bool)
    ensures
        b == row_safe(*entry, cols@, start as int, count as int),
{
    let ghost shown = shown_cols(cols@, start as int, count as int);
    let end = shown_end(cols.len(), start, count);
    let mut i = start;
    while i < end
        invariant
            start <= i <= end <= cols@.len() || (start >= cols@.len() && i == start && end == start),
            shown == shown_cols(cols@, start as int, count as int),
            end == start + shown.len(),
            forall|j: int| 0 <= j < i - start ==> #[trigger] cell_safe(*entry, shown[j]),
        decreases end - i,
    {
        proof {
            assert(shown[i - start] == cols@[i as int]);
        }
        let c = &cols[i];
        if is_timestamp_field(c.field.as_str()) {
            let val = match find_field(entry, c.field.as_str()) {
                Some(v) => v,
                None => "",
            };
            proof {
                reveal_strlit("");
            }
            if !timestamp_abbreviation_safe(val) {
                proof {
                    assert(val@ == entry_value(*entry, c.field@));
                    assert(!cell_safe(*entry, shown[i - start]));
                }
                return false;
            }
        }
        i = i + 1;
    }
    true
}

/// The text of the cell of `entry` in the column `col` (see `cell_text`),
/// and how it is drawn.
fn row_cell(entry: &LogEntry, col: &ColumnConfig, selected: bool) -> (r: (String, CellStyle))
    requires
        cell_safe(*entry, *col),
    ensures
        r.0@ == cell_text(*entry, *col),
        r.1 == (CellStyle { tone: tone_of(col.field@, entry_value(*entry, col.field@)), selected }),
{
    let val = match find_field(entry, col.field.as_str()) {
        Some(v) => v,
        None => "",
    };
    proof {
        reveal_strlit("");
        assert(val@ == entry_value(*entry, col.field@));
    }
    let shown = if is_timestamp_field(col.field.as_str()) {
        abbreviate_timestamp(val)
    } else {
        to_owned_string(val)
    };
    let cut = truncate_str(shown.as_str(), col.width);
    let text = pad_right(cut.as_str(), col.width);
    (text, cell_style(col.field.as_str(), val, selected))
}

/// The cells of `entry` in the shown columns, in order, each with how it is
/// drawn.
pub fn row_cells(entry: &LogEntry, cols: &[ColumnConfig], start: usize, count: usize, selected: bool) -> (r: Vec<(String, CellStyle)>)
    requires
        row_safe(*entry, cols@, start as int, count as int),
    ensures
        r@.len() == shown_cols(cols@, start as int, count as int).len(),
        forall|j: int| 0 <= j < r@.len() ==> {
            let c = #[trigger] shown_cols(cols@, start as int, count as int)[j];
            &&& r@[j].0@ == cell_text(*entry, c)
            &&& r@[j].1 == (CellStyle { tone: tone_of(c.field@, entry_value(*entry, c.field@)), selected })
        },
{
    let ghost shown = shown_cols(cols@, start as int, count as int);
    let end = shown_end(cols.len(), start, count);
    let mut out: Vec<(String, CellStyle)> = Vec::new();
    let mut i = start;
    while i < end
        invariant
            start <= i <= end <= cols@.len() || (start >= cols@.len() && i == start && end == start),
            shown == shown_cols(cols@, start as int, count as int),
            end == start + shown.len(),
            row_safe(*entry, cols@, start as int, count as int),
            out@.len() == i - start,
            forall|j: int| 0 <= j < out@.len() ==> {
                let c = #[trigger] shown[j];
                &&& out@[j].0@ == cell_text(*entry, c)
                &&& out@[j].1 == (CellStyle { tone: tone_of(c.field@, entry_value(*entry, c.field@)), selected })
            },
        decreases end - i,
    {
        proof {
            assert(shown[i - start] == cols@[i as int]);
            assert(cell_safe(*entry, shown[i - start]));
        }
        let cell = row_cell(entry, &cols[i], selected);
        out.push(cell);
        i = i + 1;
    }
    out
}

/// One row of the table: the entry's number, its sign, and its cells.
pub struct LogRow {
    pub number: String,
    pub mark: RowMark,
    pub cells: Vec<(String, CellStyle)>,
}

/// The row for the match at `match_idx`, its cells those of the columns
/// from `start`, `count` of them: numbered by its entry, selected when the
/// cursor is on it, marked when its entry is.
pub fn log_row(lp: &LogPreview, match_idx: usize, start: usize, count: usize) -> (r: LogRow)
    requires
        match_idx < lp.filter_state.cached_matches@.len(),
        lp.filter_state.cached_matches@[match_idx as int] < lp.log.entries@.len(),
        row_safe(lp.log.entries@[lp.filter_state.cached_matches@[match_idx as int] as int],
            lp.filter_state.visible_cols@, start as int, count as int),
    ensures
        ({
            let fs = lp.filter_state;
            let idx = fs.cached_matches@[match_idx as int];
            let e = lp.log.entries@[idx as int];
            let selected = match_idx == fs.cursor;
            let shown = shown_cols(fs.visible_cols@, start as int, count as int);
            &&& r.number@ == padded_left(decimal(idx as nat + 1), num_width_of(lp.log.entries@.len() as nat))
            &&& r.mark == (if selected && fs.marked@.contains(idx) {
                RowMark::SelectedMarked
            } else if selected {
                RowMark::Selected
            } else if fs.marked@.contains(idx) {
                RowMark::Marked
            } else {
                RowMark::Blank
            })
            &&& r.cells@.len() == shown.len()
            &&& forall|j: int| 0 <= j < r.cells@.len() ==> {
                let c = #[trigger] shown[j];
                &&& r.cells@[j].0@ == cell_text(e, c)
                &&& r.cells@[j].1 == (CellStyle { tone: tone_of(c.field@, entry_value(e, c.field@)), selected })
            }
        }),
{
    let fs = &lp.filter_state;
    let idx = fs.cached_matches[match_idx];
    let selected = match_idx == fs.cursor;
    let marked = fs.marked.contains(&idx);
    let entry = &lp.log.entries[idx];
    LogRow {
        number: row_number(idx, lp.log.entries.len()),
        mark: row_mark(selected, marked),
        cells: row_cells(entry, fs.visible_cols.as_slice(), start, count, selected),
    }
}

/// The cursor and scroll once a table of `visible_rows` rows is drawn: the
/// cursor clamped to the last match, and the scroll moved just enough to
/// show it.
pub open spec fn settled(cursor: int, scroll: int, n: int, visible_rows: int) -> (int, int) {
    let c = if cursor < n - 1 { cursor } else { n - 1 };
    let s = if c < scroll { c } else if c >= scroll + visible_rows { c + 1 - visible_rows } else { scroll };
    (c, s)
}

/// Brings the cursor onto the matches and the scroll onto the cursor before
/// `visible_rows` rows are drawn (see `settled`); nothing changes when
/// there are no matches or rows.
pub fn settle_row_scroll(fs: &mut LogFilterState, visible_rows: usize)
    ensures
        ({
            let n = old(fs).cached_matches@.len() as int;
            if n > 0 && visible_rows > 0 {
                let (c, s) = settled(old(fs).cursor as int, old(fs).scroll as int, n, visible_rows as int);
                *final(fs) == LogFilterState { cursor: c as usize, scroll: s as usize, ..*old(fs) }
            } else {
                *final(fs) == *old(fs)
            }
        }),
{
    let n = fs.cached_matches.len();
    if n == 0 || visible_rows == 0 {
        return;
    }
    let cursor = if fs.cursor < n - 1 { fs.cursor } else { n - 1 };
    let scroll = fs.scroll;
    let new_scroll = if cursor < scroll {
        cursor
    } else if cursor - scroll >= visible_rows {
        cursor + 1 - visible_rows
    } else {
        scroll
    };
    fs.cursor = cursor;
    fs.scroll = new_scroll;
}

/// Once settled, the cursor is on a match and among the rows shown.
pub proof fn lemma_settled_shows_cursor(cursor: int, scroll: int, n: int, visible_rows: int)
    requires
        0 <= cursor,
        0 <= scroll,
        n > 0,
        visible_rows > 0,
    ensures
        ({
            let (c, s) = settled(cursor, scroll, n, visible_rows);
            0 <= s <= c < n && c < s + visible_rows
        }),
{
}

/// A header cell: the column's name in upper case, cut and padded to its
/// width.
pub open spec fn header_text(c: ColumnConfig) -> Seq<char> {
    padded(truncated(ascii_upper_seq(c.field@), c.width as nat), c.width as nat)
}

/// The header cells of the shown columns (see `header_text`), each with
/// whether its column is the selected one.
pub fn header_cells(cols: &[ColumnConfig], selected_col: usize, start: usize, count: usize) -> (r: Vec<(String, bool)>)
    ensures
        r@.len() == shown_cols(cols@, start as int, count as int).len(),
        forall|j: int| 0 <= j < r@.len() ==> {
            &&& r@[j].0@ == header_text(#[trigger] shown_cols(cols@, start as int, count as int)[j])
            &&& r@[j].1 == (start + j == selected_col)
        },
{
    let ghost shown = shown_cols(cols@, start as int, count as int);
    let end = shown_end(cols.len(), start, count);
    let mut out: Vec<(String, bool)> = Vec::new();
    let mut i = start;
    while i < end
        invariant
            start <= i <= end <= cols@.len() || (start >= cols@.len() && i == start && end == start),
            shown == shown_cols(cols@, start as int, count as int),
            end == start + shown.len(),
            out@.len() == i - start,
            forall|j: int| 0 <= j < out@.len() ==> {
                &&& out@[j].0@ == header_text(#[trigger] shown[j])
                &&& out@[j].1 == (start + j == selected_col)
            },
        decreases end - i,
    {
        proof {
            assert(shown[i - start] == cols@[i as int]);
        }
        let upper = str_to_ascii_uppercase(cols[i].field.as_str());
        let cut = truncate_str(upper.as_str(), cols[i].width);
        let text = pad_right(cut.as_str(), cols[i].width);
        out.push((text, i == selected_col));
        i = i + 1;
    }
    out
}

/// `n` box-drawing dashes.
pub open spec fn dashes(n: nat) -> Seq<char> {
    Seq::new(n, |i: int| '\u{2500}')
}

/// The separator under the header: for each shown column a run of dashes
/// as wide as it, with whether its column is the selected one.
pub fn separator_cells(cols: &[ColumnConfig], selected_col: usize, start: usize, count: usize) -> (r: Vec<(String, bool)>)
    ensures
        r@.len() == shown_cols(cols@, start as int, count as int).len(),
        forall|j: int| 0 <= j < r@.len() ==> {
            &&& r@[j].0@ == dashes((#[trigger] shown_cols(cols@, start as int, count as int)[j]).width as nat)
            &&& r@[j].1 == (start + j == selected_col)
        },
{
    let ghost shown = shown_cols(cols@, start as int, count as int);
    let end = shown_end(cols.len(), start, count);
    let mut out: Vec<(String, bool)> = Vec::new();
    let mut i = start;
    while i < end
        invariant
            start <= i <= end <= cols@.len() || (start >= cols@.len() && i == start && end == start),
            shown == shown_cols(cols@, start as int, count as int),
            end == start + shown.len(),
            out@.len() == i - start,
            forall|j: int| 0 <= j < out@.len() ==> {
                &&& out@[j].0@ == dashes((#[trigger] shown[j]).width as nat)
                &&& out@[j].1 == (start + j == selected_col)
            },
        decreases end - i,
    {
        proof {
            assert(shown[i - start] == cols@[i as int]);
        }
        let w = cols[i].width;
        let mut d = String::new();
        let mut k: usize = 0;
        while k < w
            invariant
                k <= w,
                d@ == dashes(k as nat),
            decreases w - k,
        {
            push_char(&mut d, '\u{2500}');
            proof {
                assert(d@ =~= dashes((k + 1) as nat));
            }
            k = k + 1;
        }
        out.push((d, i == selected_col));
        i = i + 1;
    }
    out
}

/// How the filter input is drawn: being edited, holding a filter, or empty.
#[derive(Debug, Clone, Copy, PartialEq, Eq, Structural)]
pub enum InputTone {
    Editing,
    Filtering,
    Idle,
}

/// The right-hand side of the filter bar: whether the viewer is paused,
/// how many entries are marked, which columns are shown, and how many
/// entries match, with how the parts are highlighted.
pub struct FilterBar {
    pub pause: String,
    pub marks: String,
    pub columns: String,
    pub columns_hidden: bool,
    pub count: String,
    pub count_highlight: bool,
    pub input_tone: InputTone,
}

/// The marks part: ` ●n ` for `n` marked entries, else nothing.
pub open spec fn marks_text(n: nat) -> Seq<char> {
    if n > 0 { " \u{25cf}"@ + decimal(n) + " "@ } else { Seq::empty() }
}

/// The columns part: the selected column of how many, and, when some are
/// out of view, how many on each side.
pub open spec fn columns_text(left: nat, right: nat, selected: nat, total: nat) -> Seq<char> {
    if left > 0 || right > 0 {
        " \u{2190}"@ + decimal(left) + " col "@ + decimal(selected + 1) + "/"@ + decimal(total) + " \u{2192}"@
            + decimal(right) + "  "@
    } else {
        " col "@ + decimal(selected + 1) + "/"@ + decimal(total) + "  "@
    }
}

/// The count part: matches of entries.
pub open spec fn count_text(matched: nat, total: nat) -> Seq<char> {
    " "@ + decimal(matched) + "/"@ + decimal(total) + " "@
}

/// The filter bar of `lp` when the columns from `col_start` to `col_end` of
/// `total_cols` are shown.
pub fn filter_bar(lp: &LogPreview, col_start: usize, col_end: usize, total_cols: usize) -> (r: FilterBar)
    requires
        lp.filter_state.selected_col < usize::MAX,
    ensures
        ({
            let fs = lp.filter_state;
            let right = if total_cols >= col_end { total_cols - col_end } else { 0 };
            &&& r.pause@ == (if fs.paused { " \u{23f8} PAUSED "@ } else { Seq::empty() })
            &&& r.marks@ == marks_text(fs.marked@.len())
            &&& r.columns@ == columns_text(col_start as nat, right as nat, fs.selected_col as nat, total_cols as nat)
            &&& r.columns_hidden == (col_start > 0 || right > 0)
            &&& r.count@ == count_text(fs.cached_matches@.len() as nat, lp.log.entries@.len() as nat)
            &&& r.count_highlight == (fs.cached_matches@.len() < lp.log.entries@.len() && fs.input@.len() > 0)
            &&& r.input_tone == (if fs.input_active {
                InputTone::Editing
            } else if fs.input@.len() > 0 {
                InputTone::Filtering
            } else {
                InputTone::Idle
            })
        }),
{
    broadcast use vstd::std_specs::hash::group_hash_axioms;
    let fs = &lp.filter_state;
    let mut pause = String::new();
    if fs.paused {
        push_str(&mut pause, " \u{23f8} PAUSED ");
    }
    let mut marks = String::new();
    let n_marked = fs.marked.len();
    if n_marked > 0 {
        push_str(&mut marks, " \u{25cf}");
        push_decimal(&mut marks, n_marked);
        push_str(&mut marks, " ");
    }
    let right = if total_cols >= col_end { total_cols - col_end } else { 0 };
    let hidden = col_start > 0 || right > 0;
    let mut columns = String::new();
    if hidden {
        push_str(&mut columns, " \u{2190}");
        push_decimal(&mut columns, col_start);
        push_str(&mut columns, " col ");
        push_decimal(&mut columns, fs.selected_col + 1);
        push_str(&mut columns, "/");
        push_decimal(&mut columns, total_cols);
        push_str(&mut columns, " \u{2192}");
        push_decimal(&mut columns, right);
        push_str(&mut columns, "  ");
    } else {
        push_str(&mut columns, " col ");
        push_decimal(&mut columns, fs.selected_col + 1);
        push_str(&mut columns, "/");
        push_decimal(&mut columns, total_cols);
        push_str(&mut columns, "  ");
    }
    let matched = fs.cached_matches.len();
    let total = lp.log.entries.len();
    let mut count = String::new();
    push_str(&mut count, " ");
    push_decimal(&mut count, matched);
    push_str(&mut count, "/");
    push_decimal(&mut count, total);
    push_str(&mut count, " ");
    let has_input = fs.input.as_str().unicode_len() > 0;
    let input_tone = if fs.input_active {
        InputTone::Editing
    } else if has_input {
        InputTone::Filtering
    } else {
        InputTone::Idle
    };
    proof {
        assert(marks@ =~= marks_text(fs.marked@.len()));
    }
    FilterBar {
        pause,
        marks,
        columns,
        columns_hidden: hidden,
        count,
        count_highlight: matched < total && has_input,
        input_tone,
    }
}

/// The length in chars of the longest name in `names` (8 when there is
/// none).
pub open spec fn longest_name(names: Seq<String>) -> nat
    decreases names.len(),
{
    if names.len() == 0 {
        8
    } else if names.len() == 1 {
        names[0]@.len()
    } else {
        let rest = longest_name(names.drop_last());
        if names.last()@.len() > rest { names.last()@.len() } else { rest }
    }
}

/// The inner size of the column picker drawn over an area `area_w` by
/// `area_h` for `n` names at most `longest` chars long: wide enough for the
/// names (at least 36, at most the area less 4), and tall enough for the
/// list and 4 more rows (within the area less 4, at least 6).
pub open spec fn picker_size(longest: nat, n: nat, area_w: nat, area_h: nat) -> (nat, nat) {
    let w0 = if longest + 6 > 36 { longest + 6 } else { 36 };
    let w = if w0 < area_w - 4 { w0 } else { (area_w - 4) as nat };
    let room = if area_h >= 4 { (area_h - 4) as nat } else { 0 };
    let h0 = if n + 4 < room { n + 4 } else { room };
    let h = if h0 > 6 { h0 } else { 6 };
    (w, h)
}

/// The inner width and height of the column picker over an area of
/// `area_w` by `area_h` cells (see `picker_size`).
pub fn picker_inner_size(all_fields: &[String], area_w: u16, area_h: u16) -> (r: (usize, usize))
    requires
        area_w >= 4,
    ensures
        r.0 == picker_size(longest_name(all_fields@), all_fields@.len() as nat, area_w as nat, area_h as nat).0,
        r.1 == picker_size(longest_name(all_fields@), all_fields@.len() as nat, area_w as nat, area_h as nat).1,
{
    let mut longest: usize = 8;
    let mut i: usize = 0;
    while i < all_fields.len()
        invariant
            i <= all_fields@.len(),
            longest == longest_name(all_fields@.take(i as int)),
        decreases all_fields@.len() - i,
    {
        let len = all_fields[i].as_str().unicode_len();
        proof {
            let t = all_fields@.take(i + 1);
            assert(t.drop_last() =~= all_fields@.take(i as int));
            assert(t.last() == all_fields@[i as int]);
        }
        if i == 0 || len > longest {
            longest = len;
        }
        i = i + 1;
    }
    proof {
        assert(all_fields@.take(all_fields@.len() as int) =~= all_fields@);
    }
    let cap = (area_w as usize) - 4;
    let w = if longest >= cap {
        cap
    } else {
        let w0 = if longest + 6 > 36 { longest + 6 } else { 36 };
        if w0 < cap { w0 } else { cap }
    };
    let room = if area_h >= 4 { (area_h as usize) - 4 } else { 0 };
    let n = all_fields.len();
    let h0 = if n < room && n + 4 < room { n + 4 } else { room };
    let h = if h0 > 6 { h0 } else { 6 };
    (w, h)
}

/// A line of the column picker: the name with its check box, whether the
/// cursor is on it, and whether it is checked.
pub struct PickerLine {
    pub text: String,
    pub at_cursor: bool,
    pub checked: bool,
}

/// The first name shown in a picker list `list_height` rows high whose
/// cursor is at `cursor` (clamped to the `n` names).
pub open spec fn picker_scroll(cursor: nat, n: nat, list_height: nat) -> (nat, nat) {
    let c = if cursor < n - 1 { cursor } else { if n >= 1 { (n - 1) as nat } else { 0 } };
    let s = if c >= list_height { (c - list_height + 1) as nat } else { 0 };
    (c, s)
}

/// The text of a picker line for `name`.
pub open spec fn picker_text(name: Seq<char>, checked: bool) -> Seq<char> {
    (if checked { "[\u{2713}] "@ } else { "[ ] "@ }) + name
}

/// Whether name `i` is checked in the picker (unknown names are not).
pub open spec fn picker_checked(modal: ColModal, i: int) -> bool {
    if 0 <= i < modal.checked@.len() { modal.checked@[i] } else { false }
}

/// The lines of the column picker shown in a list `list_height` rows high:
/// the names from the scroll on (see `picker_scroll`), as many as fit.
pub fn picker_lines(all_fields: &[String], modal: &ColModal, list_height: usize) -> (r: Vec<PickerLine>)
    ensures
        ({
            let n = all_fields@.len();
            let (c, s) = picker_scroll(modal.cursor as nat, n as nat, list_height as nat);
            let shown = if s >= n { 0 } else if s + list_height <= n { list_height as int } else { n - s };
            &&& r@.len() == shown
            &&& forall|j: int| 0 <= j < r@.len() ==> {
                let i = s + j;
                let checked = picker_checked(*modal, i);
                &&& (#[trigger] r@[j]).text@ == picker_text(all_fields@[i]@, checked)
                &&& r@[j].at_cursor == (i == c)
                &&& r@[j].checked == checked
            }
        }),
{
    let n = all_fields.len();
    let last = if n >= 1 { n - 1 } else { 0 };
    let cursor = if modal.cursor < last { modal.cursor } else { last };
    let scroll = if cursor >= list_height { cursor - list_height + 1 } else { 0 };
    let end = if scroll >= n { scroll } else if list_height <= n - scroll { scroll + list_height } else { n };
    let mut out: Vec<PickerLine> = Vec::new();
    let mut i = scroll;
    while i < end
        invariant
            scroll <= i,
            scroll < n ==> i <= end <= n,
            scroll >= n ==> i == scroll && end == scroll,
            end - scroll == (if scroll >= n { 0 } else if scroll + list_height <= n { list_height as int } else { n - scroll }),
            n == all_fields@.len(),
            out@.len() == i - scroll,
            forall|j: int| 0 <= j < out@.len() ==> {
                let k = scroll + j;
                let checked = picker_checked(*modal, k);
                &&& (#[trigger] out@[j]).text@ == picker_text(all_fields@[k]@, checked)
                &&& out@[j].at_cursor == (k == cursor)
                &&& out@[j].checked == checked
            },
        decreases end - i,
    {
        let checked = if i < modal.checked.len() { modal.checked[i] } else { false };
        let mut text = String::new();
        if checked {
            push_str(&mut text, "[\u{2713}] ");
        } else {
            push_str(&mut text, "[ ] ");
        }
        push_str(&mut text, all_fields[i].as_str());
        out.push(PickerLine { text, at_cursor: i == cursor, checked });
        i = i + 1;
    }
    out
}

} // verus!

//! The structured log viewer as a state machine: the actions a key asks
//! for, and what each action does to the viewer.
use vstd::prelude::*;
use crate::chars::{chars_of, str_eq, string_from_chars, to_owned_string};
use crate::log_filter::{col_fields, min, same_columns, same_rows, sat_sub};
use crate::log_format::{col_width, entry_keys, init_visible_cols, join_with, names_view, visible_pairs, with_new_names};
use crate::log_query::{filters_view, lemma_matches_bounded, matches_between};
use crate::log_types::{ColumnConfig, LogEntry, LogFilterState, LogPreview, StructuredLog, cols_view, fields_view};

verus! {

/// The viewer's invariant: a time per entry, the selected column among the
/// columns (or the first), the picker's cursor among its fields (or the
/// first), and every match an entry.
pub open spec fn viewer_wf(lp: LogPreview) -> bool {
    &&& lp.times@.len() == lp.log.entries@.len()
    &&& (lp.filter_state.selected_col == 0 || lp.filter_state.selected_col < lp.filter_state.visible_cols@.len())
    &&& match lp.filter_state.col_modal {
        Some(m) => m.cursor == 0 || m.cursor < m.checked@.len(),
        None => true,
    }
    &&& forall|k: int| 0 <= k < lp.filter_state.cached_matches@.len() ==> #[trigger] lp.filter_state.cached_matches@[k] < lp.log.entries@.len()
}

/// The indices `n - 1` down to 0: every entry, newest first.
pub open spec fn newest_first(n: nat) -> Seq<usize> {
    Seq::new(n, |k: int| (n - 1 - k) as usize)
}

/// The columns are one per field, in order, sized by `col_width`.
pub open spec fn initial_cols(cols: Seq<ColumnConfig>, fields: Seq<String>, entries: Seq<LogEntry>) -> bool {
    &&& cols.len() == fields.len()
    &&& forall|i: int| 0 <= i < fields.len() ==> (#[trigger] cols[i]).field@ == fields[i]@
        && cols[i].width == col_width(fields[i]@, entries)
}

/// The viewer for a log: every entry matches (newest first), one column
/// per field, nothing typed, marked or picked; `times` holds each entry's
/// time.
pub fn preview_content(log: StructuredLog, times: Vec<Option<u64>>) -> (lp: LogPreview)
    requires
        times@.len() == log.entries@.len(),
    ensures
        viewer_wf(lp),
        lp.log == log,
        lp.times == times,
        lp.filter_state.cached_matches@ == newest_first(log.entries@.len()),
        initial_cols(lp.filter_state.visible_cols@, log.all_fields@, log.entries@),
        lp.filter_state.input@.len() == 0,
        lp.filter_state.filters@.len() == 0,
        !lp.filter_state.input_active,
        lp.filter_state.cursor == 0,
        lp.filter_state.scroll == 0,
        lp.filter_state.selected_col == 0,
        lp.filter_state.col_scroll == 0,
        lp.filter_state.col_modal is None,
        lp.filter_state.marked@ == Set::<usize>::empty(),
        !lp.filter_state.paused,
{
    let visible_cols = init_visible_cols(log.all_fields.as_slice(), log.entries.as_slice());
    let n = log.entries.len();
    let mut cached: Vec<usize> = Vec::new();
    let mut k: usize = n;
    while k > 0
        invariant
            k <= n,
            cached@.len() == n - k,
            forall|j: int| 0 <= j < n - k ==> #[trigger] cached@[j] == n - 1 - j,
        decreases k,
    {
        cached.push(k - 1);
        k = k - 1;
    }
    proof {
        assert(cached@ =~= newest_first(n as nat));
    }
    let mut filter_state = LogFilterState::default();
    filter_state.cached_matches = cached;
    filter_state.visible_cols = visible_cols;
    LogPreview { log, filter_state, times }
}

/// The field names of the entries, one entry after another.
pub open spec fn concat_keys(es: Seq<LogEntry>) -> Seq<Seq<char>>
    decreases es.len(),
{
    if es.len() == 0 {
        seq![]
    } else {
        concat_keys(es.drop_last()) + entry_keys(es.last())
    }
}

/// The columns `cols` with a column of width 15 for each of `names` that
/// no column shows yet, in order.
pub open spec fn add_cols(cols: Seq<(Seq<char>, usize)>, names: Seq<Seq<char>>) -> Seq<(Seq<char>, usize)>
    decreases names.len(),
{
    if names.len() == 0 {
        cols
    } else {
        let prev = add_cols(cols, names.drop_last());
        if prev.map_values(|c: (Seq<char>, usize)| c.0).contains(names.last()) {
            prev
        } else {
            prev.push((names.last(), 15usize))
        }
    }
}

/// How many of `n` new entries fit below the limit `max`, with `len`
/// entries already there.
pub open spec fn kept_count(n: int, len: int, max: int) -> int {
    min(n, sat_sub(max, len))
}

proof fn lemma_concat_keys_push(es: Seq<LogEntry>, e: LogEntry)
    ensures
        concat_keys(es.push(e)) == concat_keys(es) + entry_keys(e),
{
    assert(es.push(e).drop_last() =~= es);
}

proof fn lemma_with_new_names_append(names: Seq<Seq<char>>, a: Seq<Seq<char>>, b: Seq<Seq<char>>)
    ensures
        with_new_names(names, a + b) == with_new_names(with_new_names(names, a), b),
    decreases b.len(),
{
    if b.len() == 0 {
        assert(a + b =~= a);
    } else {
        lemma_with_new_names_append(names, a, b.drop_last());
        assert((a + b).drop_last() =~= a + b.drop_last());
        assert((a + b).last() == b.last());
    }
}

proof fn lemma_cols_fields(v: Seq<ColumnConfig>)
    ensures
        cols_view(v).map_values(|c: (Seq<char>, usize)| c.0) == col_fields(v),
{
    assert(cols_view(v).map_values(|c: (Seq<char>, usize)| c.0) =~= col_fields(v));
}

/// What adding entries (with their times) does to a viewer: nothing when
/// it is paused; else every line counts, entries past `max` are dropped,
/// new field names are added to the log's names (and, unless shown, as
/// columns of width 15), the new matches come first, and a viewer at the
/// newest entry scrolls back to the top.
pub open spec fn append_step(o: LogPreview, f: LogPreview, entries: Seq<LogEntry>, times: Seq<Option<u64>>, max_entries: usize) -> bool {
    if o.filter_state.paused {
        f == o
    } else {
        let k = kept_count(entries.len() as int, o.log.entries@.len() as int, max_entries as int);
        let kept = entries.take(k);
        let names = with_new_names(names_view(o.log.all_fields@), concat_keys(kept));
        &&& f.log.total_lines == o.log.total_lines + entries.len()
        &&& f.log.entries@ == o.log.entries@ + kept
        &&& f.times@ == o.times@ + times.take(k)
        &&& f.log.format == o.log.format
        &&& names_view(f.log.all_fields@) == names
        &&& cols_view(f.filter_state.visible_cols@) == add_cols(cols_view(o.filter_state.visible_cols@),
            names.skip(o.log.all_fields@.len() as int))
        &&& f.filter_state.cached_matches@ == matches_between(f.log, filters_view(o.filter_state.filters@), f.times@,
            o.log.entries@.len() as int, f.log.entries@.len() as int) + o.filter_state.cached_matches@
        &&& f.filter_state.scroll == (if !o.filter_state.input_active && o.filter_state.cursor == 0 { 0 } else { o.filter_state.scroll })
        &&& f.filter_state.cursor == o.filter_state.cursor
        &&& f.filter_state.filters == o.filter_state.filters
        &&& f.filter_state.input == o.filter_state.input
        &&& f.filter_state.input_active == o.filter_state.input_active
        &&& f.filter_state.marked == o.filter_state.marked
        &&& f.filter_state.paused == o.filter_state.paused
        &&& f.filter_state.selected_col == o.filter_state.selected_col
        &&& f.filter_state.col_scroll == o.filter_state.col_scroll
        &&& f.filter_state.col_modal == o.filter_state.col_modal
    }
}

/// Adds entries that arrived (with their times) to a viewer that is not
/// paused: every line counts, entries past `max_entries` are dropped, new
/// field names are added to the log's names (and, unless shown, as
/// columns of width 15), the new matches come first, and a viewer at the
/// newest entry scrolls back to the top.
pub fn append_entries(lp: &mut LogPreview, entries: Vec<LogEntry>, times: Vec<Option<u64>>, max_entries: usize)
    requires
        viewer_wf(*old(lp)),
        times@.len() == entries@.len(),
        old(lp).log.total_lines + entries@.len() <= usize::MAX,
    ensures
        viewer_wf(*final(lp)),
        append_step(*old(lp), *final(lp), entries@, times@, max_entries),
{
    if lp.filter_state.paused {
        return ;
    }
    let ghost o = *lp;
    let from = lp.log.entries.len();
    let mut pending = entries;
    let ghost all = pending@;
    let n = pending.len();
    let ghost old_names = names_view(lp.log.all_fields@);
    let mut new_fields: Vec<String> = Vec::new();
    let mut i: usize = 0;
    while i < n
        invariant
            i <= n == all.len() == times@.len(),
            pending@ == all.skip(i as int),
            lp.log.total_lines == o.log.total_lines + i,
            o.log.total_lines + all.len() <= usize::MAX,
            ({
                let k = kept_count(i as int, o.log.entries@.len() as int, max_entries as int);
                let kept = all.take(k);
                &&& lp.log.entries@ == o.log.entries@ + kept
                &&& lp.times@ == o.times@ + times@.take(k)
                &&& old_names + names_view(new_fields@) == with_new_names(old_names, concat_keys(kept))
                &&& cols_view(lp.filter_state.visible_cols@) == add_cols(cols_view(o.filter_state.visible_cols@),
                    names_view(new_fields@))
            }),
            old_names == names_view(o.log.all_fields@),
            lp.log.all_fields == o.log.all_fields,
            lp.log.format == o.log.format,
            same_rows(&o.filter_state, &lp.filter_state),
            lp.filter_state.selected_col == o.filter_state.selected_col,
            lp.filter_state.col_scroll == o.filter_state.col_scroll,
            lp.filter_state.col_modal == o.filter_state.col_modal,
            o.filter_state.visible_cols@.len() <= lp.filter_state.visible_cols@.len(),
            from == o.log.entries@.len(),
            viewer_wf(o),
            lp.times@.len() == lp.log.entries@.len(),
        decreases all.len() - i,
    {
        let e = pending.remove(0);
        proof {
            assert(e == all[i as int]);
            assert(pending@ =~= all.skip(i + 1));
        }
        lp.log.total_lines = lp.log.total_lines + 1;
        let ghost k0 = kept_count(i as int, o.log.entries@.len() as int, max_entries as int);
        if lp.log.entries.len() >= max_entries {
            proof {
                assert(kept_count(i + 1, o.log.entries@.len() as int, max_entries as int) == k0);
            }
        } else {
            let mut j: usize = 0;
            let ghost names0 = old_names + names_view(new_fields@);
            let ghost cols0 = cols_view(o.filter_state.visible_cols@);
            let ghost ks = entry_keys(e);
            let ghost log0 = lp.log;
            let ghost times0 = lp.times;
            while j < e.fields.len()
                invariant
                    lp.log == log0,
                    lp.times == times0,
                    j <= e.fields@.len(),
                    ks == entry_keys(e),
                    old_names + names_view(new_fields@) == with_new_names(names0, ks.take(j as int)),
                    cols_view(lp.filter_state.visible_cols@) == add_cols(cols0, names_view(new_fields@)),
                    old_names == names_view(o.log.all_fields@),
                    log0.all_fields == o.log.all_fields,
                    same_rows(&o.filter_state, &lp.filter_state),
                    lp.filter_state.selected_col == o.filter_state.selected_col,
                    lp.filter_state.col_scroll == o.filter_state.col_scroll,
                    lp.filter_state.col_modal == o.filter_state.col_modal,
                    o.filter_state.visible_cols@.len() <= lp.filter_state.visible_cols@.len(),
                    cols0 == cols_view(o.filter_state.visible_cols@),
                decreases e.fields@.len() - j,
            {
                let name = e.fields[j].0.as_str();
                proof {
                    assert(ks.take(j + 1).drop_last() =~= ks.take(j as int));
                    assert(ks.take(j + 1).last() == name@);
                }
                let mut known = false;
                let mut q: usize = 0;
                while q < lp.log.all_fields.len() && !known
                    invariant
                        q <= lp.log.all_fields@.len(),
                        known ==> names_view(lp.log.all_fields@).contains(name@),
                        !known ==> forall|x: int| 0 <= x < q ==> lp.log.all_fields@[x]@ != name@,
                    decreases lp.log.all_fields@.len() - q,
                {
                    if str_eq(lp.log.all_fields[q].as_str(), name) {
                        known = true;
                        proof {
                            assert(names_view(lp.log.all_fields@)[q as int] == name@);
                        }
                    }
                    q = q + 1;
                }
                proof {
                    if known {
                        let x = choose|x: int| 0 <= x < names_view(lp.log.all_fields@).len() && names_view(lp.log.all_fields@)[x] == name@;
                        assert((old_names + names_view(new_fields@))[x] == name@);
                    }
                }
                let mut q2: usize = 0;
                while q2 < new_fields.len() && !known
                    invariant
                        q2 <= new_fields@.len(),
                        known ==> (old_names + names_view(new_fields@)).contains(name@),
                        !known ==> forall|x: int| 0 <= x < q2 ==> new_fields@[x]@ != name@,
                        !known ==> forall|x: int| 0 <= x < lp.log.all_fields@.len() ==> lp.log.all_fields@[x]@ != name@,
                        old_names == names_view(lp.log.all_fields@),
                    decreases new_fields@.len() - q2,
                {
                    if str_eq(new_fields[q2].as_str(), name) {
                        known = true;
                        proof {
                            assert((old_names + names_view(new_fields@))[old_names.len() + q2] == name@);
                        }
                    }
                    q2 = q2 + 1;
                }
                proof {
                    let all_names = old_names + names_view(new_fields@);
                    if known {
                        if names_view(lp.log.all_fields@).contains(name@) {
                            let x = choose|x: int| 0 <= x < names_view(lp.log.all_fields@).len() && names_view(lp.log.all_fields@)[x] == name@;
                            assert(all_names[x] == name@);
                        }
                    } else {
                        assert forall|x: int| 0 <= x < all_names.len() implies all_names[x] != name@ by {
                            if x < old_names.len() {
                                assert(old_names[x] == lp.log.all_fields@[x]@);
                            } else {
                                assert(all_names[x] == new_fields@[x - old_names.len()]@);
                            }
                        }
                    }
                }
                if !known {
                    let ghost before_cols = lp.filter_state.visible_cols@;
                    let ghost before_new = names_view(new_fields@);
                    lp.filter_state.add_new_visible_col(name);
                    new_fields.push(to_owned_string(name));
                    proof {
                        assert(names_view(new_fields@) =~= before_new.push(name@));
                        assert(names_view(new_fields@).drop_last() =~= before_new);
                        lemma_cols_fields(before_cols);
                        assert(old_names + names_view(new_fields@) =~= (old_names + before_new).push(name@));
                        assert(cols_view(lp.filter_state.visible_cols@).len() == lp.filter_state.visible_cols@.len());
                        assert(cols_view(before_cols).len() == before_cols.len());
                    }
                }
                j = j + 1;
            }
            proof {
                assert(ks.take(e.fields@.len() as int) =~= ks);
                let kept0 = all.take(k0);
                assert(all.take(k0 + 1) =~= kept0.push(e));
                lemma_concat_keys_push(kept0, e);
                lemma_with_new_names_append(old_names, concat_keys(kept0), ks);
                assert(kept_count(i + 1, o.log.entries@.len() as int, max_entries as int) == k0 + 1);
            }
            lp.log.entries.push(e);
            lp.times.push(times[i]);
            proof {
                assert(times@.take(k0 + 1) =~= times@.take(k0).push(times@[i as int]));
                assert(k0 == i - 0 || k0 <= i);
            }
        }
        i = i + 1;
    }
    proof {
        assert(all.skip(all.len() as int) =~= Seq::<LogEntry>::empty());
    }
    let ghost lp1 = *lp;
    let mut q: usize = 0;
    while q < new_fields.len()
        invariant
            q <= new_fields@.len(),
            lp.log.entries == lp1.log.entries,
            lp.times == lp1.times,
            lp.filter_state == lp1.filter_state,
            lp.log.total_lines == lp1.log.total_lines,
            lp.log.format == lp1.log.format,
            names_view(lp.log.all_fields@) == old_names + names_view(new_fields@).take(q as int),
        decreases new_fields@.len() - q,
    {
        let ghost b = names_view(lp.log.all_fields@);
        lp.log.all_fields.push(to_owned_string(new_fields[q].as_str()));
        proof {
            assert(names_view(lp.log.all_fields@) =~= b.push(new_fields@[q as int]@));
            assert(names_view(new_fields@).take(q + 1) =~= names_view(new_fields@).take(q as int).push(new_fields@[q as int]@));
        }
        q = q + 1;
    }
    proof {
        assert(names_view(new_fields@).take(new_fields@.len() as int) =~= names_view(new_fields@));
        let names = old_names + names_view(new_fields@);
        assert(names.skip(old_names.len() as int) =~= names_view(new_fields@));
    }
    let ghost mid = lp.filter_state;
    lp.filter_state.extend_matches(&lp.log, from, lp.times.as_slice());
    proof {
        lemma_matches_bounded(lp.log, filters_view(lp.filter_state.filters@), lp.times@, from as int, lp.log.entries@.len() as int);
        let nm = matches_between(lp.log, filters_view(lp.filter_state.filters@), lp.times@, from as int, lp.log.entries@.len() as int);
        assert forall|k: int| 0 <= k < lp.filter_state.cached_matches@.len() implies #[trigger] lp.filter_state.cached_matches@[k] < lp.log.entries@.len() by {
            if k < nm.len() {
                assert(lp.filter_state.cached_matches@[k] == nm[k]);
            } else {
                assert(lp.filter_state.cached_matches@[k] == mid.cached_matches@[k - nm.len()]);
            }
        }
    }
    if !lp.filter_state.input_active && lp.filter_state.cursor == 0 {
        lp.filter_state.scroll = 0;
    }
}

/// What the viewer asks of the program after an action: nothing (carry
/// on), to quit, or to give the focus back to the search.
#[derive(Debug, Clone, Copy, PartialEq, Eq, Structural)]
pub enum LogViewerOutcome {
    Continue,
    ExitApp,
    FocusSearch,
}

/// An action on the filter input.
#[derive(Debug, Clone, Copy, PartialEq, Eq, Structural)]
pub enum FilterAction {
    StartEditing,
    StopEditing,
    Backspace,
    Insert(char),
}

/// An action on the cursor.
#[derive(Debug, Clone, Copy, PartialEq, Eq, Structural)]
pub enum CursorAction {
    ToNewest,
    ToOldest,
    Down(usize),
    Up(usize),
}

/// An action on the columns.
#[derive(Debug, Clone, Copy, PartialEq, Eq, Structural)]
pub enum ColumnAction {
    MoveLeft,
    MoveRight,
    HideSelected,
    IsolateSelected,
    OpenPicker,
    Resize(i32),
}

/// An action in the column picker.
#[derive(Debug, Clone, Copy, PartialEq, Eq, Structural)]
pub enum ModalAction {
    Close,
    Apply,
    Down,
    Up,
    Toggle { advance: bool },
}

/// An action of the log viewer.
#[derive(Debug, Clone, Copy, PartialEq, Eq, Structural)]
pub enum LogViewerAction {
    Filter(FilterAction),
    Cursor(CursorAction),
    Column(ColumnAction),
    Modal(ModalAction),
    TogglePause,
    ToggleMark,
    Copy { raw: bool },
    ResetView,
    Exit,
}

/// A key as the log viewer reads it.
#[derive(Debug, Clone, Copy, PartialEq, Eq, Structural)]
pub enum LogKey {
    Char(char),
    Up,
    Down,
    Left,
    Right,
    Tab,
    Esc,
    Enter,
    Backspace,
    Other,
}

/// The action a key asks for: in the column picker, picker actions; while
/// typing a filter, filter actions; else the viewer's commands.
pub open spec fn key_action(modal_open: bool, input_active: bool, key: LogKey) -> Option<LogViewerAction> {
    if modal_open {
        match key {
            LogKey::Esc => Some(LogViewerAction::Modal(ModalAction::Close)),
            LogKey::Enter => Some(LogViewerAction::Modal(ModalAction::Apply)),
            LogKey::Char('j') | LogKey::Down => Some(LogViewerAction::Modal(ModalAction::Down)),
            LogKey::Char('k') | LogKey::Up => Some(LogViewerAction::Modal(ModalAction::Up)),
            LogKey::Char(' ') => Some(LogViewerAction::Modal(ModalAction::Toggle { advance: false })),
            LogKey::Tab => Some(LogViewerAction::Modal(ModalAction::Toggle { advance: true })),
            _ => None,
        }
    } else if input_active {
        match key {
            LogKey::Esc | LogKey::Enter => Some(LogViewerAction::Filter(FilterAction::StopEditing)),
            LogKey::Backspace => Some(LogViewerAction::Filter(FilterAction::Backspace)),
            LogKey::Char(c) => Some(LogViewerAction::Filter(FilterAction::Insert(c))),
            _ => None,
        }
    } else {
        match key {
            LogKey::Char('/') => Some(LogViewerAction::Filter(FilterAction::StartEditing)),
            LogKey::Char('r') => Some(LogViewerAction::ResetView),
            LogKey::Char('G') => Some(LogViewerAction::Cursor(CursorAction::ToOldest)),
            LogKey::Char('g') => Some(LogViewerAction::Cursor(CursorAction::ToNewest)),
            LogKey::Char('j') | LogKey::Down => Some(LogViewerAction::Cursor(CursorAction::Down(1usize))),
            LogKey::Char('k') | LogKey::Up => Some(LogViewerAction::Cursor(CursorAction::Up(1usize))),
            LogKey::Char('d') => Some(LogViewerAction::Cursor(CursorAction::Down(20usize))),
            LogKey::Char('u') => Some(LogViewerAction::Cursor(CursorAction::Up(20usize))),
            LogKey::Char('h') | LogKey::Left => Some(LogViewerAction::Column(ColumnAction::MoveLeft)),
            LogKey::Char('l') | LogKey::Right => Some(LogViewerAction::Column(ColumnAction::MoveRight)),
            LogKey::Char('H') => Some(LogViewerAction::Column(ColumnAction::HideSelected)),
            LogKey::Char('o') => Some(LogViewerAction::Column(ColumnAction::IsolateSelected)),
            LogKey::Char('a') => Some(LogViewerAction::Column(ColumnAction::OpenPicker)),
            LogKey::Char('<') => Some(LogViewerAction::Column(ColumnAction::Resize(-5i32))),
            LogKey::Char('>') => Some(LogViewerAction::Column(ColumnAction::Resize(5i32))),
            LogKey::Char('p') => Some(LogViewerAction::TogglePause),
            LogKey::Tab => Some(LogViewerAction::ToggleMark),
            LogKey::Char('y') => Some(LogViewerAction::Copy { raw: false }),
            LogKey::Char('Y') => Some(LogViewerAction::Copy { raw: true }),
            LogKey::Esc | LogKey::Char('q') => Some(LogViewerAction::Exit),
            _ => None,
        }
    }
}

/// The action a key asks for in the viewer (see `key_action`).
pub fn action_for_key(lp: &LogPreview, key: LogKey) -> (r: Option<LogViewerAction>)
    ensures
        r == key_action(lp.filter_state.col_modal is Some, lp.filter_state.input_active, key),
{
    if lp.filter_state.col_modal.is_some() {
        return match key {
            LogKey::Esc => Some(LogViewerAction::Modal(ModalAction::Close)),
            LogKey::Enter => Some(LogViewerAction::Modal(ModalAction::Apply)),
            LogKey::Char('j') | LogKey::Down => Some(LogViewerAction::Modal(ModalAction::Down)),
            LogKey::Char('k') | LogKey::Up => Some(LogViewerAction::Modal(ModalAction::Up)),
            LogKey::Char(' ') => Some(LogViewerAction::Modal(ModalAction::Toggle { advance: false })),
            LogKey::Tab => Some(LogViewerAction::Modal(ModalAction::Toggle { advance: true })),
            _ => None,
        };
    }
    if lp.filter_state.input_active {
        return match key {
            LogKey::Esc | LogKey::Enter => Some(LogViewerAction::Filter(FilterAction::StopEditing)),
            LogKey::Backspace => Some(LogViewerAction::Filter(FilterAction::Backspace)),
            LogKey::Char(c) => Some(LogViewerAction::Filter(FilterAction::Insert(c))),
            _ => None,
        };
    }
    match key {
        LogKey::Char('/') => Some(LogViewerAction::Filter(FilterAction::StartEditing)),
        LogKey::Char('r') => Some(LogViewerAction::ResetView),
        LogKey::Char('G') => Some(LogViewerAction::Cursor(CursorAction::ToOldest)),
        LogKey::Char('g') => Some(LogViewerAction::Cursor(CursorAction::ToNewest)),
        LogKey::Char('j') | LogKey::Down => Some(LogViewerAction::Cursor(CursorAction::Down(1))),
        LogKey::Char('k') | LogKey::Up => Some(LogViewerAction::Cursor(CursorAction::Up(1))),
        LogKey::Char('d') => Some(LogViewerAction::Cursor(CursorAction::Down(20))),
        LogKey::Char('u') => Some(LogViewerAction::Cursor(CursorAction::Up(20))),
        LogKey::Char('h') | LogKey::Left => Some(LogViewerAction::Column(ColumnAction::MoveLeft)),
        LogKey::Char('l') | LogKey::Right => Some(LogViewerAction::Column(ColumnAction::MoveRight)),
        LogKey::Char('H') => Some(LogViewerAction::Column(ColumnAction::HideSelected)),
        LogKey::Char('o') => Some(LogViewerAction::Column(ColumnAction::IsolateSelected)),
        LogKey::Char('a') => Some(LogViewerAction::Column(ColumnAction::OpenPicker)),
        LogKey::Char('<') => Some(LogViewerAction::Column(ColumnAction::Resize(-5))),
        LogKey::Char('>') => Some(LogViewerAction::Column(ColumnAction::Resize(5))),
        LogKey::Char('p') => Some(LogViewerAction::TogglePause),
        LogKey::Tab => Some(LogViewerAction::ToggleMark),
        LogKey::Char('y') => Some(LogViewerAction::Copy { raw: false }),
        LogKey::Char('Y') => Some(LogViewerAction::Copy { raw: true }),
        LogKey::Esc | LogKey::Char('q') => Some(LogViewerAction::Exit),
        _ => None,
    }
}

/// The log and the entries' times stay.
pub open spec fn same_log(o: LogPreview, n: LogPreview) -> bool {
    n.log == o.log && n.times == o.times
}

/// The filter input becomes `input`: the filters are read from it anew,
/// the matches recomputed, and the cursor goes back to the newest entry.
pub open spec fn input_step(o: LogPreview, n: LogPreview, input: Seq<char>) -> bool {
    let (a, b) = (o.filter_state, n.filter_state);
    &&& same_log(o, n)
    &&& b.input@ == input
    &&& exists|now: u64| filters_view(b.filters@) == crate::log_query::filters_of(crate::log_query::words(input), now)
    &&& b.cached_matches@ == matches_between(o.log, filters_view(b.filters@), o.times@, 0, o.log.entries@.len() as int)
    &&& b.cursor == 0
    &&& b.scroll == 0
    &&& b.marked == a.marked
    &&& b.input_active == a.input_active
    &&& b.paused == a.paused
    &&& same_columns(&a, &b)
}

/// The text without its last char (if any).
pub open spec fn pop_char(s: Seq<char>) -> Seq<char> {
    if s.len() > 0 { s.drop_last() } else { s }
}

/// What a filter action does.
pub open spec fn filter_step(o: LogPreview, n: LogPreview, a: FilterAction) -> bool {
    match a {
        FilterAction::StartEditing => same_log(o, n) && n.filter_state == LogFilterState { input_active: true, ..o.filter_state },
        FilterAction::StopEditing => same_log(o, n) && n.filter_state == LogFilterState { input_active: false, ..o.filter_state },
        FilterAction::Backspace => input_step(o, n, pop_char(o.filter_state.input@)),
        FilterAction::Insert(c) => input_step(o, n, o.filter_state.input@.push(c)),
    }
}

/// What a cursor action does.
pub open spec fn cursor_step(o: LogPreview, n: LogPreview, act: CursorAction) -> bool {
    let (a, b) = (o.filter_state, n.filter_state);
    let last = sat_sub(a.cached_matches@.len() as int, 1);
    &&& same_log(o, n)
    &&& same_columns(&a, &b)
    &&& b.input == a.input
    &&& b.filters == a.filters
    &&& b.input_active == a.input_active
    &&& b.marked == a.marked
    &&& b.cached_matches == a.cached_matches
    &&& b.paused == a.paused
    &&& match act {
        CursorAction::ToNewest => b.cursor == 0 && b.scroll == 0,
        CursorAction::ToOldest => b.cursor == last && b.scroll == a.scroll,
        CursorAction::Down(c) => b.cursor == min(a.cursor + c, last) && b.scroll == a.scroll,
        CursorAction::Up(c) => b.cursor == sat_sub(a.cursor as int, c as int) && b.scroll == a.scroll,
    }
}

/// What a column action does.
pub open spec fn column_step(o: LogPreview, n: LogPreview, act: ColumnAction) -> bool {
    let (a, b) = (o.filter_state, n.filter_state);
    let len = a.visible_cols@.len();
    &&& same_log(o, n)
    &&& same_rows(&a, &b)
    &&& match act {
        ColumnAction::MoveLeft => b.selected_col == sat_sub(a.selected_col as int, 1) && b.visible_cols == a.visible_cols
            && b.col_scroll == a.col_scroll && b.col_modal == a.col_modal,
        ColumnAction::MoveRight => b.selected_col == (if len > 0 { min(a.selected_col + 1, len - 1) } else { a.selected_col as int })
            && b.visible_cols == a.visible_cols && b.col_scroll == a.col_scroll && b.col_modal == a.col_modal,
        ColumnAction::HideSelected => if len <= 1 {
            same_columns(&a, &b)
        } else {
            b.visible_cols@ == a.visible_cols@.remove(a.selected_col as int) && b.selected_col == min(a.selected_col as int, len - 2)
                && b.col_scroll == a.col_scroll && b.col_modal == a.col_modal
        },
        ColumnAction::IsolateSelected => if len == 0 {
            same_columns(&a, &b)
        } else {
            b.visible_cols@ == seq![a.visible_cols@[a.selected_col as int]] && b.selected_col == 0 && b.col_scroll == 0
                && b.col_modal == a.col_modal
        },
        ColumnAction::OpenPicker => b.col_modal is Some && b.col_modal->0.cursor == 0 && b.col_modal->0.scroll == 0
            && b.col_modal->0.checked@.len() == o.log.all_fields@.len()
            && (forall|i: int| 0 <= i < o.log.all_fields@.len() ==> #[trigger] b.col_modal->0.checked@[i]
                == col_fields(a.visible_cols@).contains(o.log.all_fields@[i]@))
            && b.visible_cols == a.visible_cols && b.selected_col == a.selected_col && b.col_scroll == a.col_scroll,
        ColumnAction::Resize(d) => b.selected_col == a.selected_col && b.col_scroll == a.col_scroll && b.col_modal == a.col_modal
            && if a.selected_col < len {
                let c = a.visible_cols@[a.selected_col as int];
                let w = (c.width as i32) + d;
                b.visible_cols@ == a.visible_cols@.update(a.selected_col as int,
                    ColumnConfig { field: c.field, width: (if w > 3 { w } else { 3 }) as usize })
            } else {
                b.visible_cols == a.visible_cols
            },
    }
}

/// The picker of `b` is that of `a` with cursor `cursor` and ticks
/// `checked`.
pub open spec fn picker_now(a: LogFilterState, b: LogFilterState, cursor: int, checked: Seq<bool>) -> bool {
    &&& b.col_modal is Some
    &&& b.col_modal->0.cursor == cursor
    &&& b.col_modal->0.checked@ == checked
    &&& b.col_modal->0.scroll == a.col_modal->0.scroll
}

/// What a picker action does (nothing when the picker is closed).
pub open spec fn modal_step(o: LogPreview, n: LogPreview, act: ModalAction) -> bool {
    let (a, b) = (o.filter_state, n.filter_state);
    match a.col_modal {
        None => n == o,
        Some(m) => {
            let count = m.checked@.len();
            &&& same_log(o, n)
            &&& same_rows(&a, &b)
            &&& match act {
                ModalAction::Close => b.col_modal is None && b.visible_cols == a.visible_cols && b.selected_col == a.selected_col
                    && b.col_scroll == a.col_scroll,
                ModalAction::Apply => {
                    let picked = crate::log_filter::picked_cols(crate::config::strings_view(o.log.all_fields@), m.checked@,
                        cols_view(a.visible_cols@));
                    &&& b.col_modal is None
                    &&& picked.len() == 0 ==> b.visible_cols == a.visible_cols && b.selected_col == a.selected_col
                        && b.col_scroll == a.col_scroll
                    &&& picked.len() > 0 ==> cols_view(b.visible_cols@) == picked
                        && b.selected_col == min(a.selected_col as int, picked.len() - 1)
                        && b.col_scroll == min(a.col_scroll as int, b.selected_col as int)
                },
                ModalAction::Down => b.visible_cols == a.visible_cols && b.selected_col == a.selected_col && b.col_scroll == a.col_scroll
                    && picker_now(a, b, if count > 0 { min(m.cursor + 1, count - 1) } else { m.cursor as int }, m.checked@),
                ModalAction::Up => b.visible_cols == a.visible_cols && b.selected_col == a.selected_col && b.col_scroll == a.col_scroll
                    && picker_now(a, b, sat_sub(m.cursor as int, 1), m.checked@),
                ModalAction::Toggle { advance } => b.visible_cols == a.visible_cols && b.selected_col == a.selected_col
                    && b.col_scroll == a.col_scroll && picker_now(a, b,
                    if advance && m.cursor + 1 < count { m.cursor + 1 } else { m.cursor as int },
                    if m.cursor < count { m.checked@.update(m.cursor as int, !m.checked@[m.cursor as int]) } else { m.checked@ }),
            }
        },
    }
}

/// The actions an action leads to stay within bounds: a query whose
/// durations fit, a cursor and a width that do not overflow.
pub open spec fn action_fits(lp: LogPreview, action: LogViewerAction) -> bool {
    let a = lp.filter_state;
    match action {
        LogViewerAction::Filter(FilterAction::Insert(c)) => crate::log_query::query_fits(a.input@.push(c)),
        LogViewerAction::Filter(FilterAction::Backspace) => crate::log_query::query_fits(pop_char(a.input@)),
        LogViewerAction::Cursor(CursorAction::Down(n)) => a.cursor + n <= usize::MAX,
        LogViewerAction::Column(ColumnAction::Resize(d)) => a.selected_col < a.visible_cols@.len() ==> i32::MIN <= (
        a.visible_cols@[a.selected_col as int].width as i32) + d <= i32::MAX,
        _ => true,
    }
}

/// Applies a filter action (see `filter_step`).
pub fn apply_filter_action(lp: &mut LogPreview, action: FilterAction)
    requires
        viewer_wf(*old(lp)),
        action_fits(*old(lp), LogViewerAction::Filter(action)),
    ensures
        viewer_wf(*final(lp)),
        filter_step(*old(lp), *final(lp), action),
{
    match action {
        FilterAction::StartEditing => {
            lp.filter_state.input_active = true;
        },
        FilterAction::StopEditing => {
            lp.filter_state.input_active = false;
        },
        FilterAction::Backspace => {
            let v = chars_of(lp.filter_state.input.as_str());
            if v.len() > 0 {
                lp.filter_state.input = string_from_chars(v.as_slice(), 0, v.len() - 1);
                proof {
                    assert(v@.subrange(0, v@.len() - 1) =~= v@.drop_last());
                }
            }
            lp.filter_state.apply_input(&lp.log, lp.times.as_slice());
            let n = lp.log.entries.len();
            proof {
                lemma_matches_bounded(lp.log, filters_view(lp.filter_state.filters@), lp.times@, 0, n as int);
            }
        },
        FilterAction::Insert(c) => {
            crate::chars::push_char(&mut lp.filter_state.input, c);
            lp.filter_state.apply_input(&lp.log, lp.times.as_slice());
            let n = lp.log.entries.len();
            proof {
                lemma_matches_bounded(lp.log, filters_view(lp.filter_state.filters@), lp.times@, 0, n as int);
            }
        },
    }
}

/// Applies a cursor action (see `cursor_step`).
pub fn apply_cursor_action(lp: &mut LogPreview, action: CursorAction)
    requires
        viewer_wf(*old(lp)),
        action_fits(*old(lp), LogViewerAction::Cursor(action)),
    ensures
        viewer_wf(*final(lp)),
        cursor_step(*old(lp), *final(lp), action),
{
    match action {
        CursorAction::ToNewest => {
            lp.filter_state.cursor = 0;
            lp.filter_state.scroll = 0;
        },
        CursorAction::ToOldest => lp.filter_state.scroll_to_bottom(),
        CursorAction::Down(count) => lp.filter_state.scroll_down(count),
        CursorAction::Up(count) => lp.filter_state.scroll_up(count),
    }
}

/// Applies a column action (see `column_step`).
pub fn apply_column_action(lp: &mut LogPreview, action: ColumnAction)
    requires
        viewer_wf(*old(lp)),
        action_fits(*old(lp), LogViewerAction::Column(action)),
    ensures
        viewer_wf(*final(lp)),
        column_step(*old(lp), *final(lp), action),
{
    match action {
        ColumnAction::MoveLeft => lp.filter_state.move_col_left(),
        ColumnAction::MoveRight => {
            let n = lp.filter_state.visible_cols.len();
            assert(n > 0 ==> lp.filter_state.selected_col < n);
            lp.filter_state.move_col_right()
        },
        ColumnAction::HideSelected => lp.filter_state.hide_selected_col(),
        ColumnAction::IsolateSelected => lp.filter_state.isolate_selected_col(),
        ColumnAction::OpenPicker => lp.filter_state.open_col_modal(lp.log.all_fields.as_slice()),
        ColumnAction::Resize(delta) => lp.filter_state.resize_selected_col(delta),
    }
}

/// Applies a picker action (see `modal_step`).
pub fn apply_modal_action(lp: &mut LogPreview, action: ModalAction)
    requires
        viewer_wf(*old(lp)),
    ensures
        viewer_wf(*final(lp)),
        modal_step(*old(lp), *final(lp), action),
{
    let (cursor, count) = match &lp.filter_state.col_modal {
        Some(m) => (m.cursor, m.checked.len()),
        None => return ,
    };
    match action {
        ModalAction::Close => {
            lp.filter_state.col_modal = None;
        },
        ModalAction::Apply => {
            lp.filter_state.apply_modal_changes(lp.log.all_fields.as_slice());
        },
        ModalAction::Down => {
            if count > 0 {
                let next = if cursor + 1 < count - 1 { cursor + 1 } else { count - 1 };
                let m = lp.filter_state.col_modal.take().unwrap();
                lp.filter_state.col_modal = Some(crate::log_types::ColModal { cursor: next, checked: m.checked, scroll: m.scroll });
            }
        },
        ModalAction::Up => {
            let m = lp.filter_state.col_modal.take().unwrap();
            let prev = if cursor > 0 { cursor - 1 } else { 0 };
            lp.filter_state.col_modal = Some(crate::log_types::ColModal { cursor: prev, checked: m.checked, scroll: m.scroll });
        },
        ModalAction::Toggle { advance } => {
            let m = lp.filter_state.col_modal.take().unwrap();
            let mut checked = m.checked;
            if cursor < count {
                let flipped = !checked[cursor];
                checked.set(cursor, flipped);
            }
            let next = if advance && cursor + 1 < count { cursor + 1 } else { cursor };
            lp.filter_state.col_modal = Some(crate::log_types::ColModal { cursor: next, checked, scroll: m.scroll });
        },
    }
}

/// An entry as copied: its line, or its shown fields as text.
pub open spec fn entry_text(lp: LogPreview, idx: int, raw: bool) -> Seq<char> {
    if raw {
        lp.log.entries@[idx].raw@
    } else {
        join_with(visible_pairs(fields_view(lp.log.entries@[idx]), lp.filter_state.visible_cols@), seq![' ', ' '])
    }
}

/// The copied texts of the marked entries among the first `k` matches, in
/// match order.
pub open spec fn marked_lines(lp: LogPreview, raw: bool, k: int) -> Seq<Seq<char>>
    decreases k,
{
    if k <= 0 {
        seq![]
    } else {
        let prev = marked_lines(lp, raw, k - 1);
        let idx = lp.filter_state.cached_matches@[k - 1];
        if lp.filter_state.marked@.contains(idx) {
            prev.push(entry_text(lp, idx as int, raw))
        } else {
            prev
        }
    }
}

/// What a copy takes: the marked entries, one per line, when some are
/// marked; else the entry under the cursor (the last match at most); none
/// when nothing matches.
pub open spec fn copy_text_of(lp: LogPreview, raw: bool) -> Option<Seq<char>> {
    let a = lp.filter_state;
    let len = a.cached_matches@.len();
    if !a.marked@.is_empty() {
        Some(join_with(marked_lines(lp, raw, len as int), seq!['\n']))
    } else if len > 0 {
        Some(entry_text(lp, a.cached_matches@[min(a.cursor as int, len - 1)] as int, raw))
    } else {
        None
    }
}

/// The text a copy takes (see `copy_text_of`).
pub fn copy_text(lp: &LogPreview, raw: bool) -> (r: Option<String>)
    requires
        viewer_wf(*lp),
    ensures
        match copy_text_of(*lp, raw) {
            Some(t) => r is Some && r->0@ == t,
            None => r is None,
        },
{
    broadcast use vstd::std_specs::hash::group_hash_axioms;
    let fs = &lp.filter_state;
    let entries = &lp.log.entries;
    let len = fs.cached_matches.len();
    if !fs.marked.is_empty() {
        let mut out = String::new();
        let mut any = false;
        let mut k: usize = 0;
        while k < len
            invariant
                k <= len == fs.cached_matches@.len(),
                fs == &lp.filter_state,
                entries == &lp.log.entries,
                viewer_wf(*lp),
                any == (marked_lines(*lp, raw, k as int).len() > 0),
                out@ == join_with(marked_lines(*lp, raw, k as int), seq!['\n']),
            decreases len - k,
        {
            let idx = fs.cached_matches[k];
            if fs.marked.contains(&idx) {
                let t = if raw {
                    to_owned_string(entries[idx].raw.as_str())
                } else {
                    crate::log_format::format_entry_visible(&entries[idx], fs.visible_cols.as_slice())
                };
                let ghost before = marked_lines(*lp, raw, k as int);
                if any {
                    crate::chars::push_char(&mut out, '\n');
                }
                crate::chars::push_str(&mut out, t.as_str());
                any = true;
                proof {
                    let now = marked_lines(*lp, raw, k + 1);
                    assert(now == before.push(t@));
                    assert(now.drop_last() =~= before);
                    assert(out@ =~= join_with(now, seq!['\n']));
                }
            }
            k = k + 1;
        }
        Some(out)
    } else if len > 0 {
        let c = if fs.cursor < len - 1 { fs.cursor } else { len - 1 };
        let idx = fs.cached_matches[c];
        if raw {
            Some(to_owned_string(entries[idx].raw.as_str()))
        } else {
            Some(crate::log_format::format_entry_visible(&entries[idx], fs.visible_cols.as_slice()))
        }
    } else {
        None
    }
}

/// What a copy does: with a text to copy, it is handed out (`clip`) and
/// the marks are cleared; else nothing happens.
pub open spec fn copy_step(o: LogPreview, n: LogPreview, raw: bool, clip: Option<String>) -> bool {
    let (a, b) = (o.filter_state, n.filter_state);
    match copy_text_of(o, raw) {
        Some(t) => if t.len() > 0 {
            &&& clip is Some && clip->0@ == t
            &&& same_log(o, n)
            &&& same_columns(&a, &b)
            &&& b.marked@ == Set::<usize>::empty()
            &&& b.cursor == a.cursor && b.scroll == a.scroll && b.cached_matches == a.cached_matches && b.filters == a.filters
            &&& b.input == a.input && b.input_active == a.input_active && b.paused == a.paused
        } else {
            n == o && clip is None
        },
        None => n == o && clip is None,
    }
}

/// What resetting the view does: no query, every entry matching, the
/// first columns back, the cursor on the newest entry.
pub open spec fn reset_step(o: LogPreview, n: LogPreview) -> bool {
    let (a, b) = (o.filter_state, n.filter_state);
    &&& same_log(o, n)
    &&& b.input@.len() == 0
    &&& b.filters@.len() == 0
    &&& b.cursor == 0
    &&& b.scroll == 0
    &&& b.cached_matches@ == matches_between(o.log, seq![], o.times@, 0, o.log.entries@.len() as int)
    &&& initial_cols(b.visible_cols@, o.log.all_fields@, o.log.entries@)
    &&& b.selected_col == 0
    &&& b.col_scroll == 0
    &&& b.col_modal == a.col_modal
    &&& b.marked == a.marked
    &&& b.input_active == a.input_active
    &&& b.paused == a.paused
}

/// Clears the query and brings the columns back (see `reset_step`).
pub fn reset_filter_and_columns(lp: &mut LogPreview)
    requires
        viewer_wf(*old(lp)),
    ensures
        viewer_wf(*final(lp)),
        reset_step(*old(lp), *final(lp)),
{
    lp.filter_state.input = String::new();
    lp.filter_state.filters = Vec::new();
    lp.filter_state.cursor = 0;
    lp.filter_state.scroll = 0;
    lp.filter_state.recompute_matches(&lp.log, lp.times.as_slice());
    proof {
        assert(filters_view(lp.filter_state.filters@) =~= Seq::empty());
    }
    let n = lp.log.entries.len();
    proof {
        lemma_matches_bounded(lp.log, filters_view(lp.filter_state.filters@), lp.times@, 0, n as int);
    }
    lp.filter_state.visible_cols = init_visible_cols(lp.log.all_fields.as_slice(), lp.log.entries.as_slice());
    lp.filter_state.selected_col = 0;
    lp.filter_state.col_scroll = 0;
}

/// What toggling the mark does: the entry under the cursor is marked or
/// unmarked (nothing without one).
pub open spec fn mark_step(o: LogPreview, n: LogPreview) -> bool {
    let (a, b) = (o.filter_state, n.filter_state);
    &&& same_log(o, n)
    &&& same_columns(&a, &b)
    &&& b.cursor == a.cursor && b.scroll == a.scroll && b.cached_matches == a.cached_matches && b.filters == a.filters
    &&& b.input == a.input && b.input_active == a.input_active && b.paused == a.paused
    &&& if a.cursor < a.cached_matches@.len() {
        let e = a.cached_matches@[a.cursor as int];
        b.marked@ == (if a.marked@.contains(e) { a.marked@.remove(e) } else { a.marked@.insert(e) })
    } else {
        b.marked@ == a.marked@
    }
}

/// Applies an action to the viewer. Returns what the program should do
/// next and, for a copy, the text to put on the clipboard.
pub fn apply_action(lp: &mut LogPreview, action: LogViewerAction, standalone_log_mode: bool) -> (r: (LogViewerOutcome, Option<String>))
    requires
        viewer_wf(*old(lp)),
        action_fits(*old(lp), action),
    ensures
        viewer_wf(*final(lp)),
        action != LogViewerAction::Exit ==> r.0 == LogViewerOutcome::Continue,
        !(action is Copy) ==> r.1 is None,
        match action {
            LogViewerAction::Filter(a) => filter_step(*old(lp), *final(lp), a),
            LogViewerAction::Cursor(a) => cursor_step(*old(lp), *final(lp), a),
            LogViewerAction::Column(a) => column_step(*old(lp), *final(lp), a),
            LogViewerAction::Modal(a) => modal_step(*old(lp), *final(lp), a),
            LogViewerAction::TogglePause => same_log(*old(lp), *final(lp)) && final(lp).filter_state == LogFilterState {
                paused: !old(lp).filter_state.paused,
                ..old(lp).filter_state
            },
            LogViewerAction::ToggleMark => mark_step(*old(lp), *final(lp)),
            LogViewerAction::Copy { raw } => copy_step(*old(lp), *final(lp), raw, r.1),
            LogViewerAction::ResetView => reset_step(*old(lp), *final(lp)),
            LogViewerAction::Exit => *final(lp) == *old(lp) && r.0 == (if standalone_log_mode {
                LogViewerOutcome::ExitApp
            } else {
                LogViewerOutcome::FocusSearch
            }),
        },
{
    match action {
        LogViewerAction::Filter(a) => apply_filter_action(lp, a),
        LogViewerAction::Cursor(a) => apply_cursor_action(lp, a),
        LogViewerAction::Column(a) => apply_column_action(lp, a),
        LogViewerAction::Modal(a) => apply_modal_action(lp, a),
        LogViewerAction::TogglePause => {
            lp.filter_state.paused = !lp.filter_state.paused;
        },
        LogViewerAction::ToggleMark => lp.filter_state.toggle_mark(),
        LogViewerAction::Copy { raw } => {
            let text = match copy_text(lp, raw) {
                Some(t) => t,
                None => return (LogViewerOutcome::Continue, None),
            };
            if text.as_str().unicode_len() == 0 {
                return (LogViewerOutcome::Continue, None);
            }
            lp.filter_state.clear_marks();
            return (LogViewerOutcome::Continue, Some(text));
        },
        LogViewerAction::ResetView => reset_filter_and_columns(lp),
        LogViewerAction::Exit => {
            return if standalone_log_mode {
                (LogViewerOutcome::ExitApp, None)
            } else {
                (LogViewerOutcome::FocusSearch, None)
            };
        },
    }
    (LogViewerOutcome::Continue, None)
}

/// The viewer of a log stream that has shown nothing yet.
pub fn initialize_empty_stream(format: crate::log_types::LogFormat) -> (lp: LogPreview)
    ensures
        viewer_wf(lp),
        lp.log.entries@.len() == 0,
        lp.log.total_lines == 0,
        lp.log.all_fields@.len() == 0,
        lp.log.format == format,
        lp.filter_state.cached_matches@.len() == 0,
        lp.filter_state.visible_cols@.len() == 0,
        lp.filter_state.input@.len() == 0,
        lp.filter_state.filters@.len() == 0,
        !lp.filter_state.input_active,
        lp.filter_state.cursor == 0,
        lp.filter_state.scroll == 0,
        lp.filter_state.col_modal is None,
        !lp.filter_state.paused,
{
    let log = StructuredLog { entries: Vec::new(), total_lines: 0, all_fields: Vec::new(), format };
    preview_content(log, Vec::new())
}

/// The source `path` feeds the viewer showing the stream `active`: it is
/// that stream, or one of the log files.
pub open spec fn feeds(active: Option<Seq<char>>, log_files: Seq<Seq<char>>, path: Seq<char>) -> bool {
    match active {
        Some(a) => a == path || log_files.contains(path),
        None => false,
    }
}

/// Adds entries read from `path` to the viewer of the stream `active_path`
/// (see `append_entries`), when `path` feeds it; else nothing happens.
pub fn apply_append(
    active_path: Option<&str>,
    log_files: &[String],
    lp: &mut LogPreview,
    path: &str,
    entries: Vec<LogEntry>,
    times: Vec<Option<u64>>,
    max_entries: usize,
) -> (appended: bool)
    requires
        viewer_wf(*old(lp)),
        times@.len() == entries@.len(),
        old(lp).log.total_lines + entries@.len() <= usize::MAX,
    ensures
        viewer_wf(*final(lp)),
        appended == feeds(match active_path { Some(a) => Some(a@), None => None }, crate::config::strings_view(log_files@), path@),
        !appended ==> *final(lp) == *old(lp),
        appended ==> append_step(*old(lp), *final(lp), entries@, times@, max_entries),
{
    let active = match active_path {
        Some(a) => a,
        None => return false,
    };
    let mut valid = str_eq(path, active);
    let mut i: usize = 0;
    while i < log_files.len() && !valid
        invariant
            i <= log_files@.len(),
            valid ==> (path@ == active@ || crate::config::strings_view(log_files@).contains(path@)),
            !valid ==> path@ != active@ && forall|k: int| 0 <= k < i ==> log_files@[k]@ != path@,
        decreases log_files@.len() - i,
    {
        if str_eq(log_files[i].as_str(), path) {
            valid = true;
            proof {
                assert(crate::config::strings_view(log_files@)[i as int] == path@);
            }
        }
        i = i + 1;
    }
    proof {
        if !valid {
            let fv = crate::config::strings_view(log_files@);
            assert forall|k: int| 0 <= k < fv.len() implies fv[k] != path@ by {
                assert(fv[k] == log_files@[k]@);
            }
        }
    }
    if !valid {
        return false;
    }
    append_entries(lp, entries, times, max_entries);
    true
}

/// Following a log keeps its matches current: when a viewer's matches
/// are those of all its entries, after new entries are added they are
/// again those of all its entries.
pub proof fn lemma_append_keeps_matches(
    o: LogPreview,
    f: LogPreview,
    entries: Seq<LogEntry>,
    times: Seq<Option<u64>>,
    max_entries: usize,
)
    requires
        viewer_wf(o),
        times.len() == entries.len(),
        append_step(o, f, entries, times, max_entries),
        o.filter_state.cached_matches@ == matches_between(o.log, filters_view(o.filter_state.filters@), o.times@, 0,
            o.log.entries@.len() as int),
    ensures
        f.filter_state.cached_matches@ == matches_between(f.log, filters_view(f.filter_state.filters@), f.times@, 0,
            f.log.entries@.len() as int),
{
    if !o.filter_state.paused {
        let n = o.log.entries@.len() as int;
        let fl = filters_view(o.filter_state.filters@);
        let k = kept_count(entries.len() as int, n, max_entries as int);
        assert(f.log.entries@.len() == n + k);
        crate::log_query::lemma_matches_split(f.log, fl, f.times@, 0, n, f.log.entries@.len() as int);
        assert forall|i: int| 0 <= i < n implies #[trigger] f.log.entries@[i] == o.log.entries@[i] by {
            assert(f.log.entries@[i] == (o.log.entries@ + entries.take(k))[i]);
        }
        assert forall|i: int| 0 <= i < n implies #[trigger] f.times@[i] == o.times@[i] by {
            assert(f.times@[i] == (o.times@ + times.take(k))[i]);
        }
        crate::log_query::lemma_matches_prefix(f.log, f.times@, o.log, o.times@, fl, n);
    }
}

/// Field discovery: the names after adding `keys` are `names` followed by
/// each key they lacked, once; every key is among them, and names that
/// were all different stay all different.
pub proof fn lemma_with_new_names(names: Seq<Seq<char>>, keys: Seq<Seq<char>>)
    ensures
        names.is_prefix_of(with_new_names(names, keys)),
        forall|i: int| 0 <= i < keys.len() ==> with_new_names(names, keys).contains(#[trigger] keys[i]),
        forall|x: Seq<char>| with_new_names(names, keys).contains(x) ==> names.contains(x) || keys.contains(x),
        names.no_duplicates() ==> with_new_names(names, keys).no_duplicates(),
    decreases keys.len(),
{
    if keys.len() > 0 {
        let prev = with_new_names(names, keys.drop_last());
        lemma_with_new_names(names, keys.drop_last());
        let r = with_new_names(names, keys);
        assert forall|i: int| 0 <= i < keys.len() implies r.contains(#[trigger] keys[i]) by {
            if i < keys.len() - 1 {
                assert(keys.drop_last()[i] == keys[i]);
                assert(prev.contains(keys[i]));
                if !prev.contains(keys.last()) {
                    let j = choose|j: int| 0 <= j < prev.len() && prev[j] == keys[i];
                    assert(r[j] == keys[i]);
                }
            } else {
                if !prev.contains(keys.last()) {
                    assert(r[prev.len() as int] == keys.last());
                }
            }
        }
        assert forall|x: Seq<char>| r.contains(x) implies names.contains(x) || keys.contains(x) by {
            let j = choose|j: int| 0 <= j < r.len() && r[j] == x;
            if j < prev.len() {
                assert(prev[j] == x);
                assert(prev.contains(x));
                if keys.drop_last().contains(x) {
                    let q = choose|q: int| 0 <= q < keys.drop_last().len() && keys.drop_last()[q] == x;
                    assert(keys[q] == x);
                }
            } else {
                assert(x == keys.last());
                assert(keys[keys.len() - 1] == x);
            }
        }
        if !prev.contains(keys.last()) {
            assert(r.is_prefix_of(r));
            assert(names.is_prefix_of(r)) by {
                assert forall|i: int| 0 <= i < names.len() implies names[i] == r[i] by {
                    assert(names[i] == prev[i]);
                }
            }
            if names.no_duplicates() {
                assert forall|a: int, b: int| 0 <= a < r.len() && 0 <= b < r.len() && a != b implies r[a] != r[b] by {
                    if a < prev.len() && b < prev.len() {
                        assert(r[a] == prev[a] && r[b] == prev[b]);
                    } else if a < prev.len() {
                        assert(r[a] == prev[a]);
                    } else {
                        assert(r[b] == prev[b]);
                    }
                }
            }
        }
    } else {
        assert(names.is_prefix_of(names));
    }
}

/// Marking the entry under the cursor twice leaves the marks as they were.
pub proof fn lemma_toggle_mark_twice(a: LogPreview, b: LogPreview, c: LogPreview)
    requires
        mark_step(a, b),
        mark_step(b, c),
    ensures
        c.filter_state.marked@ == a.filter_state.marked@,
        c.filter_state.cursor == a.filter_state.cursor,
        c.filter_state.cached_matches == a.filter_state.cached_matches,
        c.log == a.log,
{
    let fa = a.filter_state;
    if fa.cursor < fa.cached_matches@.len() {
        let e = fa.cached_matches@[fa.cursor as int];
        if fa.marked@.contains(e) {
            assert(c.filter_state.marked@ =~= fa.marked@);
        } else {
            assert(c.filter_state.marked@ =~= fa.marked@);
        }
    }
}

/// Typing a char into the filter and deleting it gives the query back.
pub proof fn lemma_insert_then_backspace(a: LogPreview, b: LogPreview, c: LogPreview, ch: char)
    requires
        filter_step(a, b, FilterAction::Insert(ch)),
        filter_step(b, c, FilterAction::Backspace),
    ensures
        c.filter_state.input@ == a.filter_state.input@,
        c.log == a.log,
        c.filter_state.marked == a.filter_state.marked,
        c.filter_state.cursor == 0,
{
    assert(a.filter_state.input@.push(ch).drop_last() =~= a.filter_state.input@);
}

/// Whether an action stays within bounds (see `action_fits`); an action
/// for which this fails overflows.
pub fn action_in_bounds(lp: &LogPreview, action: LogViewerAction) -> (b: bool)
    ensures
        b == action_fits(*lp, action),
{
    let a = &lp.filter_state;
    match action {
        LogViewerAction::Filter(FilterAction::Insert(c)) => {
            let mut next = to_owned_string(a.input.as_str());
            crate::chars::push_char(&mut next, c);
            crate::log_query::query_in_bounds(next.as_str())
        },
        LogViewerAction::Filter(FilterAction::Backspace) => {
            let v = chars_of(a.input.as_str());
            if v.len() > 0 {
                let next = string_from_chars(v.as_slice(), 0, v.len() - 1);
                proof {
                    assert(v@.subrange(0, v@.len() - 1) =~= v@.drop_last());
                }
                crate::log_query::query_in_bounds(next.as_str())
            } else {
                crate::log_query::query_in_bounds(a.input.as_str())
            }
        },
        LogViewerAction::Cursor(CursorAction::Down(n)) => a.cursor.checked_add(n).is_some(),
        LogViewerAction::Column(ColumnAction::Resize(d)) => {
            if a.selected_col < a.visible_cols.len() {
                let w = a.visible_cols[a.selected_col].width as i32;
                w.checked_add(d).is_some()
            } else {
                true
            }
        },
        _ => true,
    }
}

} // verus!

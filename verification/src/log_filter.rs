//! Filtering, scrolling, columns and marks of the structured log viewer.
use vstd::prelude::*;
use crate::log_types::{ColModal, ColumnConfig, LogFilterState, cols_view};
use crate::chars::{str_eq, to_owned_string};

verus! {

broadcast use vstd::std_specs::hash::group_hash_axioms;

/// `a - b`, or 0 when `b` is larger.
pub open spec fn sat_sub(a: int, b: int) -> int {
    if a >= b { a - b } else { 0 }
}

/// The smaller of `a` and `b`.
pub open spec fn min(a: int, b: int) -> int {
    if a < b { a } else { b }
}

/// `b` shows the same rows (input, filters, matches, marks, cursor,
/// scroll, pause) as `a`.
pub open spec fn same_rows(a: &LogFilterState, b: &LogFilterState) -> bool {
    &&& b.input == a.input
    &&& b.filters == a.filters
    &&& b.input_active == a.input_active
    &&& b.cursor == a.cursor
    &&& b.scroll == a.scroll
    &&& b.marked == a.marked
    &&& b.cached_matches == a.cached_matches
    &&& b.paused == a.paused
}

/// `b` shows the same columns (and picker) as `a`.
pub open spec fn same_columns(a: &LogFilterState, b: &LogFilterState) -> bool {
    &&& b.visible_cols == a.visible_cols
    &&& b.selected_col == a.selected_col
    &&& b.col_scroll == a.col_scroll
    &&& b.col_modal == a.col_modal
}

/// The field names of the columns.
pub open spec fn col_fields(v: Seq<ColumnConfig>) -> Seq<Seq<char>> {
    v.map_values(|c: ColumnConfig| c.field@)
}

/// The width of the last column showing field `f`, if any.
pub open spec fn width_of(v: Seq<(Seq<char>, usize)>, f: Seq<char>) -> Option<usize>
    decreases v.len(),
{
    if v.len() == 0 {
        None
    } else if v.last().0 == f {
        Some(v.last().1)
    } else {
        width_of(v.drop_last(), f)
    }
}

/// The columns the picker leaves: each ticked field in order, with its
/// current width or 15.
pub open spec fn picked_cols(fields: Seq<Seq<char>>, checked: Seq<bool>, cur: Seq<(Seq<char>, usize)>) -> Seq<(Seq<char>, usize)>
    decreases fields.len(),
{
    if fields.len() == 0 {
        seq![]
    } else {
        let i = fields.len() - 1;
        picked_cols(fields.drop_last(), checked, cur) + if i < checked.len() && checked[i] {
            seq![(fields[i], match width_of(cur, fields[i]) { Some(w) => w, None => 15usize })]
        } else {
            seq![]
        }
    }
}

impl LogFilterState {
    /// Moves the cursor `n` entries down (to the last match at most).
    pub fn scroll_down(&mut self, n: usize)
        requires
            old(self).cursor + n <= usize::MAX,
        ensures
            final(self).cursor == min(old(self).cursor + n, sat_sub(old(self).cached_matches@.len() as int, 1)),
            final(self).scroll == old(self).scroll,
            same_columns(old(self), final(self)),
            final(self).input == old(self).input,
            final(self).input_active == old(self).input_active,
            final(self).paused == old(self).paused,
            final(self).cached_matches == old(self).cached_matches,
            final(self).filters == old(self).filters,
            final(self).marked == old(self).marked,
    {
        let max = if self.cached_matches.len() > 0 { self.cached_matches.len() - 1 } else { 0 };
        let target = self.cursor + n;
        self.cursor = if target < max { target } else { max };
    }

    /// Moves the cursor `n` entries up (to the first at most).
    pub fn scroll_up(&mut self, n: usize)
        ensures
            final(self).cursor == sat_sub(old(self).cursor as int, n as int),
            final(self).scroll == old(self).scroll,
            same_columns(old(self), final(self)),
            final(self).input == old(self).input,
            final(self).input_active == old(self).input_active,
            final(self).paused == old(self).paused,
            final(self).cached_matches == old(self).cached_matches,
            final(self).filters == old(self).filters,
            final(self).marked == old(self).marked,
    {
        self.cursor = if self.cursor >= n { self.cursor - n } else { 0 };
    }

    /// Moves the cursor to the last (oldest) match.
    pub fn scroll_to_bottom(&mut self)
        ensures
            final(self).cursor == sat_sub(old(self).cached_matches@.len() as int, 1),
            final(self).scroll == old(self).scroll,
            same_columns(old(self), final(self)),
            final(self).input == old(self).input,
            final(self).input_active == old(self).input_active,
            final(self).paused == old(self).paused,
            final(self).cached_matches == old(self).cached_matches,
            final(self).filters == old(self).filters,
            final(self).marked == old(self).marked,
    {
        self.cursor = if self.cached_matches.len() > 0 { self.cached_matches.len() - 1 } else { 0 };
    }

    /// Selects the column on the left.
    pub fn move_col_left(&mut self)
        ensures
            final(self).selected_col == sat_sub(old(self).selected_col as int, 1),
            final(self).visible_cols == old(self).visible_cols,
            final(self).col_scroll == old(self).col_scroll,
            final(self).col_modal == old(self).col_modal,
            same_rows(old(self), final(self)),
    {
        self.selected_col = if self.selected_col > 0 { self.selected_col - 1 } else { 0 };
    }

    /// Selects the column on the right (the last at most).
    pub fn move_col_right(&mut self)
        requires
            old(self).visible_cols@.len() > 0 ==> old(self).selected_col < usize::MAX,
        ensures
            final(self).selected_col == (if old(self).visible_cols@.len() > 0 {
                min(old(self).selected_col + 1, old(self).visible_cols@.len() - 1)
            } else {
                old(self).selected_col as int
            }),
            final(self).visible_cols == old(self).visible_cols,
            final(self).col_scroll == old(self).col_scroll,
            final(self).col_modal == old(self).col_modal,
            same_rows(old(self), final(self)),
    {
        if self.visible_cols.len() > 0 {
            let target = self.selected_col + 1;
            self.selected_col = if target < self.visible_cols.len() - 1 { target } else { self.visible_cols.len() - 1 };
        }
    }

    /// Hides the selected column, unless it is the only one.
    pub fn hide_selected_col(&mut self)
        requires
            old(self).visible_cols@.len() > 1 ==> old(self).selected_col < old(self).visible_cols@.len(),
        ensures
            old(self).visible_cols@.len() <= 1 ==> same_columns(old(self), final(self)),
            old(self).visible_cols@.len() > 1 ==> {
                &&& final(self).visible_cols@ == old(self).visible_cols@.remove(old(self).selected_col as int)
                &&& final(self).selected_col == min(old(self).selected_col as int, old(self).visible_cols@.len() - 2)
                &&& final(self).col_scroll == old(self).col_scroll
                &&& final(self).col_modal == old(self).col_modal
            },
            same_rows(old(self), final(self)),
    {
        if self.visible_cols.len() <= 1 {
            return ;
        }
        self.visible_cols.remove(self.selected_col);
        let last = self.visible_cols.len() - 1;
        if self.selected_col > last {
            self.selected_col = last;
        }
    }

    /// Shows only the selected column.
    pub fn isolate_selected_col(&mut self)
        requires
            old(self).visible_cols@.len() > 0 ==> old(self).selected_col < old(self).visible_cols@.len(),
        ensures
            old(self).visible_cols@.len() == 0 ==> same_columns(old(self), final(self)),
            old(self).visible_cols@.len() > 0 ==> {
                &&& final(self).visible_cols@ == seq![old(self).visible_cols@[old(self).selected_col as int]]
                &&& final(self).selected_col == 0
                &&& final(self).col_scroll == 0
                &&& final(self).col_modal == old(self).col_modal
            },
            same_rows(old(self), final(self)),
    {
        if self.visible_cols.len() == 0 {
            return ;
        }
        let kept = self.visible_cols.remove(self.selected_col);
        self.visible_cols = vec![kept];
        self.selected_col = 0;
        self.col_scroll = 0;
    }

    /// Widens (or narrows) the selected column by `delta`, to 3 at least.
    pub fn resize_selected_col(&mut self, delta: i32)
        requires
            old(self).selected_col < old(self).visible_cols@.len() ==> i32::MIN <= (old(self).visible_cols@[old(self).selected_col as int].width as i32) + delta <= i32::MAX,
        ensures
            old(self).selected_col >= old(self).visible_cols@.len() ==> final(self).visible_cols == old(self).visible_cols,
            old(self).selected_col < old(self).visible_cols@.len() ==> {
                let c = old(self).visible_cols@[old(self).selected_col as int];
                let w = (c.width as i32) + delta;
                final(self).visible_cols@ == old(self).visible_cols@.update(
                    old(self).selected_col as int,
                    ColumnConfig { field: c.field, width: (if w > 3 { w } else { 3 }) as usize },
                )
            },
            final(self).selected_col == old(self).selected_col,
            final(self).col_scroll == old(self).col_scroll,
            final(self).col_modal == old(self).col_modal,
            same_rows(old(self), final(self)),
    {
        if self.selected_col < self.visible_cols.len() {
            let i = self.selected_col;
            let w = self.visible_cols[i].width as i32 + delta;
            let nw: i32 = if w > 3 { w } else { 3 };
            let field = self.visible_cols[i].field.clone();
            self.visible_cols.set(i, ColumnConfig { field, width: nw as usize });
        }
    }

    /// Opens the column picker, ticking the fields shown.
    pub fn open_col_modal(&mut self, all_fields: &[String])
        ensures
            final(self).col_modal is Some,
            final(self).col_modal->0.cursor == 0,
            final(self).col_modal->0.scroll == 0,
            final(self).col_modal->0.checked@.len() == all_fields@.len(),
            forall|i: int| 0 <= i < all_fields@.len() ==> #[trigger] final(self).col_modal->0.checked@[i]
                == col_fields(old(self).visible_cols@).contains(all_fields@[i]@),
            final(self).visible_cols == old(self).visible_cols,
            final(self).selected_col == old(self).selected_col,
            final(self).col_scroll == old(self).col_scroll,
            same_rows(old(self), final(self)),
    {
        let mut checked: Vec<bool> = Vec::new();
        let mut i: usize = 0;
        while i < all_fields.len()
            invariant
                i <= all_fields@.len(),
                checked@.len() == i,
                forall|k: int| 0 <= k < i ==> #[trigger] checked@[k] == col_fields(self.visible_cols@).contains(all_fields@[k]@),
            decreases all_fields.len() - i,
        {
            let mut found = false;
            let mut j: usize = 0;
            while j < self.visible_cols.len()
                invariant
                    j <= self.visible_cols@.len(),
                    i < all_fields@.len(),
                    found == exists|x: int| 0 <= x < j && self.visible_cols@[x].field@ == all_fields@[i as int]@,
                decreases self.visible_cols.len() - j,
            {
                if str_eq(self.visible_cols[j].field.as_str(), all_fields[i].as_str()) {
                    found = true;
                }
                j = j + 1;
            }
            proof {
                let cf = col_fields(self.visible_cols@);
                if found {
                    let x = choose|x: int| 0 <= x < self.visible_cols@.len() && self.visible_cols@[x].field@ == all_fields@[i as int]@;
                    assert(cf[x] == all_fields@[i as int]@);
                } else {
                    assert forall|x: int| 0 <= x < cf.len() implies cf[x] != all_fields@[i as int]@ by {
                        assert(cf[x] == self.visible_cols@[x].field@);
                    }
                }
            }
            checked.push(found);
            i = i + 1;
        }
        self.col_modal = Some(ColModal { cursor: 0, checked, scroll: 0 });
    }

    /// Adds a column for `field`, 15 wide, unless one shows it.
    pub fn add_new_visible_col(&mut self, field: &str)
        ensures
            col_fields(old(self).visible_cols@).contains(field@) ==> final(self).visible_cols == old(self).visible_cols,
            !col_fields(old(self).visible_cols@).contains(field@) ==> cols_view(final(self).visible_cols@)
                == cols_view(old(self).visible_cols@).push((field@, 15usize)),
            final(self).selected_col == old(self).selected_col,
            final(self).col_scroll == old(self).col_scroll,
            final(self).col_modal == old(self).col_modal,
            same_rows(old(self), final(self)),
    {
        let mut j: usize = 0;
        while j < self.visible_cols.len()
            invariant
                j <= self.visible_cols@.len(),
                forall|x: int| 0 <= x < j ==> self.visible_cols@[x].field@ != field@,
            decreases self.visible_cols.len() - j,
        {
            if str_eq(self.visible_cols[j].field.as_str(), field) {
                proof {
                    assert(col_fields(self.visible_cols@)[j as int] == field@);
                }
                return ;
            }
            j = j + 1;
        }
        proof {
            let cf = col_fields(self.visible_cols@);
            assert forall|x: int| 0 <= x < cf.len() implies cf[x] != field@ by {
                assert(cf[x] == self.visible_cols@[x].field@);
            }
        }
        let ghost before = self.visible_cols@;
        self.visible_cols.push(ColumnConfig { field: to_owned_string(field), width: 15 });
        proof {
            assert(cols_view(self.visible_cols@) =~= cols_view(before).push((field@, 15usize)));
        }
    }

    /// Marks the entry under the cursor, or unmarks it.
    pub fn toggle_mark(&mut self)
        ensures
            old(self).cursor < old(self).cached_matches@.len() ==> {
                let e = old(self).cached_matches@[old(self).cursor as int];
                final(self).marked@ == (if old(self).marked@.contains(e) {
                    old(self).marked@.remove(e)
                } else {
                    old(self).marked@.insert(e)
                })
            },
            old(self).cursor >= old(self).cached_matches@.len() ==> final(self).marked@ == old(self).marked@,
            same_columns(old(self), final(self)),
            final(self).input == old(self).input,
            final(self).input_active == old(self).input_active,
            final(self).paused == old(self).paused,
            final(self).scroll == old(self).scroll,
            final(self).cursor == old(self).cursor,
            final(self).cached_matches == old(self).cached_matches,
            final(self).filters == old(self).filters,
    {
        if self.cursor >= self.cached_matches.len() {
            return ;
        }
        let entry_idx = self.cached_matches[self.cursor];
        if !self.marked.remove(&entry_idx) {
            self.marked.insert(entry_idx);
        }
    }

    /// Unmarks every entry.
    pub fn clear_marks(&mut self)
        ensures
            final(self).marked@ == Set::<usize>::empty(),
            same_columns(old(self), final(self)),
            final(self).input == old(self).input,
            final(self).input_active == old(self).input_active,
            final(self).paused == old(self).paused,
            final(self).scroll == old(self).scroll,
            final(self).cursor == old(self).cursor,
            final(self).cached_matches == old(self).cached_matches,
            final(self).filters == old(self).filters,
    {
        self.marked.clear();
    }

    /// Keeps the cursor on a match and the scroll at or above it.
    pub(crate) fn clamp_cursor(&mut self)
        ensures
            final(self).cursor == min(old(self).cursor as int, sat_sub(old(self).cached_matches@.len() as int, 1)),
            final(self).scroll == min(old(self).scroll as int, final(self).cursor as int),
            same_columns(old(self), final(self)),
            final(self).cached_matches == old(self).cached_matches,
            final(self).filters == old(self).filters,
            final(self).marked == old(self).marked,
            final(self).input == old(self).input,
            final(self).input_active == old(self).input_active,
            final(self).paused == old(self).paused,
    {
        let max = if self.cached_matches.len() > 0 { self.cached_matches.len() - 1 } else { 0 };
        if self.cursor > max {
            self.cursor = max;
        }
        if self.scroll > self.cursor {
            self.scroll = self.cursor;
        }
    }
}

/// The width of the last column among `v[..j]` showing `f`, if any.
fn find_width(v: &Vec<ColumnConfig>, f: &str) -> (r: Option<usize>)
    ensures
        r == width_of(cols_view(v@), f@),
{
    let mut j = v.len();
    proof {
        assert(v@.take(v@.len() as int) =~= v@);
    }
    while j > 0
        invariant
            j <= v@.len(),
            width_of(cols_view(v@), f@) == width_of(cols_view(v@.take(j as int)), f@),
        decreases j,
    {
        proof {
            assert(cols_view(v@.take(j as int)).drop_last() =~= cols_view(v@.take(j - 1)));
        }
        if str_eq(v[j - 1].field.as_str(), f) {
            return Some(v[j - 1].width);
        }
        j = j - 1;
    }
    None
}

impl LogFilterState {
    /// Closes the column picker and shows the ticked fields (keeping their
    /// widths), unless none is ticked.
    pub fn apply_modal_changes(&mut self, all_fields: &[String])
        ensures
            old(self).col_modal is None ==> same_columns(old(self), final(self)),
            old(self).col_modal is Some ==> {
                let picked = picked_cols(
                    crate::config::strings_view(all_fields@),
                    old(self).col_modal->0.checked@,
                    cols_view(old(self).visible_cols@),
                );
                &&& final(self).col_modal is None
                &&& picked.len() == 0 ==> {
                    &&& final(self).visible_cols == old(self).visible_cols
                    &&& final(self).selected_col == old(self).selected_col
                    &&& final(self).col_scroll == old(self).col_scroll
                }
                &&& picked.len() > 0 ==> {
                    &&& cols_view(final(self).visible_cols@) == picked
                    &&& final(self).selected_col == min(old(self).selected_col as int, picked.len() - 1)
                    &&& final(self).col_scroll == min(old(self).col_scroll as int, final(self).selected_col as int)
                }
            },
            same_rows(old(self), final(self)),
    {
        let modal = match self.col_modal.take() {
            Some(m) => m,
            None => return ,
        };
        let ghost fields = crate::config::strings_view(all_fields@);
        let mut new_cols: Vec<ColumnConfig> = Vec::new();
        let mut i: usize = 0;
        while i < all_fields.len()
            invariant
                i <= all_fields@.len(),
                fields == crate::config::strings_view(all_fields@),
                cols_view(new_cols@) == picked_cols(fields.take(i as int), modal.checked@, cols_view(self.visible_cols@)),
            decreases all_fields.len() - i,
        {
            proof {
                assert(fields.take(i + 1).drop_last() =~= fields.take(i as int));
            }
            let ticked = i < modal.checked.len() && modal.checked[i];
            if ticked {
                let width = match find_width(&self.visible_cols, all_fields[i].as_str()) {
                    Some(w) => w,
                    None => 15,
                };
                let ghost before = new_cols@;
                new_cols.push(ColumnConfig { field: all_fields[i].clone(), width });
                proof {
                    assert(cols_view(new_cols@) =~= cols_view(before).push((all_fields@[i as int]@, width)));
                }
            }
            proof {
                assert(cols_view(new_cols@) =~= picked_cols(fields.take(i + 1), modal.checked@, cols_view(self.visible_cols@)));
            }
            i = i + 1;
        }
        proof {
            assert(fields.take(all_fields@.len() as int) =~= fields);
        }
        if new_cols.len() > 0 {
            let n = new_cols.len();
            self.visible_cols = new_cols;
            if self.selected_col > n - 1 {
                self.selected_col = n - 1;
            }
            if self.col_scroll > self.selected_col {
                self.col_scroll = self.selected_col;
            }
        }
    }
}

} // verus!

//! Marking search results and choosing what the search hands back: the
//! marked results in the order of their text, or else the selected one.
use vstd::prelude::*;
use crate::diff_mark::{copy_item, diff_mark_refusal, items_equal, marked_index, same_item, toggle_diff_mark};
use crate::chars::{str_eq, to_owned_string};
use crate::log_format::{chars_lt, lemma_chars_lt_order, str_lt};
use crate::search_types::{display_text_of, SearchItem, SearchResult};

verus! {

broadcast use vstd::seq_lib::group_to_multiset_ensures, vstd::multiset::group_multiset_axioms;

/// The index of the first marked result that is `item`, if any.
pub open spec fn mark_index(marked: Seq<(SearchItem, Option<usize>)>, item: SearchItem) -> Option<int> {
    if exists|k: int| 0 <= k < marked.len() && same_item(marked[k].0, item) {
        Some(choose|k: int| 0 <= k < marked.len() && same_item(marked[k].0, item)
            && forall|j: int| 0 <= j < k ==> !same_item(marked[j].0, item))
    } else {
        None
    }
}

/// Marks `item` (with its column) for output, or unmarks it when it is
/// marked.
pub fn toggle_mark(marked: &mut Vec<(SearchItem, Option<usize>)>, item: &SearchItem, column: Option<usize>)
    ensures
        match mark_index(old(marked)@, *item) {
            Some(k) => final(marked)@ == old(marked)@.remove(k),
            None => final(marked)@.len() == old(marked)@.len() + 1
                && final(marked)@.take(old(marked)@.len() as int) == old(marked)@
                && same_item(final(marked)@.last().0, *item) && final(marked)@.last().1 == column,
        },
{
    let mut i: usize = 0;
    while i < marked.len()
        invariant
            i <= marked@.len(),
            marked@ == old(marked)@,
            forall|j: int| 0 <= j < i ==> !same_item(marked@[j].0, *item),
        decreases marked@.len() - i,
    {
        if items_equal(&marked[i].0, item) {
            proof {
                let k = choose|k: int| 0 <= k < marked@.len() && same_item(marked@[k].0, *item)
                    && forall|j: int| 0 <= j < k ==> !same_item(marked@[j].0, *item);
                assert(0 <= i < marked@.len() && same_item(marked@[i as int].0, *item)
                    && forall|j: int| 0 <= j < i ==> !same_item(marked@[j].0, *item));
                assert(k == i);
            }
            marked.remove(i);
            return;
        }
        i = i + 1;
    }
    let c = copy_item(item);
    marked.push((c, column));
    proof {
        assert(marked@.take(old(marked)@.len() as int) =~= old(marked)@);
    }
}

/// The marked results are in the order of their text.
pub open spec fn sorted_by_text(s: Seq<(SearchItem, Option<usize>)>) -> bool {
    forall|i: int, j: int| 0 <= i < j < s.len() ==> !chars_lt(display_text_of(#[trigger] s[j].0), display_text_of(#[trigger] s[i].0))
}

/// The marked results ordered by their text (equal texts in any order).
pub fn sort_marked(marked: Vec<(SearchItem, Option<usize>)>) -> (r: Vec<(SearchItem, Option<usize>)>)
    ensures
        r@.to_multiset() == marked@.to_multiset(),
        sorted_by_text(r@),
{
    let ghost orig = marked@;
    let mut rest = marked;
    let mut out: Vec<(SearchItem, Option<usize>)> = Vec::new();
    while rest.len() > 0
        invariant
            out@.to_multiset().add(rest@.to_multiset()) == orig.to_multiset(),
            sorted_by_text(out@),
        decreases rest@.len(),
    {
        let ghost before_rest = rest@;
        let x = rest.pop().unwrap();
        proof {
            assert(before_rest == rest@.push(x));
        }
        let key = x.0.display_text();
        let mut pos: usize = 0;
        let mut found = false;
        while pos < out.len() && !found
            invariant
                pos <= out@.len(),
                key@ == display_text_of(x.0),
                found ==> pos < out@.len() && chars_lt(key@, display_text_of(out@[pos as int].0)),
                forall|k: int| 0 <= k < pos ==> !chars_lt(key@, display_text_of(#[trigger] out@[k].0)),
            decreases out@.len() - pos + (if found { 0int } else { 1int }),
        {
            let t = out[pos].0.display_text();
            if str_lt(key.as_str(), t.as_str()) {
                found = true;
            } else {
                pos = pos + 1;
            }
        }
        let ghost before = out@;
        out.insert(pos, x);
        proof {
            assert(out@ == before.insert(pos as int, x));
            assert(out@.to_multiset().add(rest@.to_multiset()) =~= orig.to_multiset());
            assert forall|i: int, j: int| 0 <= i < j < out@.len() implies
                !chars_lt(display_text_of(#[trigger] out@[j].0), display_text_of(#[trigger] out@[i].0)) by {
                let dk = key@;
                if i < pos && j < pos {
                    assert(out@[i] == before[i] && out@[j] == before[j]);
                } else if i < pos && j == pos {
                    assert(out@[i] == before[i]);
                } else if i < pos && j > pos {
                    assert(out@[i] == before[i] && out@[j] == before[j - 1]);
                } else if i == pos {
                    assert(out@[j] == before[j - 1]);
                    let dj = display_text_of(before[j - 1].0);
                    if chars_lt(dj, dk) {
                        let dp = display_text_of(before[pos as int].0);
                        lemma_chars_lt_order(dj, dk, dp);
                        if j - 1 > pos {
                            assert(!chars_lt(dj, dp));
                        }
                        lemma_chars_lt_order(dj, dj, dj);
                    }
                } else {
                    assert(out@[i] == before[i - 1] && out@[j] == before[j - 1]);
                }
            }
        }
    }
    proof {
        assert(rest@.to_multiset() =~= vstd::multiset::Multiset::empty());
        assert(out@.to_multiset().add(vstd::multiset::Multiset::empty()) =~= out@.to_multiset());
    }
    out
}

/// What the search hands back: with no marks, the selected result (when
/// there is one) with its column; else the marked results in the order of
/// their text.
pub fn selection_output(results: &[SearchResult], selection: usize, marked: Vec<(SearchItem, Option<usize>)>)
    -> (r: Vec<(SearchItem, Option<usize>)>)
    ensures
        marked@.len() == 0 && selection < results@.len() ==> r@.len() == 1
            && same_item(r@[0].0, results@[selection as int].item) && r@[0].1 == results@[selection as int].column,
        marked@.len() == 0 && selection >= results@.len() ==> r@.len() == 0,
        marked@.len() > 0 ==> r@.to_multiset() == marked@.to_multiset() && sorted_by_text(r@),
{
    if marked.len() == 0 {
        let mut out: Vec<(SearchItem, Option<usize>)> = Vec::new();
        if selection < results.len() {
            let item = copy_item(&results[selection].item);
            out.push((item, results[selection].column));
        }
        out
    } else {
        sort_marked(marked)
    }
}

/// What the search list holds: the results, the selected one, the results
/// marked for output and those marked for a diff, and the query.
pub struct SearchState {
    pub results: Vec<SearchResult>,
    pub selection: usize,
    pub marked: Vec<(SearchItem, Option<usize>)>,
    pub diff_marked: Vec<SearchItem>,
    pub query: String,
}

/// What the search input made of a key that is not a mark key.
#[derive(Debug, Clone, Copy, PartialEq, Eq, Structural)]
pub enum SearchInput {
    QueryChanged,
    ListUp(usize),
    ListDown(usize),
    Select,
    Quit,
    Nothing,
}

/// A key press in the search list: the mark key, the diff-mark key, or
/// another key, as the search input read it.
#[derive(Debug, Clone, Copy, PartialEq, Eq, Structural)]
pub enum SearchKey {
    MarkResult,
    MarkDiffResult,
    Input(SearchInput),
}

/// What the caller does after a key in the search list.
pub enum SearchStepAction {
    /// Nothing.
    Ignore,
    /// Move the selection to the next result and bring the preview in step.
    Advance,
    /// Show why the result cannot be marked for a diff.
    Refused(String),
    /// The query changed: send it to the matcher (the selection went back
    /// to the top).
    SendQuery(String),
    /// Move the selection up this many times and bring the preview in step.
    MoveUp(usize),
    /// Move the selection down this many times and bring the preview in
    /// step.
    MoveDown(usize),
    /// Hand these results back and quit.
    Select(Vec<(SearchItem, Option<usize>)>),
    /// Quit.
    Quit,
}

/// A copy of the marks.
fn copy_marks(marked: &Vec<(SearchItem, Option<usize>)>) -> (r: Vec<(SearchItem, Option<usize>)>)
    ensures
        r@.len() == marked@.len(),
        forall|k: int| 0 <= k < r@.len() ==> same_item((#[trigger] r@[k]).0, marked@[k].0) && r@[k].1 == marked@[k].1,
{
    let mut r: Vec<(SearchItem, Option<usize>)> = Vec::new();
    let mut i: usize = 0;
    while i < marked.len()
        invariant
            i <= marked@.len(),
            r@.len() == i,
            forall|k: int| 0 <= k < i ==> same_item((#[trigger] r@[k]).0, marked@[k].0) && r@[k].1 == marked@[k].1,
        decreases marked@.len() - i,
    {
        r.push((copy_item(&marked[i].0), marked[i].1));
        i = i + 1;
    }
    r
}

/// One key in the search list. The mark key marks or unmarks the selected
/// result (when there is one) and moves on; the diff-mark key does the
/// same for a diff, unless the result cannot be marked, and then says why;
/// a changed query (against `old_query`) goes back to the top and is sent;
/// the other keys become the caller's moves, selection or quitting.
pub fn search_key_step(st: &mut SearchState, key: SearchKey, old_query: &str) -> (r: SearchStepAction)
    ensures
        final(st).results@ == old(st).results@,
        final(st).query@ == old(st).query@,
        match key {
            SearchKey::MarkResult => if old(st).selection < old(st).results@.len() {
                let item = old(st).results@[old(st).selection as int].item;
                &&& r is Advance
                &&& final(st).selection == old(st).selection
                &&& final(st).diff_marked@ == old(st).diff_marked@
                &&& match mark_index(old(st).marked@, item) {
                    Some(k) => final(st).marked@ == old(st).marked@.remove(k),
                    None => final(st).marked@.len() == old(st).marked@.len() + 1
                        && final(st).marked@.take(old(st).marked@.len() as int) == old(st).marked@
                        && same_item(final(st).marked@.last().0, item)
                        && final(st).marked@.last().1 == old(st).results@[old(st).selection as int].column,
                }
            } else {
                r is Ignore && final(st).selection == old(st).selection && final(st).marked@ == old(st).marked@
                    && final(st).diff_marked@ == old(st).diff_marked@
            },
            SearchKey::MarkDiffResult => if old(st).selection < old(st).results@.len() {
                let item = old(st).results@[old(st).selection as int].item;
                &&& final(st).selection == old(st).selection
                &&& final(st).marked@ == old(st).marked@
                &&& match marked_index(old(st).diff_marked@, item) {
                    Some(k) => r is Advance && final(st).diff_marked@ == old(st).diff_marked@.remove(k),
                    None => match diff_mark_refusal(old(st).diff_marked@, item) {
                        Some(m) => (r matches SearchStepAction::Refused(t) && t@ == m)
                            && final(st).diff_marked@ == old(st).diff_marked@,
                        None => r is Advance && final(st).diff_marked@.len() == old(st).diff_marked@.len() + 1
                            && final(st).diff_marked@.take(old(st).diff_marked@.len() as int) == old(st).diff_marked@
                            && same_item(final(st).diff_marked@.last(), item),
                    },
                }
            } else {
                r is Ignore && final(st).selection == old(st).selection && final(st).marked@ == old(st).marked@
                    && final(st).diff_marked@ == old(st).diff_marked@
            },
            SearchKey::Input(input) => {
                &&& final(st).marked@ == old(st).marked@
                &&& final(st).diff_marked@ == old(st).diff_marked@
                &&& match input {
                    SearchInput::QueryChanged => if old(st).query@ != old_query@ {
                        (r matches SearchStepAction::SendQuery(q) && q@ == old(st).query@) && final(st).selection == 0
                    } else {
                        r is Ignore && final(st).selection == old(st).selection
                    },
                    SearchInput::ListUp(n) => (r matches SearchStepAction::MoveUp(m) && m == n) && final(st).selection == old(st).selection,
                    SearchInput::ListDown(n) => (r matches SearchStepAction::MoveDown(m) && m == n) && final(st).selection == old(st).selection,
                    SearchInput::Select => final(st).selection == old(st).selection && (r matches SearchStepAction::Select(out) && (
                        if old(st).marked@.len() == 0 {
                            if old(st).selection < old(st).results@.len() {
                                out@.len() == 1 && same_item(out@[0].0, old(st).results@[old(st).selection as int].item)
                                    && out@[0].1 == old(st).results@[old(st).selection as int].column
                            } else {
                                out@.len() == 0
                            }
                        } else {
                            out@.len() == old(st).marked@.len() && sorted_by_text(out@)
                        })),
                    SearchInput::Quit => r is Quit && final(st).selection == old(st).selection,
                    SearchInput::Nothing => r is Ignore && final(st).selection == old(st).selection,
                }
            },
        },
{
    match key {
        SearchKey::MarkResult => {
            if st.selection < st.results.len() {
                let sel = st.selection;
                let column = st.results[sel].column;
                toggle_mark(&mut st.marked, &st.results[sel].item, column);
                SearchStepAction::Advance
            } else {
                SearchStepAction::Ignore
            }
        },
        SearchKey::MarkDiffResult => {
            if st.selection < st.results.len() {
                let sel = st.selection;
                let refusal = toggle_diff_mark(&mut st.diff_marked, &st.results[sel].item);
                match refusal {
                    Some(m) => SearchStepAction::Refused(m),
                    None => SearchStepAction::Advance,
                }
            } else {
                SearchStepAction::Ignore
            }
        },
        SearchKey::Input(input) => match input {
            SearchInput::QueryChanged => {
                if !str_eq(st.query.as_str(), old_query) {
                    st.selection = 0;
                    SearchStepAction::SendQuery(to_owned_string(st.query.as_str()))
                } else {
                    SearchStepAction::Ignore
                }
            },
            SearchInput::ListUp(n) => SearchStepAction::MoveUp(n),
            SearchInput::ListDown(n) => SearchStepAction::MoveDown(n),
            SearchInput::Select => {
                let marks = copy_marks(&st.marked);
                let out = selection_output(st.results.as_slice(), st.selection, marks);
                proof {
                    if st.marked@.len() > 0 {
                        vstd::seq_lib::to_multiset_len(out@);
                        vstd::seq_lib::to_multiset_len(marks@);
                    }
                }
                SearchStepAction::Select(out)
            },
            SearchInput::Quit => SearchStepAction::Quit,
            SearchInput::Nothing => SearchStepAction::Ignore,
        },
    }
}

} // verus!

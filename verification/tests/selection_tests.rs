use binocular::search_types::{SearchItem, SearchResult};
use binocular::selection::{
    search_key_step, selection_output, sort_marked, toggle_mark, SearchInput, SearchKey, SearchState, SearchStepAction,
};

fn result(item: SearchItem, column: Option<usize>) -> SearchResult {
    SearchResult { item, indices: vec![], column }
}

#[test]
fn marks_toggle_on_and_off() {
    let mut marked = Vec::new();
    toggle_mark(&mut marked, &SearchItem::path("b"), None);
    toggle_mark(&mut marked, &SearchItem::grep("a", 3, "x"), Some(2));
    assert_eq!(marked.len(), 2);
    assert_eq!(marked[1], (SearchItem::grep("a", 3, "x"), Some(2)));
    toggle_mark(&mut marked, &SearchItem::path("b"), None);
    assert_eq!(marked, vec![(SearchItem::grep("a", 3, "x"), Some(2))]);
}

#[test]
fn output_is_the_selection_without_marks() {
    let results = vec![result(SearchItem::path("x"), None), result(SearchItem::grep("y", 1, "t"), Some(4))];
    assert_eq!(selection_output(&results, 1, Vec::new()), vec![(SearchItem::grep("y", 1, "t"), Some(4))]);
    assert!(selection_output(&results, 5, Vec::new()).is_empty());
}

#[test]
fn marked_output_is_ordered_by_text() {
    let results = vec![result(SearchItem::path("x"), None)];
    let marked = vec![
        (SearchItem::path("c.txt"), None),
        (SearchItem::grep("a.txt", 10, "hit"), Some(1)),
        (SearchItem::path("b.txt"), None),
    ];
    let out = selection_output(&results, 0, marked);
    let names: Vec<String> = out.iter().map(|(i, _)| i.display_text()).collect();
    assert_eq!(names, vec!["a.txt:10:hit".to_string(), "b.txt".to_string(), "c.txt".to_string()]);
    assert!(sort_marked(Vec::new()).is_empty());
}

fn state() -> SearchState {
    SearchState {
        results: vec![result(SearchItem::path("b.txt"), None), result(SearchItem::path("a.txt"), Some(3))],
        selection: 1,
        marked: Vec::new(),
        diff_marked: Vec::new(),
        query: "a".to_string(),
    }
}

#[test]
fn mark_keys_toggle_the_selected_result() {
    let mut st = state();
    assert!(matches!(search_key_step(&mut st, SearchKey::MarkResult, ""), SearchStepAction::Advance));
    assert_eq!(st.marked, vec![(SearchItem::path("a.txt"), Some(3))]);
    assert!(matches!(search_key_step(&mut st, SearchKey::MarkResult, ""), SearchStepAction::Advance));
    assert!(st.marked.is_empty());
    assert!(matches!(search_key_step(&mut st, SearchKey::MarkDiffResult, ""), SearchStepAction::Advance));
    assert_eq!(st.diff_marked, vec![SearchItem::path("a.txt")]);
    st.diff_marked = vec![SearchItem::path("x"), SearchItem::path("y")];
    match search_key_step(&mut st, SearchKey::MarkDiffResult, "") {
        SearchStepAction::Refused(m) => assert_eq!(m, "Diff mode allows marking at most two files"),
        _ => panic!("expected a refusal"),
    }
    assert_eq!(st.diff_marked.len(), 2);
    st.selection = 9;
    assert!(matches!(search_key_step(&mut st, SearchKey::MarkResult, ""), SearchStepAction::Ignore));
}

#[test]
fn other_keys_become_moves_queries_and_selections() {
    let mut st = state();
    match search_key_step(&mut st, SearchKey::Input(SearchInput::QueryChanged), "") {
        SearchStepAction::SendQuery(q) => assert_eq!(q, "a"),
        _ => panic!("expected the query"),
    }
    assert_eq!(st.selection, 0);
    st.selection = 1;
    assert!(matches!(search_key_step(&mut st, SearchKey::Input(SearchInput::QueryChanged), "a"), SearchStepAction::Ignore));
    assert_eq!(st.selection, 1);
    assert!(matches!(search_key_step(&mut st, SearchKey::Input(SearchInput::ListDown(2)), ""), SearchStepAction::MoveDown(2)));
    assert!(matches!(search_key_step(&mut st, SearchKey::Input(SearchInput::ListUp(1)), ""), SearchStepAction::MoveUp(1)));
    assert!(matches!(search_key_step(&mut st, SearchKey::Input(SearchInput::Quit), ""), SearchStepAction::Quit));
    match search_key_step(&mut st, SearchKey::Input(SearchInput::Select), "") {
        SearchStepAction::Select(out) => assert_eq!(out, vec![(SearchItem::path("a.txt"), Some(3))]),
        _ => panic!("expected a selection"),
    }
    st.marked = vec![(SearchItem::path("z"), None), (SearchItem::path("c"), Some(1))];
    match search_key_step(&mut st, SearchKey::Input(SearchInput::Select), "") {
        SearchStepAction::Select(out) => assert_eq!(out, vec![(SearchItem::path("c"), Some(1)), (SearchItem::path("z"), None)]),
        _ => panic!("expected a selection"),
    }
}

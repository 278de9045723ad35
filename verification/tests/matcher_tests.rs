use binocular::matcher::{
    build_results, compute_indices, indices_in, ExactMatcher, MatcherCommand, QueryFinders,
};
use binocular::search_types::SearchItem;

#[test]
fn query_words_are_lower_cased() {
    let f = QueryFinders::new("  Foo BAR ");
    assert_eq!(f.tokens, vec!["foo", "bar"]);
    assert_eq!(f.token_char_lens, vec![3, 3]);
    assert!(!f.is_empty());
    assert!(QueryFinders::new("   ").is_empty());
    let hay: Vec<char> = "the bar of foo".chars().collect();
    assert!(f.matches(&hay));
    let hay: Vec<char> = "foo only".chars().collect();
    assert!(!f.matches(&hay));
}

#[test]
fn indices_cover_each_occurrence_once() {
    let hay: Vec<char> = "abcabc".chars().collect();
    assert_eq!(indices_in(&hay, &["bc".to_string(), "c".to_string()]), vec![1, 2, 4, 5]);
    let hay: Vec<char> = "aaaa".chars().collect();
    assert_eq!(indices_in(&hay, &["aa".to_string()]), vec![0, 1, 2, 3]);
    assert_eq!(indices_in(&hay, &["".to_string()]), Vec::<u32>::new());
    assert_eq!(indices_in(&hay, &["b".to_string()]), Vec::<u32>::new());
}

#[test]
fn compute_indices_lower_cases_the_text() {
    let f = QueryFinders::new("MAIN");
    assert_eq!(compute_indices("src/Main.rs", &f), vec![4, 5, 6, 7]);
}

#[test]
fn results_carry_indices_and_columns() {
    let items = vec![SearchItem::path("alpha"), SearchItem::grep("a.rs", 2, "beta x")];
    let f = QueryFinders::new("beta");
    let results = build_results(&items, &[1, 0], &f, true, 1);
    assert_eq!(results.len(), 1);
    assert_eq!(results[0].item, items[1]);
    assert_eq!(results[0].indices, vec![7, 8, 9, 10]);
    assert_eq!(results[0].column, Some(1));
    let empty = QueryFinders::new("");
    let results = build_results(&items, &[0, 1], &empty, false, 10);
    assert_eq!(results.len(), 2);
    assert!(results[0].indices.is_empty());
    assert_eq!(results[0].column, None);
}

#[test]
fn matcher_filters_incrementally_and_on_new_queries() {
    let mut m = ExactMatcher::new(false, false, "a".to_string());
    let n = m.ingest(vec![SearchItem::path("abc"), SearchItem::path("xyz"), SearchItem::path("bar")]);
    assert_eq!(n, 3);
    assert_eq!(m.all_matches, vec![0, 2]);
    assert_eq!(m.apply_command(MatcherCommand::Query("a".to_string())), (false, false));
    assert_eq!(m.apply_command(MatcherCommand::Query("Y".to_string())), (true, false));
    m.clear_matches();
    m.refilter_range(0, 3);
    assert_eq!(m.all_matches, vec![1]);
    assert_eq!(m.apply_command(MatcherCommand::Resize(1)), (false, true));
    assert_eq!(m.apply_command(MatcherCommand::Resize(1)), (false, false));
    m.ingest(vec![SearchItem::path("yy")]);
    assert_eq!(m.all_matches, vec![1, 3]);
    let state = m.state(true);
    assert_eq!(state.total_matches, 2);
    assert_eq!(state.total_items, 4);
    assert!(state.working);
    assert_eq!(state.results.len(), 1);
    assert_eq!(state.results[0].indices, vec![1]);
}

#[test]
fn incremental_matches_equal_a_full_refilter() {
    let mut m = ExactMatcher::new(false, false, "o".to_string());
    m.ingest(vec![SearchItem::path("one"), SearchItem::path("two")]);
    m.ingest(vec![SearchItem::path("three"), SearchItem::path("four")]);
    let incremental = m.all_matches.clone();
    m.clear_matches();
    m.refilter_range(0, 2);
    m.refilter_range(2, 4);
    assert_eq!(m.all_matches, incremental);
    assert_eq!(incremental, vec![0, 1, 3]);
}

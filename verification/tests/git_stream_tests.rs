use binocular::git_stream::{
    branch_list_args, commit_list_args, history_lines, history_log_args, is_text_blob, parse_branch_line,
    parse_commit_line,
};
use binocular::search_control::{SearchController, SearchInputSource};
use binocular::search_types::{MatcherMode, SearchConfig, SearchItem, SearchMode, SearchSettings};
use binocular::matcher::MatcherCommand;

#[test]
fn branch_lines_become_branch_items() {
    let item = parse_branch_line("*\u{1e}main\u{1e}abc123\u{1e} fix things \u{1e}2 days ago").unwrap();
    assert_eq!(
        item,
        SearchItem::git_branch("main", "abc123", "fix things", true, "2 days ago")
    );
    let other = parse_branch_line(" \u{1e}dev\u{1e}def\u{1e}s\u{1e}now").unwrap();
    assert!(!other.git_branch_is_head());
    assert!(parse_branch_line("*\u{1e}  \u{1e}x").is_none());
    assert!(parse_branch_line("").is_none());
}

#[test]
fn commit_lines_keep_separators_in_the_last_field() {
    let item = parse_commit_line("h1\u{1e}h\u{1e}subject\u{1e}Ann\u{1e}3 hours ago\u{1e}HEAD -> main\u{1e}extra").unwrap();
    assert_eq!(
        item,
        SearchItem::git_commit("h1", "h", "subject", "Ann", "3 hours ago", "HEAD -> main\u{1e}extra")
    );
    let short = parse_commit_line("h2").unwrap();
    assert_eq!(short, SearchItem::git_commit("h2", "", "", "", "", ""));
    assert!(parse_commit_line(" \u{1e}x").is_none());
}

#[test]
fn history_lines_are_numbered_from_one() {
    let items = history_lines("c1", "dir\u{1f}a.rs", b"fn a() {}\r\n\nlast");
    assert_eq!(items.len(), 3);
    assert_eq!(items[0], SearchItem::history_line("c1", "dir\u{fffd}a.rs", 1, "fn a() {}"));
    assert_eq!(items[1], SearchItem::history_line("c1", "dir\u{fffd}a.rs", 2, ""));
    assert_eq!(items[2], SearchItem::history_line("c1", "dir\u{fffd}a.rs", 3, "last"));
    assert_eq!(history_lines("c", "p", b"one\n").len(), 1);
    assert!(history_lines("c", "p", b"").is_empty());
    assert!(is_text_blob(b"plain"));
    assert!(!is_text_blob(b"bin\0ary"));
}

#[test]
fn git_listing_arguments() {
    assert_eq!(history_log_args("a.rs"), vec!["log", "--format=%H", "--follow", "--", "a.rs"]);
    assert_eq!(branch_list_args()[0], "for-each-ref");
    assert_eq!(commit_list_args()[2], "--format=%H\u{1e}%h\u{1e}%s\u{1e}%an\u{1e}%ar\u{1e}%D");
}

fn config() -> SearchConfig {
    SearchConfig {
        query: None,
        locations: vec![],
        search_pdf: false,
        no_hidden: false,
        no_git_ignore: false,
        no_ignore: false,
        no_default_ignore_dirs: false,
        git_search_scope: None,
        settings: SearchSettings { mode: SearchMode::Path, matcher: MatcherMode::Fuzzy },
    }
}

#[test]
fn runs_get_new_epochs_and_old_results_are_dropped() {
    let mut c = SearchController::from_search_config(&config(), Some(vec!["a".to_string()]), true);
    assert!(matches!(c.source, SearchInputSource::Stdin(_)));
    assert!(c.accepts_epoch(0));
    assert_eq!(c.spawn_items(), Some(vec!["a".to_string()]));
    assert_eq!(c.restart(), 1);
    assert!(!c.accepts_epoch(0));
    assert!(c.accepts_epoch(1));
    assert!(c.query_command("").is_none());
    assert!(matches!(c.query_command("q"), Some(MatcherCommand::Query(q)) if q == "q"));
    c.shutdown();
    assert!(!c.accepts_epoch(1));
    assert!(c.query_command("q").is_none());
    let idle = SearchController::from_search_config(&config(), None, false);
    assert!(matches!(idle.source, SearchInputSource::Filesystem));
    assert_eq!(idle.next_epoch, 0);
}

#[test]
fn repeated_search_mode_toggles_restart_sessions() {
    let mut manager = SearchController::from_search_config(&config(), Some(vec!["alpha".to_string(), "beta".to_string()]), true);
    let mut settings = config().settings;
    let mut item_limit = 250u32;
    assert!(manager.accepts_epoch(0));

    settings.mode = SearchMode::Files;
    let mut restart = true;
    let r = manager.reconcile(&mut restart, &mut item_limit, "");
    assert_eq!(settings.mode, SearchMode::Files);
    assert_eq!(item_limit, 100);
    assert!(manager.accepts_epoch(1));
    assert!(matches!(r, Some((1, None))));
    assert!(!restart);

    settings.mode = SearchMode::Grep;
    restart = true;
    manager.reconcile(&mut restart, &mut item_limit, "q");
    assert_eq!(settings.mode, SearchMode::Grep);
    assert!(manager.accepts_epoch(2));
    assert!(!manager.accepts_epoch(1));

    assert!(manager.reconcile(&mut restart, &mut item_limit, "q").is_none());
    assert!(manager.accepts_epoch(2));
    manager.shutdown();
    assert!(!manager.accepts_epoch(2));
}

#[test]
fn exact_toggle_restarts_with_new_matcher_mode() {
    let mut manager = SearchController::from_search_config(&config(), Some(vec!["alpha".to_string()]), true);
    let mut settings = config().settings;
    let mut item_limit = 100u32;
    assert_eq!(settings.matcher, MatcherMode::Fuzzy);
    settings.matcher = settings.matcher.toggle();
    let mut restart = true;
    manager.reconcile(&mut restart, &mut item_limit, "");
    assert_eq!(settings.matcher, MatcherMode::Exact);
    assert!(manager.accepts_epoch(1));

    settings.matcher = settings.matcher.toggle();
    restart = true;
    let r = manager.reconcile(&mut restart, &mut item_limit, "al");
    assert_eq!(settings.matcher, MatcherMode::Fuzzy);
    assert!(manager.accepts_epoch(2));
    assert!(matches!(r, Some((2, Some(MatcherCommand::Query(q)))) if q == "al"));
    manager.shutdown();
}

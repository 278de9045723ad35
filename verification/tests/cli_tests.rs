use binocular::config::{Args, OutputFormat, RunConfig};
use binocular::git::{
    branch_preview_args, commit_preview_args, read_branch_preview, read_commit_preview, resolve_repo_scope,
    GitOutput, GitSearchMode,
};
use binocular::log_types::LogFormat;
use binocular::search_types::{MatcherMode, SearchConfig, SearchMode};
use binocular::startup::{
    detect_format_from_files, git_scope_request, headless_query, log_files_format,
    prepare_interactive_input_with_run_config, GitScopeRequest, ResolvedCli,
};

fn args() -> Args {
    Args {
        query: None,
        location: vec![],
        headless: false,
        output_format: OutputFormat::Plain,
        output_file: None,
        stdin: false,
        log: false,
        log_files: vec![],
        diff: None,
        preview: None,
        delimiter: ":".to_string(),
        split: None,
        content: false,
        dir_only: false,
        file_name: false,
        exact: false,
        search_pdf: false,
        no_hidden: false,
        no_git_ignore: false,
        no_ignore: false,
        no_default_ignore_dirs: false,
        git_history: None,
        git_branches: false,
        git_commits: false,
    }
}

fn run_config() -> RunConfig {
    RunConfig::from_args(&args())
}

#[test]
fn git_search_follows_the_command_line() {
    let mut a = args();
    a.location = vec!["repo".to_string()];
    a.git_branches = true;
    a.git_commits = true;
    match git_scope_request(&a) {
        GitScopeRequest::Repo(start, GitSearchMode::Branches) => assert_eq!(start.as_deref(), Some("repo")),
        _ => panic!("expected branches"),
    }
    a.git_history = Some("README.md".to_string());
    assert!(matches!(git_scope_request(&a), GitScopeRequest::History(p) if p == "README.md"));
    assert!(matches!(git_scope_request(&args()), GitScopeRequest::NoGit));
}

#[test]
fn resolved_cli_combines_run_and_search() {
    let mut a = args();
    a.exact = true;
    a.content = true;
    a.query = Some("needle".to_string());
    let scope = resolve_repo_scope("/repo".to_string(), GitSearchMode::Commits);
    let cli = ResolvedCli::from_args(&a, true, Some(scope));
    assert!(cli.run.stdin);
    assert_eq!(cli.search.settings.matcher, MatcherMode::Exact);
    assert_eq!(cli.search.settings.mode, SearchMode::Grep);
    assert_eq!(cli.search.query.as_deref(), Some("needle"));
    assert_eq!(cli.search.git_search_scope.unwrap().repo_root, "/repo");
}

#[test]
fn interactive_input_depends_on_the_mode() {
    let mut rc = run_config();
    rc.stdin = true;
    rc.split = Some(",".to_string());
    let p = prepare_interactive_input_with_run_config(&rc, vec!["a,b".to_string(), " ".to_string()]);
    assert_eq!(p.stdin_items, Some(vec!["a".to_string(), "b".to_string()]));
    assert!(!p.log_pipe);
    rc.log = true;
    let p = prepare_interactive_input_with_run_config(&rc, vec![]);
    assert!(p.log_pipe);
    assert!(p.stdin_items.is_none());
    rc.log_files = vec!["x.log".to_string()];
    let p = prepare_interactive_input_with_run_config(&rc, vec![]);
    assert_eq!(p.log_files, vec!["x.log".to_string()]);
    assert!(!p.log_pipe);
}

#[test]
fn log_files_format_comes_from_the_first_line() {
    let json = vec![Some(vec!["".to_string(), " {\"a\":1} ".to_string()])];
    assert_eq!(detect_format_from_files(&json), Some(LogFormat::Jsonl));
    let logfmt = vec![Some(vec![]), Some(vec!["a=1".to_string()])];
    assert_eq!(detect_format_from_files(&logfmt), Some(LogFormat::Logfmt));
    let unreadable = vec![None, Some(vec!["a=1".to_string()])];
    assert_eq!(detect_format_from_files(&unreadable), None);
    assert_eq!(log_files_format(&unreadable), LogFormat::Jsonl);
    assert_eq!(log_files_format(&[Some(vec!["42".to_string()])]), LogFormat::Jsonl);
}

#[test]
fn headless_query_is_trimmed() {
    let mut c = SearchConfig::from_args(&args());
    assert_eq!(headless_query(&c), None);
    c.query = Some("  ".to_string());
    assert_eq!(headless_query(&c), None);
    c.query = Some(" foo ".to_string());
    assert_eq!(headless_query(&c), Some("foo".to_string()));
}

#[test]
fn git_previews_read_output_or_explain_failure() {
    assert_eq!(branch_preview_args("main")[4], "--max-count=25");
    assert_eq!(commit_preview_args("abc")[5], "abc");
    let ok = GitOutput { success: true, stdout: b"commit abc\n".to_vec(), stderr: vec![] };
    assert_eq!(read_commit_preview("abc", &ok), Ok("commit abc\n".to_string()));
    let blank = GitOutput { success: true, stdout: b"  \n".to_vec(), stderr: vec![] };
    assert_eq!(read_branch_preview("main", &blank), Ok("No output".to_string()));
    let failed = GitOutput { success: false, stdout: vec![], stderr: b" fatal: bad ref \n".to_vec() };
    assert_eq!(
        read_branch_preview("x", &failed),
        Err("failed to read branch preview for x: fatal: bad ref".to_string())
    );
    let silent = GitOutput { success: false, stdout: vec![], stderr: vec![] };
    assert_eq!(
        read_commit_preview("y", &silent),
        Err("failed to read commit preview for y: unknown git error".to_string())
    );
}

#[test]
fn history_scope_is_relative_to_the_repository() {
    let scope = binocular::git::resolve_history_scope("src/main.rs", "/repo".to_string());
    assert_eq!(scope.repo_root, "/repo");
    match scope.mode {
        GitSearchMode::History { file } => assert_eq!(file, "src/main.rs"),
        _ => panic!("expected a history search"),
    }
    assert_eq!(scope.display_path.as_deref(), Some("src/main.rs"));
    let outside = binocular::git::resolve_history_scope("/elsewhere/a.txt", "/repo".to_string());
    assert_eq!(outside.display_path.as_deref(), Some("/elsewhere/a.txt"));
    let inside = binocular::git::resolve_history_scope("/repo/docs/a.md", "/repo".to_string());
    assert_eq!(inside.display_path.as_deref(), Some("docs/a.md"));
}

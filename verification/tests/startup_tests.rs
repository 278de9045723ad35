use binocular::config::{Args, OutputFormat, RunConfig};
use binocular::startup::{
    classify_input_mode_with_run_config, parse_stdin_items, prepare_headless_input_with_run_config,
    StartupMode,
};

fn run_config() -> RunConfig {
    RunConfig {
        headless: false,
        output_format: OutputFormat::Plain,
        stdin: false,
        log: false,
        log_files: vec![],
        diff: None,
        preview_command: None,
        preview_delimiter: ":".to_string(),
        split: None,
    }
}

#[test]
fn headless_mode_classification_is_stable() {
    let mut run_config = run_config();
    run_config.headless = true;
    run_config.stdin = true;
    assert_eq!(
        classify_input_mode_with_run_config(&run_config),
        StartupMode::Headless
    );
}

#[test]
fn piped_stdin_search_mode_classification_is_stable() {
    let mut run_config = run_config();
    run_config.stdin = true;
    assert_eq!(
        classify_input_mode_with_run_config(&run_config),
        StartupMode::InteractiveSearchPipe
    );
}

#[test]
fn piped_stdin_log_mode_classification_is_stable() {
    let mut run_config = run_config();
    run_config.stdin = true;
    run_config.log = true;
    assert_eq!(
        classify_input_mode_with_run_config(&run_config),
        StartupMode::InteractiveLogPipe
    );
}

#[test]
fn direct_diff_mode_classification_is_stable() {
    let mut run_config = run_config();
    run_config.diff = Some(["left.txt".into(), "right.txt".into()]);
    assert_eq!(
        classify_input_mode_with_run_config(&run_config),
        StartupMode::InteractiveDirectDiff
    );
}

#[test]
fn split_parsing_drops_empty_segments() {
    let items = parse_stdin_items(
        vec!["a,b,,c".to_string(), "  ".to_string(), "d".to_string()],
        Some(","),
    );
    assert_eq!(items, vec!["a", "b", "c", "d"]);
}

#[test]
fn log_files_select_log_file_mode() {
    let mut run_config = run_config();
    run_config.log = true;
    run_config.stdin = true;
    run_config.log_files = vec!["app.log".to_string()];
    assert_eq!(
        classify_input_mode_with_run_config(&run_config),
        StartupMode::InteractiveLogFile
    );
    assert_eq!(
        classify_input_mode_with_run_config(&self::run_config()),
        StartupMode::InteractiveTerminal
    );
}

#[test]
fn lines_without_split_keep_whole_lines() {
    let items = parse_stdin_items(
        vec!["a b".to_string(), "\t".to_string(), "".to_string(), "c".to_string()],
        None,
    );
    assert_eq!(items, vec!["a b", "c"]);
}

#[test]
fn multi_char_delimiter_splits_on_whole_delimiter() {
    let items = parse_stdin_items(vec!["x::y:z::".to_string()], Some("::"));
    assert_eq!(items, vec!["x", "y:z"]);
}

#[test]
fn empty_delimiter_yields_non_blank_chars() {
    let items = parse_stdin_items(vec!["a b".to_string()], Some(""));
    assert_eq!(items, vec!["a", "b"]);
}

#[test]
fn headless_input_only_when_piped() {
    let config = run_config();
    assert_eq!(
        prepare_headless_input_with_run_config(&config, vec!["a".to_string()]),
        None
    );
    let mut piped = run_config();
    piped.stdin = true;
    piped.split = Some(",".to_string());
    assert_eq!(
        prepare_headless_input_with_run_config(&piped, vec!["a,,b".to_string()]),
        Some(vec!["a".to_string(), "b".to_string()])
    );
}

fn args() -> Args {
    Args {
        query: Some("q".to_string()),
        location: vec!["src".to_string()],
        headless: true,
        output_format: OutputFormat::Plain,
        output_file: None,
        stdin: false,
        log: false,
        log_files: vec![],
        diff: Some(vec!["a".to_string(), "b".to_string()]),
        preview: Some("cat {}".to_string()),
        delimiter: ":".to_string(),
        split: None,
        content: false,
        dir_only: false,
        file_name: false,
        exact: false,
        search_pdf: false,
        no_hidden: false,
        no_git_ignore: false,
        no_ignore: false,
        no_default_ignore_dirs: false,
        git_history: None,
        git_branches: false,
        git_commits: false,
    }
}

#[test]
fn run_config_from_args_copies_the_command_line() {
    let config = RunConfig::from_args(&args());
    assert!(config.headless);
    assert_eq!(config.diff, Some(["a".to_string(), "b".to_string()]));
    assert!(config.has_preview_command());
    let piped = config.with_stdin(true);
    assert!(piped.stdin);
    assert_eq!(piped.preview_command, Some("cat {}".to_string()));

    let mut three = args();
    three.diff = Some(vec!["a".to_string(), "b".to_string(), "c".to_string()]);
    assert_eq!(RunConfig::from_args(&three).diff, None);
}

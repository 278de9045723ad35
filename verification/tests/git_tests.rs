use binocular::git::{
    if_empty_then, is_current_commit, repo_lookup_dir_from, sanitize_path_field,
    HISTORY_PATH_SEPARATOR,
};

#[test]
fn bare_filename_repo_lookup_uses_current_directory() {
    let repo_lookup_dir = |path: &str| repo_lookup_dir_from(path, std::path::Path::new(path).is_dir());
    assert_eq!(repo_lookup_dir("Architecture.md"), ".");
    assert_eq!(repo_lookup_dir("./Architecture.md"), ".");
}

#[test]
fn sanitize_path_field_replaces_internal_separator() {
    let sanitized = sanitize_path_field("dir\u{1f}file.txt");
    assert!(!sanitized.contains(HISTORY_PATH_SEPARATOR));
}

#[test]
fn sanitize_keeps_other_chars() {
    assert_eq!(sanitize_path_field("a\u{1f}b"), "a\u{fffd}b");
    assert_eq!(sanitize_path_field("plain/path.rs"), "plain/path.rs");
}

#[test]
fn head_is_the_current_commit() {
    assert!(is_current_commit("HEAD"));
    assert!(!is_current_commit("head"));
    assert!(!is_current_commit("abc123"));
}

#[test]
fn empty_value_falls_back() {
    assert_eq!(if_empty_then("", "not a git repository"), "not a git repository");
    assert_eq!(if_empty_then("fatal", "x"), "fatal");
}

#[test]
fn lookup_dir_of_nested_file_is_its_parent() {
    assert_eq!(repo_lookup_dir_from("src/main.rs", false), "src");
    assert_eq!(repo_lookup_dir_from("src", true), "src");
    assert_eq!(repo_lookup_dir_from("/", false), ".");
}

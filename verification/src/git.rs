//! Git search sources: the scope of a git search and the text fields of
//! git items.
use vstd::prelude::*;
use crate::chars::{chars_of, push_char, push_str, str_eq, to_owned_string};
use crate::config::strings_view;
use crate::search_types::{trim_str, trim_ws};

verus! {

/// Separates the fields of a history search item.
pub const HISTORY_PATH_SEPARATOR: char = '\u{1f}';

/// Stands in for the separator inside a path.
pub const HISTORY_PATH_REPLACEMENT: char = '\u{fffd}';

/// The ref of the checked-out commit.
pub const CURRENT_COMMIT_REF: &'static str = "HEAD";

/// What a git search lists.
#[derive(Debug, Clone, PartialEq, Eq)]
pub enum GitSearchMode {
    /// The lines of a file through its history.
    History { file: String },
    Branches,
    Commits,
}

/// A git search: the repository, what it lists, and the path to show.
#[derive(Debug, Clone, PartialEq, Eq)]
pub struct GitSearchScope {
    pub repo_root: String,
    pub mode: GitSearchMode,
    pub display_path: Option<String>,
}

/// `p` with every separator replaced.
pub open spec fn sanitized(p: Seq<char>) -> Seq<char> {
    p.map_values(|c: char| if c == HISTORY_PATH_SEPARATOR { HISTORY_PATH_REPLACEMENT } else { c })
}

/// A path with the field separator replaced, so that it cannot split a
/// history item.
pub fn sanitize_path_field(path: &str) -> (r: String)
    ensures
        r@ == sanitized(path@),
{
    let v = chars_of(path);
    let mut out = String::new();
    let mut i: usize = 0;
    while i < v.len()
        invariant
            v@ == path@,
            i <= v@.len(),
            out@ == sanitized(v@.take(i as int)),
        decreases v.len() - i,
    {
        let c = v[i];
        push_char(&mut out, if c == HISTORY_PATH_SEPARATOR { HISTORY_PATH_REPLACEMENT } else { c });
        proof {
            assert(sanitized(v@.take(i + 1)) =~= sanitized(v@.take(i as int)).push(
                if c == HISTORY_PATH_SEPARATOR { HISTORY_PATH_REPLACEMENT } else { c },
            ));
        }
        i = i + 1;
    }
    proof {
        assert(v@.take(v@.len() as int) =~= v@);
    }
    out
}

/// Whether `commit` names the checked-out commit.
pub fn is_current_commit(commit: &str) -> (b: bool)
    ensures
        b == (commit@ == CURRENT_COMMIT_REF@),
{
    str_eq(commit, CURRENT_COMMIT_REF)
}

/// `value`, or `fallback` when it is empty.
pub fn if_empty_then<'a>(value: &'a str, fallback: &'a str) -> (r: &'a str)
    ensures
        r@ == (if value@.len() == 0 { fallback@ } else { value@ }),
{
    if value.unicode_len() == 0 {
        fallback
    } else {
        value
    }
}

/// What `std::path::Path::parent` yields for the path `p`, as text.
pub uninterp spec fn spec_path_parent(p: Seq<char>) -> Option<Seq<char>>;

/// `std::path::Path::parent` of the path `path`. The contract names the
/// result and says no more: how a path splits into components is std's
/// business. The parent of a path given as text is text.
#[verifier::external_body]
fn path_parent(path: &str) -> (r: Option<String>)
    ensures
        match r {
            Some(p) => spec_path_parent(path@) == Some(p@),
            None => spec_path_parent(path@) is None,
        },
{
    std::path::Path::new(path).parent().and_then(|p| p.to_str()).map(|p| p.to_string())
}

/// The directory to run git in for `path`: the path itself when it is a
/// directory, else its parent, else the current directory.
pub open spec fn lookup_dir(path: Seq<char>, is_dir: bool) -> Seq<char> {
    if is_dir {
        path
    } else {
        match spec_path_parent(path) {
            Some(p) => if p.len() > 0 {
                p
            } else {
                "."@
            },
            None => "."@,
        }
    }
}

/// The directory to run git in for `path`, given whether `path` is a
/// directory.
pub fn repo_lookup_dir_from(path: &str, is_dir: bool) -> (r: String)
    ensures
        r@ == lookup_dir(path@, is_dir),
{
    if is_dir {
        return to_owned_string(path);
    }
    match path_parent(path) {
        Some(parent) => if parent.as_str().unicode_len() > 0 {
            parent
        } else {
            to_owned_string(".")
        },
        None => to_owned_string("."),
    }
}

/// A git search over the repository at `repo_root`.
pub fn resolve_repo_scope(repo_root: String, mode: GitSearchMode) -> (s: GitSearchScope)
    ensures
        s.repo_root@ == repo_root@,
        s.mode == mode,
        s.display_path is None,
{
    GitSearchScope { repo_root, mode, display_path: None }
}

/// The text a git search mode holds: its kind (0 history, 1 branches,
/// 2 commits) and the history file.
pub open spec fn mode_view(m: GitSearchMode) -> (int, Seq<char>) {
    match m {
        GitSearchMode::History { file } => (0, file@),
        GitSearchMode::Branches => (1, seq![]),
        GitSearchMode::Commits => (2, seq![]),
    }
}

/// The text a git scope holds.
pub open spec fn scope_view(s: GitSearchScope) -> (Seq<char>, (int, Seq<char>), Option<Seq<char>>) {
    (s.repo_root@, mode_view(s.mode), crate::config::opt_view(s.display_path))
}

/// The text an optional git scope holds.
pub open spec fn opt_scope_view(s: Option<GitSearchScope>) -> Option<(Seq<char>, (int, Seq<char>), Option<Seq<char>>)> {
    match s {
        Some(x) => Some(scope_view(x)),
        None => None,
    }
}

/// A copy of an optional git scope.
pub fn clone_scope(s: &Option<GitSearchScope>) -> (r: Option<GitSearchScope>)
    ensures
        opt_scope_view(r) == opt_scope_view(*s),
{
    match s {
        Some(x) => {
            let mode = match &x.mode {
                GitSearchMode::History { file } => GitSearchMode::History { file: file.clone() },
                GitSearchMode::Branches => GitSearchMode::Branches,
                GitSearchMode::Commits => GitSearchMode::Commits,
            };
            Some(
                GitSearchScope {
                    repo_root: x.repo_root.clone(),
                    mode,
                    display_path: crate::config::clone_opt(&x.display_path),
                },
            )
        },
        None => None,
    }
}

/// What a finished git command gave: whether it succeeded, and its output
/// and error output.
pub struct GitOutput {
    pub success: bool,
    pub stdout: Vec<u8>,
    pub stderr: Vec<u8>,
}

/// The text `String::from_utf8_lossy` makes of the bytes `b`.
pub uninterp spec fn spec_utf8_lossy(b: Seq<u8>) -> Seq<char>;

/// `String::from_utf8_lossy`: the bytes as text, each invalid sequence
/// replaced by U+FFFD. The contract names the result (`spec_utf8_lossy`),
/// a function of the bytes alone.
#[verifier::external_body]
pub(crate) fn utf8_lossy(b: &[u8]) -> (r: String)
    ensures
        r@ == spec_utf8_lossy(b@),
{
    String::from_utf8_lossy(b).into_owned()
}

/// The text of a git command's output: its output (`No output` when
/// blank) on success, else `context: ` and its error output trimmed (or
/// `unknown git error`).
pub open spec fn git_text_of(success: bool, stdout: Seq<u8>, stderr: Seq<u8>, context: Seq<char>) -> Result<Seq<char>, Seq<char>> {
    if success {
        let t = spec_utf8_lossy(stdout);
        Ok(if trim_ws(t).len() == 0 { "No output"@ } else { t })
    } else {
        let e = trim_ws(spec_utf8_lossy(stderr));
        Err(context + ": "@ + (if e.len() == 0 { "unknown git error"@ } else { e }))
    }
}

/// The result, as text.
pub open spec fn text_result_view(r: Result<String, String>) -> Result<Seq<char>, Seq<char>> {
    match r {
        Ok(t) => Ok(t@),
        Err(e) => Err(e@),
    }
}

fn git_text(output: &GitOutput, context: &str) -> (r: Result<String, String>)
    ensures
        text_result_view(r) == git_text_of(output.success, output.stdout@, output.stderr@, context@),
{
    if output.success {
        let t = utf8_lossy(output.stdout.as_slice());
        let trimmed = trim_str(t.as_str());
        if trimmed.as_str().unicode_len() == 0 {
            Ok(to_owned_string("No output"))
        } else {
            Ok(t)
        }
    } else {
        let e = trim_str(utf8_lossy(output.stderr.as_slice()).as_str());
        let mut msg = to_owned_string(context);
        push_str(&mut msg, ": ");
        push_str(&mut msg, if_empty_then(e.as_str(), "unknown git error"));
        Err(msg)
    }
}

/// The git arguments that show a branch: its last 25 commits, decorated,
/// with their file statistics, in colour.
pub fn branch_preview_args(branch: &str) -> (r: Vec<String>)
    ensures
        strings_view(r@) == seq!["log"@, "--color=always"@, "--decorate"@, "--stat"@, "--max-count=25"@, branch@],
{
    let r = vec![
        to_owned_string("log"),
        to_owned_string("--color=always"),
        to_owned_string("--decorate"),
        to_owned_string("--stat"),
        to_owned_string("--max-count=25"),
        to_owned_string(branch),
    ];
    proof {
        assert(strings_view(r@) =~= seq!["log"@, "--color=always"@, "--decorate"@, "--stat"@, "--max-count=25"@, branch@]);
    }
    r
}

/// The git arguments that show a commit: its statistics and patch,
/// decorated, in colour.
pub fn commit_preview_args(commit: &str) -> (r: Vec<String>)
    ensures
        strings_view(r@) == seq!["show"@, "--color=always"@, "--stat"@, "--patch"@, "--decorate"@, commit@],
{
    let r = vec![
        to_owned_string("show"),
        to_owned_string("--color=always"),
        to_owned_string("--stat"),
        to_owned_string("--patch"),
        to_owned_string("--decorate"),
        to_owned_string(commit),
    ];
    proof {
        assert(strings_view(r@) =~= seq!["show"@, "--color=always"@, "--stat"@, "--patch"@, "--decorate"@, commit@]);
    }
    r
}

/// The preview of a branch from the output of git run with
/// `branch_preview_args` (see `git_text_of`).
pub fn read_branch_preview(branch: &str, output: &GitOutput) -> (r: Result<String, String>)
    ensures
        text_result_view(r) == git_text_of(output.success, output.stdout@, output.stderr@,
            "failed to read branch preview for "@ + branch@),
{
    let mut context = to_owned_string("failed to read branch preview for ");
    push_str(&mut context, branch);
    git_text(output, context.as_str())
}

/// The preview of a commit from the output of git run with
/// `commit_preview_args` (see `git_text_of`).
pub fn read_commit_preview(commit: &str, output: &GitOutput) -> (r: Result<String, String>)
    ensures
        text_result_view(r) == git_text_of(output.success, output.stdout@, output.stderr@,
            "failed to read commit preview for "@ + commit@),
{
    let mut context = to_owned_string("failed to read commit preview for ");
    push_str(&mut context, commit);
    git_text(output, context.as_str())
}

/// Whether `std::path::Path::is_absolute` holds of the path `p`.
pub uninterp spec fn spec_path_is_absolute(p: Seq<char>) -> bool;

/// `std::path::Path::is_absolute`. The contract names the result; what
/// makes a path absolute is std's business.
#[verifier::external_body]
fn path_is_absolute(path: &str) -> (b: bool)
    ensures
        b == spec_path_is_absolute(path@),
{
    std::path::Path::new(path).is_absolute()
}

/// What `std::path::Path::join` makes of the paths `base` and `p`, as text.
pub uninterp spec fn spec_path_join(base: Seq<char>, p: Seq<char>) -> Seq<char>;

/// `std::path::Path::join`. The contract names the result; how paths
/// combine is std's business.
#[verifier::external_body]
fn path_join(base: &str, path: &str) -> (r: String)
    ensures
        r@ == spec_path_join(base@, path@),
{
    std::path::Path::new(base).join(path).to_string_lossy().into_owned()
}

/// What `std::path::Path::strip_prefix` leaves of the path `p` without the
/// leading `base`, as text, when `base` leads it.
pub uninterp spec fn spec_path_strip_prefix(p: Seq<char>, base: Seq<char>) -> Option<Seq<char>>;

/// `std::path::Path::strip_prefix`. The contract names the result; which
/// components match is std's business.
#[verifier::external_body]
fn path_strip_prefix(path: &str, base: &str) -> (r: Option<String>)
    ensures
        match r {
            Some(q) => spec_path_strip_prefix(path@, base@) == Some(q@),
            None => spec_path_strip_prefix(path@, base@) is None,
        },
{
    std::path::Path::new(path).strip_prefix(base).ok().map(|p| p.to_string_lossy().into_owned())
}

/// `p` with each backslash written as a slash.
pub open spec fn forward_slashes(p: Seq<char>) -> Seq<char>
    decreases p.len(),
{
    if p.len() == 0 {
        seq![]
    } else {
        forward_slashes(p.drop_last()) + seq![if p.last() == '\\' { '/' } else { p.last() }]
    }
}

/// The file a history search follows, relative to the repository at
/// `repo_root` when it lies in it: the path (`.` when empty) taken from the
/// repository's top unless absolute.
pub open spec fn history_file(path: Seq<char>, repo_root: Seq<char>) -> Seq<char> {
    let p = if path.len() == 0 { "."@ } else { path };
    let full = if spec_path_is_absolute(p) { p } else { spec_path_join(repo_root, p) };
    match spec_path_strip_prefix(full, repo_root) {
        Some(r) => r,
        None => full,
    }
}

/// The history search of the file `path` in the repository at
/// `repo_root`: the file relative to the repository, shown with slashes.
pub fn resolve_history_scope(path: &str, repo_root: String) -> (s: GitSearchScope)
    ensures
        s.repo_root@ == repo_root@,
        s.mode matches GitSearchMode::History { file } && file@ == history_file(path@, repo_root@),
        s.display_path matches Some(d) && d@ == forward_slashes(history_file(path@, repo_root@)),
{
    let p = if path.unicode_len() == 0 { to_owned_string(".") } else { to_owned_string(path) };
    let full = if path_is_absolute(p.as_str()) { p } else { path_join(repo_root.as_str(), p.as_str()) };
    let relative = match path_strip_prefix(full.as_str(), repo_root.as_str()) {
        Some(r) => r,
        None => full,
    };
    let v = chars_of(relative.as_str());
    let mut display = String::new();
    let mut i: usize = 0;
    while i < v.len()
        invariant
            i <= v@.len(),
            v@ == relative@,
            display@ == forward_slashes(v@.take(i as int)),
        decreases v@.len() - i,
    {
        proof {
            assert(v@.take(i + 1).drop_last() =~= v@.take(i as int));
        }
        push_char(&mut display, if v[i] == '\\' { '/' } else { v[i] });
        i = i + 1;
    }
    proof {
        assert(v@.take(v@.len() as int) =~= v@);
    }
    GitSearchScope { repo_root, mode: GitSearchMode::History { file: relative }, display_path: Some(display) }
}

} // verus!

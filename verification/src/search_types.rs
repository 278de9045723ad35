//! What a search looks for (mode, matcher, configuration) and the items it
//! finds, with the texts matched and shown for each.
use vstd::prelude::*;
use crate::chars::{decimal, push_str, to_owned_string, usize_to_string, is_ws, chars_of, push_char};
use crate::config::{Args, clone_opt, clone_strings, opt_view, strings_view};
use crate::git::{GitSearchScope, HISTORY_PATH_SEPARATOR, clone_scope, opt_scope_view};

verus! {

/// What a search lists.
#[derive(Debug, Clone, Copy, PartialEq, Eq, Structural)]
pub enum SearchMode {
    Path,
    Files,
    Grep,
    Dirs,
    GitHistory,
    GitBranches,
    GitCommits,
}

/// The search mode a command line asks for: git history, branches,
/// commits, content, directories, file names, else paths.
pub open spec fn mode_of(a: Args) -> SearchMode {
    if a.git_history is Some {
        SearchMode::GitHistory
    } else if a.git_branches {
        SearchMode::GitBranches
    } else if a.git_commits {
        SearchMode::GitCommits
    } else if a.content {
        SearchMode::Grep
    } else if a.dir_only {
        SearchMode::Dirs
    } else if a.file_name {
        SearchMode::Files
    } else {
        SearchMode::Path
    }
}

impl SearchMode {
    pub fn from_args(args: &Args) -> (m: Self)
        ensures
            m == mode_of(*args),
    {
        if args.git_history.is_some() {
            SearchMode::GitHistory
        } else if args.git_branches {
            SearchMode::GitBranches
        } else if args.git_commits {
            SearchMode::GitCommits
        } else if args.content {
            SearchMode::Grep
        } else if args.dir_only {
            SearchMode::Dirs
        } else if args.file_name {
            SearchMode::Files
        } else {
            SearchMode::Path
        }
    }

    /// The mode searches file contents.
    pub fn is_content(self) -> (b: bool)
        ensures
            b == (self == SearchMode::Grep || self == SearchMode::GitHistory),
    {
        self == SearchMode::Grep || self == SearchMode::GitHistory
    }

    pub fn is_dir_only(self) -> (b: bool)
        ensures
            b == (self == SearchMode::Dirs),
    {
        self == SearchMode::Dirs
    }

    pub fn is_file_name_only(self) -> (b: bool)
        ensures
            b == (self == SearchMode::Files),
    {
        self == SearchMode::Files
    }

    /// The label of the mode (`Stdin` for piped input).
    pub fn display_name(self, stdin: bool) -> (s: &'static str)
        ensures
            s@ == (if stdin {
                "Stdin"@
            } else {
                match self {
                    SearchMode::Path => "Path"@,
                    SearchMode::Files => "Files"@,
                    SearchMode::Grep => "Grep"@,
                    SearchMode::Dirs => "Dirs"@,
                    SearchMode::GitHistory => "History"@,
                    SearchMode::GitBranches => "Branches"@,
                    SearchMode::GitCommits => "Commits"@,
                }
            }),
    {
        if stdin {
            "Stdin"
        } else {
            match self {
                SearchMode::Path => "Path",
                SearchMode::Files => "Files",
                SearchMode::Grep => "Grep",
                SearchMode::Dirs => "Dirs",
                SearchMode::GitHistory => "History",
                SearchMode::GitBranches => "Branches",
                SearchMode::GitCommits => "Commits",
            }
        }
    }
}

/// How queries match items.
#[derive(Debug, Clone, Copy, PartialEq, Eq, Structural)]
pub enum MatcherMode {
    Fuzzy,
    Exact,
}

impl MatcherMode {
    pub fn from_args(args: &Args) -> (m: Self)
        ensures
            m == (if args.exact { MatcherMode::Exact } else { MatcherMode::Fuzzy }),
    {
        if args.exact {
            MatcherMode::Exact
        } else {
            MatcherMode::Fuzzy
        }
    }

    pub fn is_exact(self) -> (b: bool)
        ensures
            b == (self == MatcherMode::Exact),
    {
        self == MatcherMode::Exact
    }

    /// The other matcher.
    pub fn toggle(self) -> (m: Self)
        ensures
            m == (if self == MatcherMode::Fuzzy { MatcherMode::Exact } else { MatcherMode::Fuzzy }),
            m != self,
    {
        match self {
            MatcherMode::Fuzzy => MatcherMode::Exact,
            MatcherMode::Exact => MatcherMode::Fuzzy,
        }
    }

    pub fn display_name(self) -> (s: &'static str)
        ensures
            s@ == (if self == MatcherMode::Fuzzy { "Fuzzy"@ } else { "Exact"@ }),
    {
        match self {
            MatcherMode::Fuzzy => "Fuzzy",
            MatcherMode::Exact => "Exact",
        }
    }
}

/// Toggling the matcher twice gives it back.
pub proof fn lemma_toggle_twice(m: MatcherMode)
    ensures
        (if (if m == MatcherMode::Fuzzy { MatcherMode::Exact } else { MatcherMode::Fuzzy })
            == MatcherMode::Fuzzy {
            MatcherMode::Exact
        } else {
            MatcherMode::Fuzzy
        }) == m,
{
}

/// Mode and matcher of a search.
#[derive(Debug, Clone, Copy, PartialEq, Eq, Structural)]
pub struct SearchSettings {
    pub mode: SearchMode,
    pub matcher: MatcherMode,
}

impl SearchSettings {
    pub fn from_args(args: &Args) -> (s: Self)
        ensures
            s.mode == mode_of(*args),
            s.matcher == (if args.exact { MatcherMode::Exact } else { MatcherMode::Fuzzy }),
    {
        SearchSettings { mode: SearchMode::from_args(args), matcher: MatcherMode::from_args(args) }
    }
}

/// A search: query, where to look, what to skip, git scope, settings.
#[derive(Debug, Clone, PartialEq, Eq)]
pub struct SearchConfig {
    pub query: Option<String>,
    pub locations: Vec<String>,
    pub search_pdf: bool,
    pub no_hidden: bool,
    pub no_git_ignore: bool,
    pub no_ignore: bool,
    pub no_default_ignore_dirs: bool,
    pub git_search_scope: Option<GitSearchScope>,
    pub settings: SearchSettings,
}

/// `b` holds the query, locations and filters of `a`.
pub open spec fn same_search(b: SearchConfig, a: SearchConfig) -> bool {
    &&& opt_view(b.query) == opt_view(a.query)
    &&& strings_view(b.locations@) == strings_view(a.locations@)
    &&& b.search_pdf == a.search_pdf
    &&& b.no_hidden == a.no_hidden
    &&& b.no_git_ignore == a.no_git_ignore
    &&& b.no_ignore == a.no_ignore
    &&& b.no_default_ignore_dirs == a.no_default_ignore_dirs
}

fn clone_config_fields(c: &SearchConfig, settings: SearchSettings, scope: Option<GitSearchScope>) -> (r: SearchConfig)
    ensures
        same_search(r, *c),
        r.settings == settings,
        r.git_search_scope == scope,
{
    SearchConfig {
        query: clone_opt(&c.query),
        locations: clone_strings(&c.locations),
        search_pdf: c.search_pdf,
        no_hidden: c.no_hidden,
        no_git_ignore: c.no_git_ignore,
        no_ignore: c.no_ignore,
        no_default_ignore_dirs: c.no_default_ignore_dirs,
        git_search_scope: scope,
        settings,
    }
}

impl SearchConfig {
    /// The search a command line asks for (without a git scope, which is
    /// resolved against the repository).
    pub fn from_args(args: &Args) -> (c: Self)
        ensures
            opt_view(c.query) == opt_view(args.query),
            strings_view(c.locations@) == strings_view(args.location@),
            c.search_pdf == args.search_pdf,
            c.no_hidden == args.no_hidden,
            c.no_git_ignore == args.no_git_ignore,
            c.no_ignore == args.no_ignore,
            c.no_default_ignore_dirs == args.no_default_ignore_dirs,
            c.git_search_scope is None,
            c.settings.mode == mode_of(*args),
            c.settings.matcher == (if args.exact { MatcherMode::Exact } else { MatcherMode::Fuzzy }),
    {
        SearchConfig {
            query: clone_opt(&args.query),
            locations: clone_strings(&args.location),
            search_pdf: args.search_pdf,
            no_hidden: args.no_hidden,
            no_git_ignore: args.no_git_ignore,
            no_ignore: args.no_ignore,
            no_default_ignore_dirs: args.no_default_ignore_dirs,
            git_search_scope: None,
            settings: SearchSettings::from_args(args),
        }
    }

    /// The same search with other settings.
    pub fn with_settings(&self, settings: SearchSettings) -> (c: Self)
        ensures
            same_search(c, *self),
            c.settings == settings,
            opt_scope_view(c.git_search_scope) == opt_scope_view(self.git_search_scope),
    {
        let scope = clone_scope(&self.git_search_scope);
        clone_config_fields(self, settings, scope)
    }

    /// The same search with another git scope.
    pub fn with_git_search_scope(&self, git_search_scope: Option<GitSearchScope>) -> (c: Self)
        ensures
            same_search(c, *self),
            c.settings == self.settings,
            c.git_search_scope == git_search_scope,
    {
        clone_config_fields(self, self.settings, git_search_scope)
    }
}

/// An item a search found.
#[derive(Debug, Clone, PartialEq, Eq, Hash)]
pub enum SearchItem {
    Path(String),
    Grep { path: String, line: usize, text: String },
    GitHistory { commit: String, path: String, line: usize, text: String },
    GitBranch { branch: String, commit: String, subject: String, is_head: bool, relative_time: String },
    GitCommit { commit: String, short_commit: String, subject: String, author: String, date: String, refs: String },
    Stdin(String),
    Message(String),
}

/// `path:line:text`.
pub open spec fn located(path: Seq<char>, line: usize, text: Seq<char>) -> Seq<char> {
    path + ":"@ + decimal(line as nat) + ":"@ + text
}

/// What `std::path::Path::file_name` yields for the path `p`, as text.
pub uninterp spec fn spec_file_name(p: Seq<char>) -> Option<Seq<char>>;

/// `std::path::Path::file_name` of the path `path`. The contract names the
/// result and says no more: how a path splits into components is std's
/// business. The file name of a path given as text is text.
#[verifier::external_body]
fn path_file_name(path: &str) -> (r: Option<String>)
    ensures
        match r {
            Some(n) => spec_file_name(path@) == Some(n@),
            None => spec_file_name(path@) is None,
        },
{
    std::path::Path::new(path).file_name().and_then(|n| n.to_str()).map(|n| n.to_string())
}

/// The file name of `p`, or `p` itself when it has none.
pub open spec fn file_name_or_path(p: Seq<char>) -> Seq<char> {
    match spec_file_name(p) {
        Some(n) => n,
        None => p,
    }
}

/// `s` without leading and trailing white space (`str::trim`).
pub open spec fn trim_ws(s: Seq<char>) -> Seq<char>
    decreases s.len(),
{
    if s.len() > 0 && is_ws(s[0]) {
        trim_ws(s.drop_first())
    } else if s.len() > 0 && is_ws(s.last()) {
        trim_ws(s.drop_last())
    } else {
        s
    }
}

/// `a b`.
pub open spec fn spaced(a: Seq<char>, b: Seq<char>) -> Seq<char> {
    a + " "@ + b
}

/// The text a query is matched against.
pub open spec fn match_text_of(item: SearchItem, use_filename_only: bool) -> Seq<char> {
    match item {
        SearchItem::Path(path) => if use_filename_only { file_name_or_path(path@) } else { path@ },
        SearchItem::Grep { path, line, text } => if use_filename_only {
            file_name_or_path(path@)
        } else {
            located(path@, line, text@)
        },
        SearchItem::GitHistory { commit, path, line, text } => if use_filename_only {
            file_name_or_path(path@)
        } else {
            spaced(commit@, located(path@, line, text@))
        },
        SearchItem::GitBranch { branch, commit, subject, is_head, relative_time } =>
            (if is_head { "HEAD "@ } else { seq![] }) + spaced(spaced(spaced(branch@, commit@), subject@), relative_time@),
        SearchItem::GitCommit { short_commit, subject, author, date, refs, .. } =>
            spaced(spaced(spaced(spaced(short_commit@, refs@), subject@), date@), author@),
        SearchItem::Stdin(text) => text@,
        SearchItem::Message(text) => text@,
    }
}

/// The text an item is shown as.
pub open spec fn display_text_of(item: SearchItem) -> Seq<char> {
    match item {
        SearchItem::Path(path) => path@,
        SearchItem::Grep { path, line, text } => located(path@, line, text@),
        SearchItem::GitHistory { commit, path, line, text } => commit@ + ": "@ + located(path@, line, text@),
        SearchItem::GitBranch { branch, .. } => branch@,
        SearchItem::GitCommit { short_commit, subject, author, date, refs, .. } => {
            let r = trim_ws(refs@);
            if r.len() == 0 {
                "["@ + short_commit@ + "] - "@ + subject@ + " ("@ + date@ + ") <"@ + author@ + ">"@
            } else {
                "["@ + short_commit@ + "] - ("@ + r + ") "@ + subject@ + " ("@ + date@ + ") <"@ + author@ + ">"@
            }
        },
        SearchItem::Stdin(text) => text@,
        SearchItem::Message(text) => text@,
    }
}

/// A string of `path:line:text`.
fn located_string(path: &str, line: usize, text: &str) -> (r: String)
    ensures
        r@ == located(path@, line, text@),
{
    let mut r = to_owned_string(path);
    push_str(&mut r, ":");
    let n = usize_to_string(line);
    push_str(&mut r, n.as_str());
    push_str(&mut r, ":");
    push_str(&mut r, text);
    r
}

/// The file name of `path`, or `path` itself.
fn file_name_or(path: &str) -> (r: String)
    ensures
        r@ == file_name_or_path(path@),
{
    match path_file_name(path) {
        Some(n) => n,
        None => to_owned_string(path),
    }
}

/// `s` without leading and trailing white space.
pub fn trim_str(s: &str) -> (r: String)
    ensures
        r@ == trim_ws(s@),
{
    let v = chars_of(s);
    let mut lo: usize = 0;
    let mut hi: usize = v.len();
    proof {
        assert(v@.subrange(0, v@.len() as int) =~= v@);
    }
    while lo < hi && crate::chars::is_whitespace(v[lo])
        invariant
            lo <= hi <= v@.len(),
            hi == v@.len(),
            trim_ws(v@) == trim_ws(v@.subrange(lo as int, hi as int)),
        decreases hi - lo,
    {
        assert(v@.subrange(lo as int, hi as int).drop_first() =~= v@.subrange(lo + 1, hi as int));
        lo = lo + 1;
    }
    while lo < hi && crate::chars::is_whitespace(v[hi - 1])
        invariant
            lo <= hi <= v@.len(),
            lo == hi || !is_ws(v@[lo as int]),
            trim_ws(v@) == trim_ws(v@.subrange(lo as int, hi as int)),
        decreases hi - lo,
    {
        assert(v@.subrange(lo as int, hi as int).drop_last() =~= v@.subrange(lo as int, hi - 1));
        hi = hi - 1;
    }
    crate::chars::string_from_chars(v.as_slice(), lo, hi)
}

impl SearchItem {
    pub fn path(path: &str) -> (r: Self)
        ensures
            r matches SearchItem::Path(p) && p@ == path@,
    {
        SearchItem::Path(to_owned_string(path))
    }

    pub fn grep(path: &str, line: usize, text: &str) -> (r: Self)
        ensures
            r matches SearchItem::Grep { path: p, line: l, text: t } && p@ == path@ && l == line && t@ == text@,
    {
        SearchItem::Grep { path: to_owned_string(path), line, text: to_owned_string(text) }
    }

    pub fn stdin(text: &str) -> (r: Self)
        ensures
            r matches SearchItem::Stdin(t) && t@ == text@,
    {
        SearchItem::Stdin(to_owned_string(text))
    }

    pub fn history_line(commit: &str, path: &str, line: usize, text: &str) -> (r: Self)
        ensures
            r matches SearchItem::GitHistory { commit: c, path: p, line: l, text: t } && c@ == commit@
                && p@ == path@ && l == line && t@ == text@,
    {
        SearchItem::GitHistory {
            commit: to_owned_string(commit),
            path: to_owned_string(path),
            line,
            text: to_owned_string(text),
        }
    }

    /// An item reporting a failed history search.
    pub fn history_error(message: &str) -> (r: Self)
        ensures
            r matches SearchItem::Message(t) && t@ == message@,
    {
        SearchItem::Message(to_owned_string(message))
    }

    pub fn message(text: &str) -> (r: Self)
        ensures
            r matches SearchItem::Message(t) && t@ == text@,
    {
        SearchItem::Message(to_owned_string(text))
    }

    pub fn git_branch(branch: &str, commit: &str, subject: &str, is_head: bool, relative_time: &str) -> (r: Self)
        ensures
            r matches SearchItem::GitBranch { branch: b, commit: c, subject: s, is_head: h, relative_time: t }
                && b@ == branch@ && c@ == commit@ && s@ == subject@ && h == is_head && t@ == relative_time@,
    {
        SearchItem::GitBranch {
            branch: to_owned_string(branch),
            commit: to_owned_string(commit),
            subject: to_owned_string(subject),
            is_head,
            relative_time: to_owned_string(relative_time),
        }
    }

    pub fn git_commit(commit: &str, short_commit: &str, subject: &str, author: &str, date: &str, refs: &str) -> (r: Self)
        ensures
            r matches SearchItem::GitCommit { commit: c, short_commit: sc, subject: s, author: a, date: d, refs: f }
                && c@ == commit@ && sc@ == short_commit@ && s@ == subject@ && a@ == author@ && d@ == date@
                && f@ == refs@,
    {
        SearchItem::GitCommit {
            commit: to_owned_string(commit),
            short_commit: to_owned_string(short_commit),
            subject: to_owned_string(subject),
            author: to_owned_string(author),
            date: to_owned_string(date),
            refs: to_owned_string(refs),
        }
    }

    /// The text a query is matched against: for paths and content items
    /// with `use_filename_only`, the file name (or the whole path when it
    /// has none).
    pub fn match_text(&self, use_filename_only: bool) -> (r: String)
        ensures
            r@ == match_text_of(*self, use_filename_only),
    {
        match self {
            SearchItem::Path(path) => if use_filename_only {
                file_name_or(path.as_str())
            } else {
                path.clone()
            },
            SearchItem::Grep { path, line, text } => if use_filename_only {
                file_name_or(path.as_str())
            } else {
                located_string(path.as_str(), *line, text.as_str())
            },
            SearchItem::GitHistory { commit, path, line, text } => if use_filename_only {
                file_name_or(path.as_str())
            } else {
                let mut r = commit.clone();
                push_str(&mut r, " ");
                let l = located_string(path.as_str(), *line, text.as_str());
                push_str(&mut r, l.as_str());
                r
            },
            SearchItem::GitBranch { branch, commit, subject, is_head, relative_time } => {
                let mut r = String::new();
                if *is_head {
                    push_str(&mut r, "HEAD ");
                }
                push_str(&mut r, branch.as_str());
                push_str(&mut r, " ");
                push_str(&mut r, commit.as_str());
                push_str(&mut r, " ");
                push_str(&mut r, subject.as_str());
                push_str(&mut r, " ");
                push_str(&mut r, relative_time.as_str());
                proof {
                    assert(r@ =~= match_text_of(*self, use_filename_only));
                }
                r
            },
            SearchItem::GitCommit { short_commit, subject, author, date, refs, .. } => {
                let mut r = short_commit.clone();
                push_str(&mut r, " ");
                push_str(&mut r, refs.as_str());
                push_str(&mut r, " ");
                push_str(&mut r, subject.as_str());
                push_str(&mut r, " ");
                push_str(&mut r, date.as_str());
                push_str(&mut r, " ");
                push_str(&mut r, author.as_str());
                r
            },
            SearchItem::Stdin(text) => text.clone(),
            SearchItem::Message(text) => text.clone(),
        }
    }

    /// The text the item is shown as.
    pub fn display_text(&self) -> (r: String)
        ensures
            r@ == display_text_of(*self),
    {
        match self {
            SearchItem::Path(path) => path.clone(),
            SearchItem::Grep { path, line, text } => located_string(path.as_str(), *line, text.as_str()),
            SearchItem::GitHistory { commit, path, line, text } => {
                let mut r = commit.clone();
                push_str(&mut r, ": ");
                let l = located_string(path.as_str(), *line, text.as_str());
                push_str(&mut r, l.as_str());
                r
            },
            SearchItem::GitBranch { branch, .. } => branch.clone(),
            SearchItem::GitCommit { short_commit, subject, author, date, refs, .. } => {
                let refs_t = trim_str(refs.as_str());
                let mut r = to_owned_string("[");
                push_str(&mut r, short_commit.as_str());
                if refs_t.as_str().unicode_len() == 0 {
                    push_str(&mut r, "] - ");
                } else {
                    push_str(&mut r, "] - (");
                    push_str(&mut r, refs_t.as_str());
                    push_str(&mut r, ") ");
                }
                push_str(&mut r, subject.as_str());
                push_str(&mut r, " (");
                push_str(&mut r, date.as_str());
                push_str(&mut r, ") <");
                push_str(&mut r, author.as_str());
                push_str(&mut r, ">");
                r
            },
            SearchItem::Stdin(text) => text.clone(),
            SearchItem::Message(text) => text.clone(),
        }
    }

    /// The file to preview for the item.
    pub fn preview_path(&self) -> (r: Option<&str>)
        ensures
            match *self {
                SearchItem::Path(p) => r is Some && r->0@ == p@,
                SearchItem::Grep { path, .. } => r is Some && r->0@ == path@,
                SearchItem::GitHistory { path, .. } => r is Some && r->0@ == path@,
                _ => r is None,
            },
    {
        match self {
            SearchItem::Path(path) => Some(path.as_str()),
            SearchItem::Grep { path, .. } => Some(path.as_str()),
            SearchItem::GitHistory { path, .. } => Some(path.as_str()),
            _ => None,
        }
    }

    /// The line number of a content item.
    pub fn grep_line(&self) -> (r: Option<usize>)
        ensures
            r == (match *self {
                SearchItem::Grep { line, .. } => Some(line),
                SearchItem::GitHistory { line, .. } => Some(line),
                _ => None,
            }),
    {
        match self {
            SearchItem::Grep { line, .. } => Some(*line),
            SearchItem::GitHistory { line, .. } => Some(*line),
            _ => None,
        }
    }

    /// The commit of a history or commit item.
    pub fn git_history_commit(&self) -> (r: Option<&str>)
        ensures
            match *self {
                SearchItem::GitHistory { commit, .. } => r is Some && r->0@ == commit@,
                SearchItem::GitCommit { commit, .. } => r is Some && r->0@ == commit@,
                _ => r is None,
            },
    {
        match self {
            SearchItem::GitHistory { commit, .. } => Some(commit.as_str()),
            SearchItem::GitCommit { commit, .. } => Some(commit.as_str()),
            _ => None,
        }
    }

    /// The branch of a branch item.
    pub fn git_branch_name(&self) -> (r: Option<&str>)
        ensures
            match *self {
                SearchItem::GitBranch { branch, .. } => r is Some && r->0@ == branch@,
                _ => r is None,
            },
    {
        match self {
            SearchItem::GitBranch { branch, .. } => Some(branch.as_str()),
            _ => None,
        }
    }

    /// Whether the item is the checked-out branch.
    pub fn git_branch_is_head(&self) -> (b: bool)
        ensures
            b == (*self matches SearchItem::GitBranch { is_head: true, .. }),
    {
        match self {
            SearchItem::GitBranch { is_head, .. } => *is_head,
            _ => false,
        }
    }

    /// Whether the item is a content match (grep or history line).
    pub fn is_content_search_item(&self) -> (b: bool)
        ensures
            b == (*self is Grep || *self is GitHistory),
    {
        match self {
            SearchItem::Grep { .. } => true,
            SearchItem::GitHistory { .. } => true,
            _ => false,
        }
    }

    pub fn is_stdin(&self) -> (b: bool)
        ensures
            b == (*self is Stdin),
    {
        match self {
            SearchItem::Stdin(_) => true,
            _ => false,
        }
    }
}

/// A matched item: the item, the indices of the matched chars, and the
/// column of the first content match.
#[derive(Debug, Clone, PartialEq, Eq)]
pub struct SearchResult {
    pub item: SearchItem,
    pub indices: Vec<u32>,
    pub column: Option<usize>,
}

/// `p` with the history separator shown as `/`.
pub open spec fn slash_path(p: Seq<char>) -> Seq<char> {
    p.map_values(|c: char| if c == HISTORY_PATH_SEPARATOR { '/' } else { c })
}

/// The 1-based column, after a prefix of `p` chars, of the first match
/// index at or past the prefix.
pub open spec fn column_after_prefix(p: int, idx: Seq<u32>) -> Option<usize> {
    if exists|m: int| 0 <= m < idx.len() && idx[m] >= p {
        let m = choose|m: int| 0 <= m < idx.len() && idx[m] >= p && forall|x: int| 0 <= x < m ==> idx[x] < p;
        Some((idx[m] - p + 1) as usize)
    } else {
        None
    }
}

/// The column of the first content match of an item, from the indices of
/// the chars that matched its display text.
pub open spec fn content_column(item: SearchItem, idx: Seq<u32>) -> Option<usize> {
    match item {
        SearchItem::Grep { .. } => crate::text::grep_match_column(display_text_of(item), idx),
        SearchItem::GitHistory { commit, path, line, .. } => column_after_prefix(
            (commit@ + ": "@ + slash_path(path@) + ":"@ + decimal(line as nat) + ":"@).len() as int,
            idx,
        ),
        _ => None,
    }
}

impl SearchItem {
    /// The column of the first content match, from the indices of the chars
    /// that matched the display text (content items only).
    pub fn content_match_column(&self, match_indices: &[u32]) -> (r: Option<usize>)
        ensures
            r == content_column(*self, match_indices@),
    {
        match self {
            SearchItem::Grep { .. } => {
                let t = self.display_text();
                crate::text::find_first_match_column_in_grep_result(t.as_str(), match_indices)
            },
            SearchItem::GitHistory { commit, path, line, .. } => {
                let mut prefix = commit.clone();
                push_str(&mut prefix, ": ");
                let pv = chars_of(path.as_str());
                let mut i: usize = 0;
                let ghost base = prefix@;
                while i < pv.len()
                    invariant
                        pv@ == path@,
                        i <= pv@.len(),
                        prefix@ == base + slash_path(pv@.take(i as int)),
                    decreases pv.len() - i,
                {
                    let c = pv[i];
                    push_char(&mut prefix, if c == HISTORY_PATH_SEPARATOR { '/' } else { c });
                    proof {
                        assert(slash_path(pv@.take(i + 1)) =~= slash_path(pv@.take(i as int)).push(
                            if c == HISTORY_PATH_SEPARATOR { '/' } else { c },
                        ));
                    }
                    i = i + 1;
                }
                proof {
                    assert(pv@.take(pv@.len() as int) =~= pv@);
                }
                push_str(&mut prefix, ":");
                let n = usize_to_string(*line);
                push_str(&mut prefix, n.as_str());
                push_str(&mut prefix, ":");
                let plen = prefix.as_str().unicode_len();
                match crate::text::first_at_least(match_indices, plen) {
                    Some(m) => {
                        let ghost p = plen as int;
                        proof {
                            let idx = match_indices@;
                            assert(0 <= m < idx.len() && idx[m as int] >= p);
                            let mm = choose|mm: int| 0 <= mm < idx.len() && idx[mm] >= p && forall|x: int| 0 <= x < mm ==> idx[x] < p;
                            if mm < m {
                                assert(idx[mm] < p);
                            } else if mm > m {
                                assert(idx[m as int] < p);
                            }
                        }
                        Some(match_indices[m] as usize - plen + 1)
                    },
                    None => None,
                }
            },
            _ => None,
        }
    }
}

} // verus!

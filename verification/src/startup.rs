//! How the program starts: which mode the run configuration selects, and
//! the search items read from a pipe.
use vstd::prelude::*;
use crate::config::{Args, RunConfig};
use crate::git::{GitSearchMode, GitSearchScope};
use crate::log_types::LogFormat;
use crate::search_types::{MatcherMode, SearchConfig};
use crate::chars::{chars_of, find_from, is_whitespace, is_ws, occurs_at, string_from_chars};

verus! {

/// The mode the program starts in.
#[derive(Debug, Clone, Copy, PartialEq, Eq, Structural)]
pub enum StartupMode {
    Headless,
    InteractiveDirectDiff,
    InteractiveTerminal,
    InteractiveSearchPipe,
    InteractiveLogPipe,
    InteractiveLogFile,
}

/// The start mode of a run configuration: headless first, then a direct
/// diff, then log files, a piped log, piped search items, the terminal.
pub open spec fn startup_mode(c: RunConfig) -> StartupMode {
    if c.headless {
        StartupMode::Headless
    } else if c.diff is Some {
        StartupMode::InteractiveDirectDiff
    } else if c.log && c.log_files@.len() > 0 {
        StartupMode::InteractiveLogFile
    } else if c.log && c.stdin {
        StartupMode::InteractiveLogPipe
    } else if c.stdin {
        StartupMode::InteractiveSearchPipe
    } else {
        StartupMode::InteractiveTerminal
    }
}

/// Selects the start mode.
pub fn classify_input_mode_with_run_config(run_config: &RunConfig) -> (m: StartupMode)
    ensures
        m == startup_mode(*run_config),
{
    if run_config.headless {
        StartupMode::Headless
    } else if run_config.diff.is_some() {
        StartupMode::InteractiveDirectDiff
    } else if run_config.log && run_config.log_files.len() > 0 {
        StartupMode::InteractiveLogFile
    } else if run_config.log && run_config.stdin {
        StartupMode::InteractiveLogPipe
    } else if run_config.stdin {
        StartupMode::InteractiveSearchPipe
    } else {
        StartupMode::InteractiveTerminal
    }
}

/// The pieces of `s` between occurrences of the (non-empty) delimiter `d`,
/// scanning from index `i` with the current piece starting at `st`.
pub open spec fn split_scan(s: Seq<char>, d: Seq<char>, i: int, st: int) -> Seq<Seq<char>>
    decreases s.len() - i,
{
    if d.len() == 0 || i < st || i + d.len() > s.len() {
        seq![s.subrange(st, s.len() as int)]
    } else if occurs_at(s, d, i) {
        seq![s.subrange(st, i)] + split_scan(s, d, i + d.len(), i + d.len())
    } else {
        split_scan(s, d, i + 1, st)
    }
}

/// `str::split` by `d`: for an empty delimiter, an empty piece, each char,
/// and an empty piece.
pub open spec fn split_str(s: Seq<char>, d: Seq<char>) -> Seq<Seq<char>> {
    if d.len() == 0 {
        seq![Seq::<char>::empty()] + s.map_values(|c: char| seq![c]) + seq![Seq::<char>::empty()]
    } else {
        split_scan(s, d, 0, 0)
    }
}

/// `p` is white space only (`str::trim` leaves it empty).
pub open spec fn blank(p: Seq<char>) -> bool {
    forall|i: int| 0 <= i < p.len() ==> is_ws(#[trigger] p[i])
}

/// The predicate "is not blank".
pub open spec fn not_blank_piece() -> spec_fn(Seq<char>) -> bool {
    |p: Seq<char>| !blank(p)
}

/// The non-blank pieces of `ps`.
pub open spec fn non_blank(ps: Seq<Seq<char>>) -> Seq<Seq<char>> {
    ps.filter(not_blank_piece())
}

/// The search items of the piped lines `raw`: each line, or its pieces
/// split by `split`, without the blank ones.
pub open spec fn stdin_items(raw: Seq<Seq<char>>, split: Option<Seq<char>>) -> Seq<Seq<char>>
    decreases raw.len(),
{
    if raw.len() == 0 {
        seq![]
    } else {
        stdin_items(raw.drop_last(), split) + non_blank(
            match split {
                Some(d) => split_str(raw.last(), d),
                None => seq![raw.last()],
            },
        )
    }
}

proof fn lemma_strings_view_push(v: Seq<String>, x: String)
    ensures
        crate::config::strings_view(v.push(x)) == crate::config::strings_view(v).push(x@),
{
    assert(crate::config::strings_view(v.push(x)) =~= crate::config::strings_view(v).push(x@));
}

proof fn lemma_non_blank_push(ps: Seq<Seq<char>>, x: Seq<char>)
    ensures
        non_blank(ps.push(x)) == (if blank(x) { non_blank(ps) } else { non_blank(ps).push(x) }),
        non_blank(seq![x]) == (if blank(x) { Seq::<Seq<char>>::empty() } else { seq![x] }),
{
    ps.lemma_filter_push(x, not_blank_piece());
    Seq::<Seq<char>>::empty().lemma_filter_push(x, not_blank_piece());
    assert(Seq::<Seq<char>>::empty().push(x) =~= seq![x]);
    reveal(Seq::filter);
    assert(Seq::<Seq<char>>::empty().filter(not_blank_piece()) =~= Seq::<Seq<char>>::empty());
}

fn is_blank(v: &Vec<char>, lo: usize, hi: usize) -> (b: bool)
    requires
        lo <= hi <= v@.len(),
    ensures
        b == blank(v@.subrange(lo as int, hi as int)),
{
    let mut i = lo;
    while i < hi
        invariant
            lo <= i <= hi <= v@.len(),
            forall|k: int| lo <= k < i ==> is_ws(v@[k]),
        decreases hi - i,
    {
        if !is_whitespace(v[i]) {
            assert(!is_ws(v@.subrange(lo as int, hi as int)[i - lo]));
            return false;
        }
        i = i + 1;
    }
    assert forall|k: int| 0 <= k < hi - lo implies is_ws(#[trigger] v@.subrange(lo as int, hi as int)[k]) by {
        assert(v@.subrange(lo as int, hi as int)[k] == v@[lo + k]);
    }
    true
}

proof fn lemma_split_skip(s: Seq<char>, d: Seq<char>, i: int, k: int, st: int)
    requires
        d.len() > 0,
        st <= i <= k,
        k + d.len() <= s.len(),
        forall|j: int| i <= j < k ==> !occurs_at(s, d, j),
    ensures
        split_scan(s, d, i, st) == split_scan(s, d, k, st),
    decreases k - i,
{
    if i < k {
        lemma_split_skip(s, d, i + 1, k, st);
    }
}

proof fn lemma_split_end(s: Seq<char>, d: Seq<char>, i: int, st: int)
    requires
        d.len() > 0,
        0 <= st <= i,
        forall|j: int| i <= j ==> !occurs_at(s, d, j),
    ensures
        split_scan(s, d, i, st) == seq![s.subrange(st, s.len() as int)],
    decreases s.len() - i,
{
    if i + d.len() <= s.len() {
        lemma_split_end(s, d, i + 1, st);
    }
}

/// The search items of piped lines: each line, or its pieces split by
/// `split`, without the blank ones.
pub fn parse_stdin_items(raw: Vec<String>, split: Option<&str>) -> (r: Vec<String>)
    ensures
        crate::config::strings_view(r@) == stdin_items(
            crate::config::strings_view(raw@),
            match split {
                Some(d) => Some(d@),
                None => None,
            },
        ),
{
    let ghost sv = crate::config::strings_view(raw@);
    let ghost sp = match split {
        Some(d) => Some(d@),
        None => None::<Seq<char>>,
    };
    let mut out: Vec<String> = Vec::new();
    let mut li: usize = 0;
    while li < raw.len()
        invariant
            li <= raw@.len(),
            sv == crate::config::strings_view(raw@),
            sp == (match split {
                Some(d) => Some(d@),
                None => None::<Seq<char>>,
            }),
            crate::config::strings_view(out@) == stdin_items(sv.take(li as int), sp),
        decreases raw.len() - li,
    {
        let line = chars_of(raw[li].as_str());
        let ghost before = crate::config::strings_view(out@);
        let ghost pieces: Seq<Seq<char>> = match sp {
            Some(d) => split_str(line@, d),
            None => seq![line@],
        };
        match split {
            None => {
                let ghost old_out = out@;
                if !is_blank(&line, 0, line.len()) {
                    out.push(raw[li].clone());
                }
                proof {
                    assert(line@.subrange(0, line@.len() as int) =~= line@);
                    lemma_non_blank_push(seq![], line@);
                    lemma_strings_view_push(old_out, raw@[li as int]);
                    assert(crate::config::strings_view(out@) =~= before + non_blank(seq![line@]));
                }
            },
            Some(d) => {
                let dv = chars_of(d);
                if dv.len() == 0 {
                    proof {
                        lemma_non_blank_push(seq![], Seq::<char>::empty());
                        assert(seq![Seq::<char>::empty()] + line@.take(0).map_values(|c: char| seq![c]) =~= seq![Seq::<char>::empty()]);
                    }
                    let mut i: usize = 0;
                    while i < line.len()
                        invariant
                            i <= line@.len(),
                            crate::config::strings_view(out@) == before + non_blank(seq![Seq::<char>::empty()] + line@.take(i as int).map_values(|c: char| seq![c])),
                        decreases line.len() - i,
                    {
                        let ghost prefix = seq![Seq::<char>::empty()] + line@.take(i as int).map_values(|c: char| seq![c]);
                        let ghost old_out = out@;
                        proof {
                            assert(seq![Seq::<char>::empty()] + line@.take(i + 1).map_values(|c: char| seq![c]) =~= prefix.push(seq![line@[i as int]]));
                            lemma_non_blank_push(prefix, seq![line@[i as int]]);
                            assert(seq![line@[i as int]][0] == line@[i as int]);
                        }
                        if !is_whitespace(line[i]) {
                            let mut one = String::new();
                            crate::chars::push_char(&mut one, line[i]);
                            proof {
                                assert(one@ =~= seq![line@[i as int]]);
                            }
                            out.push(one);
                            proof {
                                lemma_strings_view_push(old_out, one);
                                assert(crate::config::strings_view(out@) =~= before + non_blank(prefix.push(seq![line@[i as int]])));
                            }
                        } else {
                            proof {
                                assert(crate::config::strings_view(out@) =~= before + non_blank(prefix.push(seq![line@[i as int]])));
                            }
                        }
                        i = i + 1;
                    }
                    proof {
                        let all = seq![Seq::<char>::empty()] + line@.take(line@.len() as int).map_values(|c: char| seq![c]);
                        assert(line@.take(line@.len() as int) =~= line@);
                        lemma_non_blank_push(all, Seq::<char>::empty());
                        assert(pieces =~= all.push(Seq::<char>::empty()));
                    }
                } else {
                    let mut from: usize = 0;
                    let mut st: usize = 0;
                    let mut done = false;
                    let ghost mut acc: Seq<Seq<char>> = seq![];
                    while !done
                        invariant
                            dv@ == d@,
                            dv@.len() > 0,
                            st == from,
                            from <= line@.len(),
                            pieces == acc + (if done { seq![] } else { split_scan(line@, dv@, from as int, st as int) }),
                            crate::config::strings_view(out@) == before + non_blank(acc),
                        decreases line@.len() - from, (if done { 0int } else { 1int }),
                    {
                        match find_from(line.as_slice(), dv.as_slice(), from) {
                            Some(k) => {
                                proof {
                                    lemma_split_skip(line@, dv@, from as int, k as int, st as int);
                                    lemma_non_blank_push(acc, line@.subrange(st as int, k as int));
                                }
                                let blank_piece = is_blank(&line, st, k);
                                if !blank_piece {
                                    let piece_s = string_from_chars(line.as_slice(), st, k);
                                    let ghost old_out = out@;
                                    out.push(piece_s);
                                    proof {
                                        lemma_strings_view_push(old_out, piece_s);
                                    }
                                }
                                proof {
                                    let piece = line@.subrange(st as int, k as int);
                                    assert(pieces == acc.push(piece) + split_scan(line@, dv@, k + dv@.len(), k + dv@.len()));
                                    acc = acc.push(piece);
                                    assert(crate::config::strings_view(out@) =~= before + non_blank(acc));
                                }
                                proof {
                                    assert(occurs_at(line@, dv@, k as int));
                                    assert(k + dv@.len() <= line@.len());
                                    assert(line@.len() == line.len());
                                }
                                from = k + dv.len();
                                st = from;
                            },
                            None => {
                                proof {
                                    lemma_split_end(line@, dv@, from as int, st as int);
                                    lemma_non_blank_push(acc, line@.subrange(st as int, line@.len() as int));
                                }
                                let blank_piece = is_blank(&line, st, line.len());
                                if !blank_piece {
                                    let piece_s = string_from_chars(line.as_slice(), st, line.len());
                                    let ghost old_out = out@;
                                    out.push(piece_s);
                                    proof {
                                        lemma_strings_view_push(old_out, piece_s);
                                    }
                                }
                                proof {
                                    let piece = line@.subrange(st as int, line@.len() as int);
                                    acc = acc.push(piece);
                                    assert(crate::config::strings_view(out@) =~= before + non_blank(acc));
                                }
                                done = true;
                            },
                        }
                    }
                    proof {
                        assert(pieces =~= acc);
                    }
                }
            },
        }
        proof {
            assert(sv.take(li + 1).drop_last() =~= sv.take(li as int));
            assert(sv.take(li + 1).last() == line@);
        }
        li = li + 1;
    }
    proof {
        assert(sv.take(raw@.len() as int) =~= sv);
    }
    out
}

/// The search items of a headless run: the piped lines `raw`, parsed,
/// when the input is piped.
pub fn prepare_headless_input_with_run_config(run_config: &RunConfig, raw: Vec<String>) -> (r: Option<Vec<String>>)
    ensures
        !run_config.stdin ==> r is None,
        run_config.stdin ==> r is Some && crate::config::strings_view(r->0@) == stdin_items(
            crate::config::strings_view(raw@),
            crate::config::opt_view(run_config.split),
        ),
{
    if !run_config.stdin {
        return None;
    }
    let items = match &run_config.split {
        Some(d) => parse_stdin_items(raw, Some(d.as_str())),
        None => parse_stdin_items(raw, None),
    };
    Some(items)
}

/// What a run reads before the interactive screen starts: search items
/// from a pipe, whether to take the piped log, and the log files.
pub struct PreparedInteractiveInput {
    pub stdin_items: Option<Vec<String>>,
    pub log_pipe: bool,
    pub log_files: Vec<String>,
}

/// What the interactive screen starts with, for a run configuration:
/// `raw` holds the lines piped in (read only for a piped search), split
/// into items as `parse_stdin_items` does; a piped log is taken as it is;
/// log files are passed on.
pub fn prepare_interactive_input_with_run_config(run_config: &RunConfig, raw: Vec<String>) -> (r: PreparedInteractiveInput)
    ensures
        startup_mode(*run_config) == StartupMode::InteractiveSearchPipe ==> r.stdin_items is Some
            && crate::config::strings_view(r.stdin_items->0@) == stdin_items(crate::config::strings_view(raw@),
            crate::config::opt_view(run_config.split)),
        startup_mode(*run_config) != StartupMode::InteractiveSearchPipe ==> r.stdin_items is None,
        r.log_pipe == (startup_mode(*run_config) == StartupMode::InteractiveLogPipe),
        startup_mode(*run_config) == StartupMode::InteractiveLogFile ==> crate::config::strings_view(r.log_files@)
            == crate::config::strings_view(run_config.log_files@),
        startup_mode(*run_config) != StartupMode::InteractiveLogFile ==> r.log_files@.len() == 0,
{
    match classify_input_mode_with_run_config(run_config) {
        StartupMode::InteractiveSearchPipe => {
            let items = match &run_config.split {
                Some(d) => parse_stdin_items(raw, Some(d.as_str())),
                None => parse_stdin_items(raw, None),
            };
            PreparedInteractiveInput { stdin_items: Some(items), log_pipe: false, log_files: Vec::new() }
        },
        StartupMode::InteractiveLogPipe => PreparedInteractiveInput { stdin_items: None, log_pipe: true, log_files: Vec::new() },
        StartupMode::InteractiveLogFile => PreparedInteractiveInput {
            stdin_items: None,
            log_pipe: false,
            log_files: crate::config::clone_strings(&run_config.log_files),
        },
        _ => PreparedInteractiveInput { stdin_items: None, log_pipe: false, log_files: Vec::new() },
    }
}

/// The format of log files from their first non-blank lines: each sample
/// holds a file's lines up to its first non-blank one, or `None` when the
/// file could not be opened (then no format is known). The first file
/// with a non-blank line decides: JSON lines when that line (trimmed) is
/// JSON, else logfmt.
pub open spec fn files_format(samples: Seq<Option<Seq<Seq<char>>>>) -> Option<LogFormat>
    decreases samples.len(),
{
    if samples.len() == 0 {
        None
    } else {
        match samples[0] {
            None => None,
            Some(lines) => match first_nonblank(lines) {
                Some(t) => Some(if crate::log_parse::json_parses(t) { LogFormat::Jsonl } else { LogFormat::Logfmt }),
                None => files_format(samples.drop_first()),
            },
        }
    }
}

/// The first non-blank line, trimmed.
pub open spec fn first_nonblank(lines: Seq<Seq<char>>) -> Option<Seq<char>>
    decreases lines.len(),
{
    if lines.len() == 0 {
        None
    } else if crate::search_types::trim_ws(lines[0]).len() > 0 {
        Some(crate::search_types::trim_ws(lines[0]))
    } else {
        first_nonblank(lines.drop_first())
    }
}

/// The samples, as text.
pub open spec fn samples_view(s: Seq<Option<Vec<String>>>) -> Seq<Option<Seq<Seq<char>>>> {
    s.map_values(|o: Option<Vec<String>>| match o {
        Some(v) => Some(crate::config::strings_view(v@)),
        None => None,
    })
}

/// The format of log files (see `files_format`).
pub fn detect_format_from_files(samples: &[Option<Vec<String>>]) -> (r: Option<LogFormat>)
    ensures
        r == files_format(samples_view(samples@)),
{
    let ghost sv = samples_view(samples@);
    let mut i: usize = 0;
    proof {
        assert(sv.skip(0) =~= sv);
    }
    while i < samples.len()
        invariant
            i <= samples@.len(),
            sv == samples_view(samples@),
            files_format(sv) == files_format(sv.skip(i as int)),
        decreases samples@.len() - i,
    {
        proof {
            assert(sv.skip(i as int).drop_first() =~= sv.skip(i + 1));
            assert(sv.skip(i as int)[0] == sv[i as int]);
        }
        match &samples[i] {
            None => return None,
            Some(lines) => {
                let ghost lv = crate::config::strings_view(lines@);
                let mut j: usize = 0;
                proof {
                    assert(lv.skip(0) =~= lv);
                }
                while j < lines.len()
                    invariant
                        j <= lines@.len(),
                        lv == crate::config::strings_view(lines@),
                        first_nonblank(lv) == first_nonblank(lv.skip(j as int)),
                        i < samples@.len(),
                        sv == samples_view(samples@),
                        files_format(sv) == files_format(sv.skip(i as int)),
                        sv.skip(i as int).len() > 0,
                        sv.skip(i as int)[0] == Some(lv),
                    decreases lines@.len() - j,
                {
                    let t = crate::search_types::trim_str(lines[j].as_str());
                    proof {
                        assert(lv.skip(j as int).drop_first() =~= lv.skip(j + 1));
                        assert(lv.skip(j as int)[0] == lines@[j as int]@);
                    }
                    if t.as_str().unicode_len() > 0 {
                        return Some(if crate::log_parse::is_json_text(t.as_str()) {
                            LogFormat::Jsonl
                        } else {
                            LogFormat::Logfmt
                        });
                    }
                    j = j + 1;
                }
                proof {
                    assert(lv.skip(j as int) =~= Seq::<Seq<char>>::empty());
                }
            },
        }
        i = i + 1;
    }
    proof {
        assert(sv.skip(i as int) =~= Seq::<Option<Seq<Seq<char>>>>::empty());
    }
    None
}

/// The format the log files are watched in: the detected one, JSON lines
/// when none is.
pub fn log_files_format(samples: &[Option<Vec<String>>]) -> (r: LogFormat)
    ensures
        r == (match files_format(samples_view(samples@)) {
            Some(f) => f,
            None => LogFormat::Jsonl,
        }),
{
    match detect_format_from_files(samples) {
        Some(f) => f,
        None => LogFormat::Jsonl,
    }
}

/// The query a headless run filters by: the query trimmed, when it is not
/// empty (else every item is written).
pub fn headless_query(search_config: &SearchConfig) -> (r: Option<String>)
    ensures
        match search_config.query {
            Some(q) => if crate::search_types::trim_ws(q@).len() > 0 {
                r is Some && r->0@ == crate::search_types::trim_ws(q@)
            } else {
                r is None
            },
            None => r is None,
        },
{
    match &search_config.query {
        Some(q) => {
            let t = crate::search_types::trim_str(q.as_str());
            if t.as_str().unicode_len() > 0 {
                Some(t)
            } else {
                None
            }
        },
        None => None,
    }
}

/// Which git search a command line asks for: the history of a file, the
/// branches or the commits of the repository around the first location
/// (or the current directory), or none.
pub enum GitScopeRequest {
    History(String),
    Repo(Option<String>, GitSearchMode),
    NoGit,
}

/// The git search a command line asks for: a file's history first, then
/// branches, then commits.
pub fn git_scope_request(args: &Args) -> (r: GitScopeRequest)
    ensures
        match args.git_history {
            Some(p) => r matches GitScopeRequest::History(q) && q@ == p@,
            None => if args.git_branches {
                r matches GitScopeRequest::Repo(start, m) && m == GitSearchMode::Branches
                    && crate::config::opt_view(start) == (if args.location@.len() > 0 { Some(args.location@[0]@) } else { None })
            } else if args.git_commits {
                r matches GitScopeRequest::Repo(start, m) && m == GitSearchMode::Commits
                    && crate::config::opt_view(start) == (if args.location@.len() > 0 { Some(args.location@[0]@) } else { None })
            } else {
                r is NoGit
            },
        },
{
    let first = if args.location.len() > 0 { Some(args.location[0].clone()) } else { None };
    match &args.git_history {
        Some(p) => GitScopeRequest::History(p.clone()),
        None => if args.git_branches {
            GitScopeRequest::Repo(first, GitSearchMode::Branches)
        } else if args.git_commits {
            GitScopeRequest::Repo(first, GitSearchMode::Commits)
        } else {
            GitScopeRequest::NoGit
        },
    }
}

/// The run and search configurations of a command line.
pub struct ResolvedCli {
    pub run: RunConfig,
    pub search: SearchConfig,
}

impl ResolvedCli {
    /// The configurations of a command line, run with `stdin_is_piped`
    /// and the git scope resolved for `git_scope_request`.
    pub fn from_args(args: &Args, stdin_is_piped: bool, git_search_scope: Option<GitSearchScope>) -> (r: Self)
        ensures
            crate::config::run_config_is(r.run, *args, stdin_is_piped),
            crate::config::opt_view(r.search.query) == crate::config::opt_view(args.query),
            crate::config::strings_view(r.search.locations@) == crate::config::strings_view(args.location@),
            r.search.search_pdf == args.search_pdf,
            r.search.no_hidden == args.no_hidden,
            r.search.no_git_ignore == args.no_git_ignore,
            r.search.no_ignore == args.no_ignore,
            r.search.no_default_ignore_dirs == args.no_default_ignore_dirs,
            r.search.git_search_scope == git_search_scope,
            r.search.settings.mode == crate::search_types::mode_of(*args),
            r.search.settings.matcher == (if args.exact { MatcherMode::Exact } else { MatcherMode::Fuzzy }),
    {
        let run = RunConfig::from_args(args).with_stdin(stdin_is_piped);
        let search = SearchConfig::from_args(args).with_git_search_scope(git_search_scope);
        ResolvedCli { run, search }
    }
}

} // verus!

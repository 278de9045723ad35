//! Run configuration: what the command line asked for, and how the program
//! starts from it.
use vstd::prelude::*;

verus! {

/// How headless results are written.
#[derive(Debug, Clone, Copy, PartialEq, Eq, Structural)]
pub enum OutputFormat {
    Plain,
}

/// The parsed command line.
#[derive(Debug, Clone, PartialEq, Eq)]
pub struct Args {
    pub query: Option<String>,
    pub location: Vec<String>,
    pub headless: bool,
    pub output_format: OutputFormat,
    pub output_file: Option<String>,
    pub stdin: bool,
    pub log: bool,
    pub log_files: Vec<String>,
    pub diff: Option<Vec<String>>,
    pub preview: Option<String>,
    pub delimiter: String,
    pub split: Option<String>,
    pub content: bool,
    pub dir_only: bool,
    pub file_name: bool,
    pub exact: bool,
    pub search_pdf: bool,
    pub no_hidden: bool,
    pub no_git_ignore: bool,
    pub no_ignore: bool,
    pub no_default_ignore_dirs: bool,
    pub git_history: Option<String>,
    pub git_branches: bool,
    pub git_commits: bool,
}

/// What the program runs: mode, inputs, preview command.
#[derive(Debug, Clone, PartialEq, Eq)]
pub struct RunConfig {
    pub headless: bool,
    pub output_format: OutputFormat,
    pub stdin: bool,
    pub log: bool,
    pub log_files: Vec<String>,
    pub diff: Option<[String; 2]>,
    pub preview_command: Option<String>,
    pub preview_delimiter: String,
    pub split: Option<String>,
}

/// The text of an optional string.
pub open spec fn opt_view(o: Option<String>) -> Option<Seq<char>> {
    match o {
        Some(s) => Some(s@),
        None => None,
    }
}

/// The texts of a list of strings.
pub open spec fn strings_view(v: Seq<String>) -> Seq<Seq<char>> {
    v.map_values(|s: String| s@)
}

/// The two paths of a diff given on the command line, when exactly two
/// were given.
pub open spec fn diff_pair(d: Option<Vec<String>>) -> Option<(Seq<char>, Seq<char>)> {
    match d {
        Some(v) => if v@.len() == 2 {
            Some((v@[0]@, v@[1]@))
        } else {
            None
        },
        None => None,
    }
}

/// The paths of a diff held by a run configuration.
pub open spec fn run_diff(d: Option<[String; 2]>) -> Option<(Seq<char>, Seq<char>)> {
    match d {
        Some(a) => Some((a@[0]@, a@[1]@)),
        None => None,
    }
}

/// A copy of an optional string.
pub fn clone_opt(o: &Option<String>) -> (r: Option<String>)
    ensures
        opt_view(r) == opt_view(*o),
{
    match o {
        Some(s) => Some(s.clone()),
        None => None,
    }
}

/// A copy of a list of strings.
pub fn clone_strings(v: &Vec<String>) -> (r: Vec<String>)
    ensures
        strings_view(r@) == strings_view(v@),
{
    let mut r: Vec<String> = Vec::new();
    let mut i: usize = 0;
    while i < v.len()
        invariant
            i <= v@.len(),
            r@.len() == i,
            forall|k: int| 0 <= k < i ==> r@[k]@ == v@[k]@,
        decreases v.len() - i,
    {
        r.push(v[i].clone());
        i = i + 1;
    }
    assert(strings_view(r@) =~= strings_view(v@));
    r
}

/// `c` is `a`'s run configuration (with `stdin` as given).
pub open spec fn run_config_is(c: RunConfig, a: Args, stdin: bool) -> bool {
    &&& c.headless == a.headless
    &&& c.output_format == a.output_format
    &&& c.stdin == stdin
    &&& c.log == a.log
    &&& strings_view(c.log_files@) == strings_view(a.log_files@)
    &&& run_diff(c.diff) == diff_pair(a.diff)
    &&& opt_view(c.preview_command) == opt_view(a.preview)
    &&& c.preview_delimiter@ == a.delimiter@
    &&& opt_view(c.split) == opt_view(a.split)
}

/// `b` is `a` with `stdin` as given.
pub open spec fn same_run_config(b: RunConfig, a: RunConfig, stdin: bool) -> bool {
    &&& b.headless == a.headless
    &&& b.output_format == a.output_format
    &&& b.stdin == stdin
    &&& b.log == a.log
    &&& strings_view(b.log_files@) == strings_view(a.log_files@)
    &&& run_diff(b.diff) == run_diff(a.diff)
    &&& opt_view(b.preview_command) == opt_view(a.preview_command)
    &&& b.preview_delimiter@ == a.preview_delimiter@
    &&& opt_view(b.split) == opt_view(a.split)
}

impl RunConfig {
    /// The run configuration of a command line; a diff needs exactly two
    /// paths.
    pub fn from_args(args: &Args) -> (c: Self)
        ensures
            run_config_is(c, *args, args.stdin),
    {
        let diff = match &args.diff {
            Some(paths) => if paths.len() == 2 {
                Some([paths[0].clone(), paths[1].clone()])
            } else {
                None
            },
            None => None,
        };
        RunConfig {
            headless: args.headless,
            output_format: args.output_format,
            stdin: args.stdin,
            log: args.log,
            log_files: clone_strings(&args.log_files),
            diff,
            preview_command: clone_opt(&args.preview),
            preview_delimiter: args.delimiter.clone(),
            split: clone_opt(&args.split),
        }
    }

    /// Whether a preview command was given.
    pub fn has_preview_command(&self) -> (b: bool)
        ensures
            b == self.preview_command is Some,
    {
        self.preview_command.is_some()
    }

    /// The same configuration with `stdin` set as given.
    pub fn with_stdin(&self, stdin: bool) -> (c: Self)
        ensures
            same_run_config(c, *self, stdin),
    {
        let diff = match &self.diff {
            Some(paths) => Some([paths[0].clone(), paths[1].clone()]),
            None => None,
        };
        RunConfig {
            headless: self.headless,
            output_format: self.output_format,
            stdin,
            log: self.log,
            log_files: clone_strings(&self.log_files),
            diff,
            preview_command: clone_opt(&self.preview_command),
            preview_delimiter: self.preview_delimiter.clone(),
            split: clone_opt(&self.split),
        }
    }
}

} // verus!

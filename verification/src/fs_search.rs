//! Walking the file system for a search: which entries count, and how a
//! line read from a file becomes a content item.
use vstd::prelude::*;
use crate::chars::str_eq;
use crate::search_types::SearchItem;
use crate::text::str_from_utf8;
use vstd::utf8::{decode_utf8, valid_utf8};

verus! {

/// Lines longer than this many bytes are cut when searched.
pub const MAX_GREP_LINE_LENGTH: usize = 1048576;

/// The directory names a search skips unless asked not to.
pub open spec fn ignored_dir_name(n: Seq<char>) -> bool {
    n == ".git"@ || n == ".hg"@ || n == ".svn"@ || n == "target"@ || n == "build"@ || n == "dist"@ || n == "out"@ || n == "node_modules"@ || n == "vendor"@ || n == "bower_components"@ || n == "__pycache__"@ || n == ".venv"@ || n == "venv"@ || n == ".tox"@ || n == ".eggs"@ || n == "*.egg-info"@ || n == ".idea"@ || n == ".cache"@ || n == ".parcel-cache"@ || n == ".next"@ || n == ".nuxt"@ || n == ".svelte-kit"@ || n == ".gradle"@ || n == "coverage"@
}

/// Whether a search skips the directory `name` (build output, version
/// control, caches, dependencies).
pub fn is_ignored_dir(name: &str) -> (b: bool)
    ensures
        b == ignored_dir_name(name@),
{
    str_eq(name, ".git") || str_eq(name, ".hg") || str_eq(name, ".svn") || str_eq(name, "target") || str_eq(name, "build") || str_eq(name, "dist") || str_eq(name, "out") || str_eq(name, "node_modules") || str_eq(name, "vendor") || str_eq(name, "bower_components") || str_eq(name, "__pycache__") || str_eq(name, ".venv") || str_eq(name, "venv") || str_eq(name, ".tox") || str_eq(name, ".eggs") || str_eq(name, "*.egg-info") || str_eq(name, ".idea") || str_eq(name, ".cache") || str_eq(name, ".parcel-cache") || str_eq(name, ".next") || str_eq(name, ".nuxt") || str_eq(name, ".svelte-kit") || str_eq(name, ".gradle") || str_eq(name, "coverage")
}

/// Whether an entry is searched: a directory in a directory search, else a
/// file; an entry of unknown type never.
pub fn entry_matches_kind(file_type: Option<(bool, bool)>, dir_only: bool) -> (b: bool)
    ensures
        b == (match file_type {
            Some((is_dir, is_file)) => if dir_only { is_dir } else { is_file },
            None => false,
        }),
{
    match file_type {
        Some((is_dir, is_file)) => if dir_only { is_dir } else { is_file },
        None => false,
    }
}

/// Whether a file's extension marks a PDF (any case).
pub fn is_pdf_extension(ext: Option<&str>) -> (b: bool)
    ensures
        b == (match ext {
            Some(e) => crate::chars::ascii_lower_seq(e@) == "pdf"@,
            None => false,
        }),
{
    match ext {
        Some(e) => {
            let lower = crate::chars::str_to_ascii_lowercase(e);
            str_eq(lower.as_str(), "pdf")
        },
        None => false,
    }
}

/// What a line read from a file gives a content search: stop reading the
/// file (a NUL byte: it is binary), or go on with an item (when the line
/// is non-empty text) and the next line number.
pub enum GrepLine {
    Stop,
    Next { item: Option<SearchItem>, line: usize },
}

/// A line cut to `MAX_GREP_LINE_LENGTH` bytes.
pub open spec fn grep_cut(raw: Seq<u8>) -> Seq<u8> {
    if raw.len() > MAX_GREP_LINE_LENGTH { raw.take(MAX_GREP_LINE_LENGTH as int) } else { raw }
}

/// A line as searched: cut to `MAX_GREP_LINE_LENGTH` bytes, then without
/// its newline and carriage return.
pub open spec fn grep_bytes(raw: Seq<u8>) -> Seq<u8> {
    let cut = grep_cut(raw);
    let a = if cut.len() > 0 && cut.last() == 10 { cut.drop_last() } else { cut };
    if a.len() > 0 && a.last() == 13 { a.drop_last() } else { a }
}

/// What the line `raw` (as `read_until(b'\n')` gave it, `n` bytes read)
/// numbered `ln + 1` of the file `path` gives (see `GrepLine`); a line cut
/// for its length counts twice.
pub fn grep_line(path: &str, raw: &[u8], n: usize, ln: usize) -> (r: GrepLine)
    requires
        ln + 2 <= usize::MAX,
    ensures
        ({
            let b = grep_bytes(raw@);
            if grep_cut(raw@).contains(0u8) {
                r is Stop
            } else {
                (r matches GrepLine::Next { item, line } && line == ln + 1 + (if n > MAX_GREP_LINE_LENGTH { 1int } else { 0int })
                    && (if b.len() > 0 && valid_utf8(b) {
                        item matches Some(SearchItem::Grep { path: p, line: l, text: t }) && p@ == path@ && l == ln + 1
                            && t@ == decode_utf8(b)
                    } else {
                        item is None
                    }))
            }
        }),
{
    let end = if raw.len() > MAX_GREP_LINE_LENGTH { MAX_GREP_LINE_LENGTH } else { raw.len() };
    let ghost cut = grep_cut(raw@);
    proof {
        assert(raw@.subrange(0, end as int) =~= cut);
    }
    let mut i: usize = 0;
    while i < end
        invariant
            i <= end <= raw@.len(),
            cut == raw@.subrange(0, end as int),
            cut == grep_cut(raw@),
            forall|j: int| 0 <= j < i ==> cut[j] != 0,
        decreases end - i,
    {
        if raw[i] == 0 {
            proof {
                assert(cut[i as int] == 0u8);
                assert(cut.contains(0u8));
            }
            return GrepLine::Stop;
        }
        i = i + 1;
    }
    proof {
        if cut.contains(0u8) {
            let j = choose|j: int| 0 <= j < cut.len() && cut[j] == 0u8;
            assert(cut[j] != 0);
        }
    }
    let mut stop = end;
    if stop > 0 && raw[stop - 1] == 10 {
        stop = stop - 1;
    }
    if stop > 0 && raw[stop - 1] == 13 {
        stop = stop - 1;
    }
    let mut bytes: Vec<u8> = Vec::new();
    let mut k: usize = 0;
    while k < stop
        invariant
            k <= stop <= end <= raw@.len(),
            bytes@ == raw@.subrange(0, k as int),
        decreases stop - k,
    {
        bytes.push(raw[k]);
        proof {
            assert(bytes@ =~= raw@.subrange(0, k + 1));
        }
        k = k + 1;
    }
    proof {
        assert(bytes@ =~= grep_bytes(raw@));
    }
    let item = if bytes.len() > 0 {
        match str_from_utf8(bytes.as_slice()) {
            Some(s) => Some(SearchItem::grep(path, ln + 1, s)),
            None => None,
        }
    } else {
        None
    };
    let line = if n > MAX_GREP_LINE_LENGTH { ln + 2 } else { ln + 1 };
    GrepLine::Next { item, line }
}

} // verus!

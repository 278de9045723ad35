//! Telling whether a file is a structured log, and in which format.
use vstd::prelude::*;
use crate::chars::{chars_of, is_whitespace, str_to_ascii_lowercase, ascii_lower_seq, str_eq};
use crate::log_parse::{json_object_of, read_json_object};
use crate::log_query::{words, words_scan};
use crate::log_types::LogFormat;
use crate::search_types::{trim_ws, trim_str};

verus! {

/// How many lines of a `.log` file are read to tell its format.
pub const DETECT_SAMPLE: usize = 20;

/// A word of a logfmt line: it holds `=`, neither first nor last.
pub open spec fn logfmt_token(t: Seq<char>) -> bool {
    t.len() > 0 && t.contains('=') && t[0] != '=' && t.last() != '='
}

/// `line` looks like logfmt: one of its words is a `key=value` pair.
pub open spec fn looks_logfmt(line: Seq<char>) -> bool {
    exists|k: int| 0 <= k < words(line).len() && #[trigger] logfmt_token(words(line)[k])
}

/// Whether `v[start..end]` is a `key=value` word.
fn token_is_pair(v: &Vec<char>, start: usize, end: usize) -> (b: bool)
    requires
        start <= end <= v@.len(),
    ensures
        b == logfmt_token(v@.subrange(start as int, end as int)),
{
    let ghost t = v@.subrange(start as int, end as int);
    if start == end || v[start] == '=' || v[end - 1] == '=' {
        return false;
    }
    let mut k = start;
    while k < end
        invariant
            start <= k <= end <= v@.len(),
            t == v@.subrange(start as int, end as int),
            start < end,
            v@[start as int] != '=',
            v@[end - 1] != '=',
            forall|x: int| 0 <= x < k - start ==> t[x] != '=',
        decreases end - k,
    {
        if v[k] == '=' {
            proof {
                assert(t[k - start] == '=');
                assert(t.contains('='));
                assert(t[0] == v@[start as int]);
                assert(t.last() == v@[end - 1]);
            }
            return true;
        }
        k = k + 1;
    }
    proof {
        if t.contains('=') {
            let x = choose|x: int| 0 <= x < t.len() && t[x] == '=';
            assert(t[x] != '=');
        }
    }
    false
}

/// Whether a line looks like logfmt (see `looks_logfmt`).
pub fn looks_like_logfmt(line: &str) -> (b: bool)
    ensures
        b == looks_logfmt(line@),
{
    let v = chars_of(line);
    let ghost s = line@;
    let mut found = false;
    let mut i: usize = 0;
    let mut st: Option<usize> = None;
    let ghost mut done: Seq<Seq<char>> = seq![];
    while i < v.len()
        invariant
            v@ == s,
            s == line@,
            i <= v@.len(),
            st is Some ==> st->0 < i,
            done + words_scan(s, i as int, if st is Some { st->0 as int } else { -1 }) == words(s),
            found == exists|k: int| 0 <= k < done.len() && #[trigger] logfmt_token(done[k]),
        decreases v@.len() - i,
    {
        if is_whitespace(v[i]) {
            if let Some(start) = st {
                let hit = token_is_pair(&v, start, i);
                proof {
                    let w = words_scan(s, i + 1, -1);
                    let t = s.subrange(start as int, i as int);
                    assert(words_scan(s, i as int, start as int) == seq![t] + w);
                    assert(done + words_scan(s, i as int, start as int) =~= done.push(t) + w);
                    let nd = done.push(t);
                    if hit {
                        assert(nd[done.len() as int] == t);
                    }
                    if found {
                        let k = choose|k: int| 0 <= k < done.len() && #[trigger] logfmt_token(done[k]);
                        assert(nd[k] == done[k]);
                    }
                    if exists|k: int| 0 <= k < nd.len() && #[trigger] logfmt_token(nd[k]) {
                        let k = choose|k: int| 0 <= k < nd.len() && #[trigger] logfmt_token(nd[k]);
                        if k < done.len() {
                            assert(nd[k] == done[k]);
                        }
                    }
                    done = nd;
                }
                found = found || hit;
                st = None;
            } else {
                proof {
                    assert(words_scan(s, i as int, -1) =~= words_scan(s, i + 1, -1));
                }
            }
        } else {
            if st.is_none() {
                st = Some(i);
            }
        }
        i = i + 1;
    }
    if let Some(start) = st {
        let hit = token_is_pair(&v, start, i);
        proof {
            let t = s.subrange(start as int, i as int);
            assert(words_scan(s, i as int, start as int) == seq![t]);
            assert(done + words_scan(s, i as int, start as int) =~= done.push(t));
            let nd = done.push(t);
            if hit {
                assert(nd[done.len() as int] == t);
            }
            if found {
                let k = choose|k: int| 0 <= k < done.len() && #[trigger] logfmt_token(done[k]);
                assert(nd[k] == done[k]);
            }
            if exists|k: int| 0 <= k < nd.len() && #[trigger] logfmt_token(nd[k]) {
                let k = choose|k: int| 0 <= k < nd.len() && #[trigger] logfmt_token(nd[k]);
                if k < done.len() {
                    assert(nd[k] == done[k]);
                }
            }
            done = nd;
        }
        found = found || hit;
    } else {
        proof {
            assert(done + words_scan(s, i as int, -1) =~= done);
        }
    }
    found
}


/// What a file's extension says of it as a log: JSON lines, a log whose
/// first lines tell, or no log.
#[derive(Debug, Clone, Copy, PartialEq, Eq, Structural)]
pub enum LogExtension {
    Jsonl,
    Sample,
    NotLog,
}

/// The verdict for an extension, whatever its case.
pub open spec fn extension_kind(ext: Seq<char>) -> LogExtension {
    let e = ascii_lower_seq(ext);
    if e == "jsonl"@ || e == "ndjson"@ {
        LogExtension::Jsonl
    } else if e == "log"@ || e == "logs"@ {
        LogExtension::Sample
    } else {
        LogExtension::NotLog
    }
}

/// The verdict for a file's extension (`""` when it has none).
pub fn log_extension_kind(ext: &str) -> (r: LogExtension)
    ensures
        r == extension_kind(ext@),
{
    let e = str_to_ascii_lowercase(ext);
    if str_eq(e.as_str(), "jsonl") || str_eq(e.as_str(), "ndjson") {
        LogExtension::Jsonl
    } else if str_eq(e.as_str(), "log") || str_eq(e.as_str(), "logs") {
        LogExtension::Sample
    } else {
        LogExtension::NotLog
    }
}

/// The lines, trimmed, without the blank ones.
pub open spec fn nonblank_trimmed(ls: Seq<Seq<char>>) -> Seq<Seq<char>>
    decreases ls.len(),
{
    if ls.len() == 0 {
        seq![]
    } else {
        let t = trim_ws(ls.last());
        nonblank_trimmed(ls.drop_last()) + (if t.len() > 0 { seq![t] } else { seq![] })
    }
}

/// How many of the lines hold a JSON object.
pub open spec fn json_hits(ls: Seq<Seq<char>>) -> nat
    decreases ls.len(),
{
    if ls.len() == 0 {
        0
    } else {
        json_hits(ls.drop_last()) + (if json_object_of(ls.last()) is Some { 1nat } else { 0nat })
    }
}

/// How many of the lines look like logfmt.
pub open spec fn logfmt_hits(ls: Seq<Seq<char>>) -> nat
    decreases ls.len(),
{
    if ls.len() == 0 {
        0
    } else {
        logfmt_hits(ls.drop_last()) + (if looks_logfmt(ls.last()) { 1nat } else { 0nat })
    }
}

/// The format of a log whose first lines are `lines`: JSON lines when at
/// least three quarters of its non-blank lines hold a JSON object, else
/// logfmt when three quarters look like logfmt, else none.
pub open spec fn sample_format(lines: Seq<Seq<char>>) -> Option<LogFormat> {
    let t = nonblank_trimmed(lines);
    if t.len() == 0 {
        None
    } else if 4 * json_hits(t) >= 3 * t.len() {
        Some(LogFormat::Jsonl)
    } else if 4 * logfmt_hits(t) >= 3 * t.len() {
        Some(LogFormat::Logfmt)
    } else {
        None
    }
}

proof fn lemma_hits_all(ls: Seq<Seq<char>>)
    ensures
        json_hits(ls) <= ls.len(),
        logfmt_hits(ls) <= ls.len(),
        (forall|i: int| 0 <= i < ls.len() ==> #[trigger] json_object_of(ls[i]) is Some) ==> json_hits(ls) == ls.len(),
        (forall|i: int| 0 <= i < ls.len() ==> json_object_of(#[trigger] ls[i]) is None) ==> json_hits(ls) == 0,
        (forall|i: int| 0 <= i < ls.len() ==> !looks_logfmt(#[trigger] ls[i])) ==> logfmt_hits(ls) == 0,
    decreases ls.len(),
{
    if ls.len() > 0 {
        lemma_hits_all(ls.drop_last());
        assert(ls.last() == ls[ls.len() - 1]);
        assert forall|i: int| 0 <= i < ls.len() - 1 implies #[trigger] ls.drop_last()[i] == ls[i] by {}
    }
}

/// Blank lines do not count in telling a log's format: a sample that
/// gains a blank line keeps its verdict. A sample whose non-blank lines
/// all hold a JSON object is JSON lines; one where none holds a JSON object
/// and none looks like logfmt is no log; a sample with no non-blank line
/// is no log either.
pub proof fn lemma_sample_format_laws(lines: Seq<Seq<char>>, blank: Seq<char>)
    ensures
        trim_ws(blank).len() == 0 ==> sample_format(lines.push(blank)) == sample_format(lines),
        ({
            let t = nonblank_trimmed(lines);
            t.len() > 0 && (forall|i: int| 0 <= i < t.len() ==> #[trigger] json_object_of(t[i]) is Some)
                ==> sample_format(lines) == Some(LogFormat::Jsonl)
        }),
        ({
            let t = nonblank_trimmed(lines);
            (forall|i: int| 0 <= i < t.len() ==> json_object_of(#[trigger] t[i]) is None && !looks_logfmt(t[i]))
                ==> sample_format(lines) is None
        }),
        nonblank_trimmed(lines).len() == 0 ==> sample_format(lines) is None,
{
    let t = nonblank_trimmed(lines);
    assert(lines.push(blank).drop_last() == lines);
    assert(lines.push(blank).last() == blank);
    if trim_ws(blank).len() == 0 {
        assert(nonblank_trimmed(lines.push(blank)) =~= t);
    }
    lemma_hits_all(t);
}

/// The format of a log from its first lines (see `sample_format`).
pub fn detect_sample_format(lines: &[String]) -> (r: Option<LogFormat>)
    ensures
        r == sample_format(lines@.map_values(|l: String| l@)),
{
    let ghost lv = lines@.map_values(|l: String| l@);
    let mut n: usize = 0;
    let mut json: usize = 0;
    let mut logfmt: usize = 0;
    let mut i: usize = 0;
    while i < lines.len()
        invariant
            i <= lines@.len(),
            lv == lines@.map_values(|l: String| l@),
            n == nonblank_trimmed(lv.take(i as int)).len(),
            json == json_hits(nonblank_trimmed(lv.take(i as int))),
            logfmt == logfmt_hits(nonblank_trimmed(lv.take(i as int))),
            json <= n,
            logfmt <= n,
            n <= i,
        decreases lines@.len() - i,
    {
        let t = trim_str(lines[i].as_str());
        let ghost prev = nonblank_trimmed(lv.take(i as int));
        proof {
            assert(lv.take(i + 1).drop_last() =~= lv.take(i as int));
            assert(lv.take(i + 1).last() == lines@[i as int]@);
        }
        if t.as_str().unicode_len() > 0 {
            let is_json = read_json_object(t.as_str()).is_some();
            let is_logfmt = looks_like_logfmt(t.as_str());
            proof {
                let nt = nonblank_trimmed(lv.take(i + 1));
                assert(nt == prev.push(t@));
                assert(nt.drop_last() =~= prev);
            }
            n = n + 1;
            if is_json {
                json = json + 1;
            }
            if is_logfmt {
                logfmt = logfmt + 1;
            }
        } else {
            proof {
                assert(nonblank_trimmed(lv.take(i + 1)) =~= prev);
            }
        }
        i = i + 1;
    }
    proof {
        assert(lv.take(lines@.len() as int) =~= lv);
    }
    if n == 0 {
        None
    } else if (json as u128) * 4 >= (n as u128) * 3 {
        Some(LogFormat::Jsonl)
    } else if (logfmt as u128) * 4 >= (n as u128) * 3 {
        Some(LogFormat::Logfmt)
    } else {
        None
    }
}

} // verus!

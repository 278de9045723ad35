//! Reading the output of git into search items: branches, commits, and the
//! lines of a file at a commit.
use vstd::prelude::*;
use crate::chars::{chars_of, string_from_chars, to_owned_string};
use crate::config::strings_view;
use crate::git::{sanitize_path_field, sanitized, spec_utf8_lossy, utf8_lossy};
use crate::log_parse::{index_of, index_of_from, lemma_index_of_bounds, sub_chars};
use crate::search_types::{SearchItem, trim_str, trim_ws};

verus! {

/// The separator of the fields git writes for branches and commits.
pub const FIELD_SEPARATOR: char = '\u{1e}';

/// `str::splitn(n, c)`: at most `n` pieces (`n` at least 1), the last
/// holding the rest.
pub open spec fn split_n(s: Seq<char>, c: char, n: nat) -> Seq<Seq<char>>
    decreases n,
{
    if n <= 1 {
        seq![s]
    } else {
        match index_of_from(s, c, 0) {
            Some(p) => seq![s.take(p)] + split_n(s.skip(p + 1), c, (n - 1) as nat),
            None => seq![s],
        }
    }
}

/// Piece `k` of `ps`, trimmed (empty when there is none).
pub open spec fn field(ps: Seq<Seq<char>>, k: int) -> Seq<char> {
    if 0 <= k < ps.len() { trim_ws(ps[k]) } else { seq![] }
}

/// The pieces of `v` (see `split_n`), as strings.
fn split_n_exec(v: &Vec<char>, c: char, n: usize) -> (r: Vec<String>)
    requires
        n >= 1,
    ensures
        strings_view(r@) == split_n(v@, c, n as nat),
        r@.len() <= n,
{
    let mut out: Vec<String> = Vec::new();
    let mut rest = sub_chars(v, 0, v.len());
    let mut k = n;
    proof {
        assert(rest@ =~= v@.subrange(0, v@.len() as int));
        assert(v@.subrange(0, v@.len() as int) =~= v@);
        assert(strings_view(out@) + split_n(rest@, c, k as nat) =~= split_n(v@, c, n as nat));
    }
    loop
        invariant
            k >= 1,
            k + out@.len() == n,
            strings_view(out@) + split_n(rest@, c, k as nat) == split_n(v@, c, n as nat),
        decreases k,
    {
        if k == 1 {
            let ghost before = strings_view(out@);
            out.push(string_from_chars(rest.as_slice(), 0, rest.len()));
            proof {
                assert(rest@.subrange(0, rest@.len() as int) =~= rest@);
                assert(strings_view(out@) =~= before + seq![rest@]);
            }
            return out;
        }
        proof {
            lemma_index_of_bounds(rest@, c, 0);
        }
        match index_of(&rest, c, 0) {
            Some(p) => {
                let ghost before = strings_view(out@);
                let ghost r0 = rest@;
                out.push(string_from_chars(rest.as_slice(), 0, p));
                let next = sub_chars(&rest, p + 1, rest.len());
                proof {
                    assert(r0.subrange(0, p as int) =~= r0.take(p as int));
                    assert(next@ =~= r0.skip(p + 1));
                    assert(strings_view(out@) =~= before.push(r0.take(p as int)));
                    assert(split_n(r0, c, k as nat) == seq![r0.take(p as int)] + split_n(r0.skip(p + 1), c, (k - 1) as nat));
                    assert(strings_view(out@) + split_n(next@, c, (k - 1) as nat) =~= before + split_n(r0, c, k as nat));
                }
                rest = next;
                k = k - 1;
            },
            None => {
                let ghost before = strings_view(out@);
                out.push(string_from_chars(rest.as_slice(), 0, rest.len()));
                proof {
                    assert(rest@.subrange(0, rest@.len() as int) =~= rest@);
                    assert(strings_view(out@) =~= before + seq![rest@]);
                }
                return out;
            },
        }
    }
}

/// Piece `k` of the pieces, trimmed.
fn field_at(ps: &Vec<String>, k: usize) -> (r: String)
    ensures
        r@ == field(strings_view(ps@), k as int),
{
    if k < ps.len() {
        trim_str(ps[k].as_str())
    } else {
        String::new()
    }
}

/// The branch a line of `git for-each-ref` (head marker, name, commit,
/// subject, relative date) describes; none without a name.
pub open spec fn branch_of_line(line: Seq<char>) -> Option<(Seq<char>, Seq<char>, Seq<char>, bool, Seq<char>)> {
    let ps = split_n(line, FIELD_SEPARATOR, 5);
    if field(ps, 1).len() == 0 {
        None
    } else {
        Some((field(ps, 1), field(ps, 2), field(ps, 3), field(ps, 0) == seq!['*'], field(ps, 4)))
    }
}

/// The branch item of a line of git's branch listing (see
/// `branch_of_line`).
pub fn parse_branch_line(line: &str) -> (r: Option<SearchItem>)
    ensures
        match branch_of_line(line@) {
            Some((b, c, s, h, t)) => r matches Some(SearchItem::GitBranch { branch, commit, subject, is_head, relative_time })
                && branch@ == b && commit@ == c && subject@ == s && is_head == h && relative_time@ == t,
            None => r is None,
        },
{
    let v = chars_of(line);
    let ps = split_n_exec(&v, FIELD_SEPARATOR, 5);
    let head = field_at(&ps, 0);
    let branch = field_at(&ps, 1);
    if branch.as_str().unicode_len() == 0 {
        return None;
    }
    let commit = field_at(&ps, 2);
    let subject = field_at(&ps, 3);
    let relative_time = field_at(&ps, 4);
    let is_head = crate::chars::str_eq(head.as_str(), "*");
    proof {
        reveal_strlit("*");
        assert("*"@ =~= seq!['*']);
    }
    Some(SearchItem::git_branch(branch.as_str(), commit.as_str(), subject.as_str(), is_head, relative_time.as_str()))
}

/// The commit a line of `git log` (hash, short hash, subject, author,
/// date, refs) describes; none without a hash.
pub open spec fn commit_of_line(line: Seq<char>) -> Option<(Seq<char>, Seq<char>, Seq<char>, Seq<char>, Seq<char>, Seq<char>)> {
    let ps = split_n(line, FIELD_SEPARATOR, 6);
    if field(ps, 0).len() == 0 {
        None
    } else {
        Some((field(ps, 0), field(ps, 1), field(ps, 2), field(ps, 3), field(ps, 4), field(ps, 5)))
    }
}

/// The commit item of a line of git's commit listing (see
/// `commit_of_line`).
pub fn parse_commit_line(line: &str) -> (r: Option<SearchItem>)
    ensures
        match commit_of_line(line@) {
            Some((h, sh, s, a, d, f)) => r matches Some(SearchItem::GitCommit { commit, short_commit, subject, author, date, refs })
                && commit@ == h && short_commit@ == sh && subject@ == s && author@ == a && date@ == d && refs@ == f,
            None => r is None,
        },
{
    let v = chars_of(line);
    let ps = split_n_exec(&v, FIELD_SEPARATOR, 6);
    let commit = field_at(&ps, 0);
    if commit.as_str().unicode_len() == 0 {
        return None;
    }
    let short_commit = field_at(&ps, 1);
    let subject = field_at(&ps, 2);
    let author = field_at(&ps, 3);
    let date = field_at(&ps, 4);
    let refs = field_at(&ps, 5);
    Some(SearchItem::git_commit(commit.as_str(), short_commit.as_str(), subject.as_str(), author.as_str(), date.as_str(), refs.as_str()))
}

/// The lines of `b` as `BufRead::split(b'\n')` yields them: the pieces
/// between newlines, with no piece after a final newline.
pub open spec fn byte_lines(b: Seq<u8>) -> Seq<Seq<u8>>
    decreases b.len(),
{
    if b.len() == 0 {
        seq![]
    } else {
        match first_newline(b, 0) {
            Some(p) => {
                proof {
                    lemma_first_newline(b, 0);
                }
                seq![b.take(p)] + byte_lines(b.skip(p + 1))
            },
            None => seq![b],
        }
    }
}

/// A text has no more lines than bytes.
pub proof fn lemma_byte_lines_len(b: Seq<u8>)
    ensures
        byte_lines(b).len() <= b.len(),
    decreases b.len(),
{
    if b.len() > 0 {
        lemma_first_newline(b, 0);
        match first_newline(b, 0) {
            Some(p) => lemma_byte_lines_len(b.skip(p + 1)),
            None => {},
        }
    }
}

/// The first newline of `b` at or after `i`.
pub open spec fn first_newline(b: Seq<u8>, i: int) -> Option<int>
    decreases b.len() - i,
{
    if i < 0 || i >= b.len() {
        None
    } else if b[i] == 10 {
        Some(i)
    } else {
        first_newline(b, i + 1)
    }
}

pub proof fn lemma_first_newline(b: Seq<u8>, i: int)
    ensures
        first_newline(b, i) matches Some(p) ==> i <= p < b.len() && b[p] == 10,
    decreases b.len() - i,
{
    if 0 <= i < b.len() && b[i] != 10 {
        lemma_first_newline(b, i + 1);
    }
}

/// A line without one trailing carriage return.
pub open spec fn strip_cr(l: Seq<u8>) -> Seq<u8> {
    if l.len() > 0 && l.last() == 13 { l.drop_last() } else { l }
}

/// The history items of a file's content `blob` at `commit`: one per line
/// (carriage returns dropped, bytes read as text), numbered from 1, under
/// the file's sanitized path.
pub open spec fn history_item_ok(item: SearchItem, commit: Seq<char>, path: Seq<char>, blob: Seq<u8>, k: int) -> bool {
    item matches SearchItem::GitHistory { commit: c, path: p, line, text } && c@ == commit && p@ == sanitized(path)
        && line == k + 1 && text@ == spec_utf8_lossy(strip_cr(byte_lines(blob)[k]))
}

/// A copy of `b[lo..hi]`.
fn sub_bytes(b: &[u8], lo: usize, hi: usize) -> (r: Vec<u8>)
    requires
        lo <= hi <= b@.len(),
    ensures
        r@ == b@.subrange(lo as int, hi as int),
{
    let mut r: Vec<u8> = Vec::new();
    let mut k = lo;
    while k < hi
        invariant
            lo <= k <= hi <= b@.len(),
            r@ == b@.subrange(lo as int, k as int),
        decreases hi - k,
    {
        r.push(b[k]);
        proof {
            assert(r@ =~= b@.subrange(lo as int, k + 1));
        }
        k = k + 1;
    }
    r
}

/// The history items of a file's content at a commit (see
/// `history_item_ok`).
pub fn history_lines(commit: &str, display_path: &str, blob: &[u8]) -> (r: Vec<SearchItem>)
    ensures
        r@.len() == byte_lines(blob@).len(),
        forall|k: int| 0 <= k < r@.len() ==> history_item_ok(#[trigger] r@[k], commit@, display_path@, blob@, k),
{
    let path = sanitize_path_field(display_path);
    let mut out: Vec<SearchItem> = Vec::new();
    let mut start: usize = 0;
    let n = blob.len();
    proof {
        assert(blob@.skip(0) =~= blob@);
    }
    while start < n
        invariant
            start <= n == blob@.len(),
            path@ == sanitized(display_path@),
            out@.len() + byte_lines(blob@.skip(start as int)).len() == byte_lines(blob@).len(),
            forall|k: int| 0 <= k < out@.len() ==> history_item_ok(#[trigger] out@[k], commit@, display_path@, blob@, k),
            forall|j: int| 0 <= j < byte_lines(blob@.skip(start as int)).len() ==> #[trigger] byte_lines(blob@.skip(start as int))[j]
                == byte_lines(blob@)[out@.len() + j],
        decreases n - start,
    {
        let ghost rest = blob@.skip(start as int);
        let mut e = start;
        while e < n && blob[e] != 10
            invariant
                start <= e <= n == blob@.len(),
                rest == blob@.skip(start as int),
                first_newline(rest, 0) == first_newline(rest, e - start),
            decreases n - e,
        {
            e = e + 1;
        }
        let mut line = sub_bytes(blob, start, e);
        if line.len() > 0 && line[line.len() - 1] == 13 {
            line.pop();
        }
        let text = utf8_lossy(line.as_slice());
        let k = out.len();
        proof {
            lemma_byte_lines_len(blob@);
            lemma_first_newline(rest, 0);
            if e < n {
                assert(first_newline(rest, e - start) == Some(e - start));
                assert(byte_lines(rest) == seq![rest.take(e - start)] + byte_lines(rest.skip(e - start + 1)));
                assert(rest.take(e - start) =~= blob@.subrange(start as int, e as int));
                assert(rest.skip(e - start + 1) =~= blob@.skip(e + 1));
            } else {
                assert(first_newline(rest, e - start) is None);
                assert(rest.len() > 0);
                assert(byte_lines(rest) == seq![rest]);
                assert(rest =~= blob@.subrange(start as int, e as int));
                assert(blob@.skip(e as int) =~= Seq::<u8>::empty());
            }
            assert(byte_lines(rest)[0] == byte_lines(blob@)[k as int]);
            assert(k < byte_lines(blob@).len());
        }
        out.push(SearchItem::history_line(commit, path.as_str(), k + 1, text.as_str()));
        proof {
            let nrest = blob@.skip(if e < n { e + 1 } else { e as int });
            assert forall|j: int| 0 <= j < byte_lines(nrest).len() implies #[trigger] byte_lines(nrest)[j]
                == byte_lines(blob@)[out@.len() + j] by {
                assert(byte_lines(nrest)[j] == byte_lines(rest)[j + 1]);
            }
        }
        start = if e < n { e + 1 } else { e };
    }
    proof {
        assert(blob@.skip(start as int) =~= Seq::<u8>::empty());
    }
    out
}

/// The git arguments that list a file's commits, following renames.
pub fn history_log_args(file: &str) -> (r: Vec<String>)
    ensures
        strings_view(r@) == seq!["log"@, "--format=%H"@, "--follow"@, "--"@, file@],
{
    let r = vec![
        to_owned_string("log"),
        to_owned_string("--format=%H"),
        to_owned_string("--follow"),
        to_owned_string("--"),
        to_owned_string(file),
    ];
    proof {
        assert(strings_view(r@) =~= seq!["log"@, "--format=%H"@, "--follow"@, "--"@, file@]);
    }
    r
}

/// Whether a file's content is text to list line by line (it holds no NUL
/// byte).
pub fn is_text_blob(blob: &[u8]) -> (b: bool)
    ensures
        b == !blob@.contains(0u8),
{
    let mut i: usize = 0;
    while i < blob.len()
        invariant
            i <= blob@.len(),
            forall|j: int| 0 <= j < i ==> blob@[j] != 0,
        decreases blob@.len() - i,
    {
        if blob[i] == 0 {
            proof {
                assert(blob@[i as int] == 0u8);
            }
            return false;
        }
        i = i + 1;
    }
    proof {
        if blob@.contains(0u8) {
            let j = choose|j: int| 0 <= j < blob@.len() && blob@[j] == 0u8;
            assert(blob@[j] != 0);
        }
    }
    true
}

/// The git arguments that list the local branches, most recently
/// committed first: head marker, name, commit, subject and relative date,
/// separated by `FIELD_SEPARATOR`.
pub fn branch_list_args() -> (r: Vec<String>)
    ensures
        strings_view(r@) == seq!["for-each-ref"@, "--sort=-committerdate"@,
            "--format=%(HEAD)\u{1e}%(refname:short)\u{1e}%(objectname:short)\u{1e}%(contents:subject)\u{1e}%(committerdate:relative)"@,
            "refs/heads"@],
{
    let r = vec![
        to_owned_string("for-each-ref"),
        to_owned_string("--sort=-committerdate"),
        to_owned_string("--format=%(HEAD)\u{1e}%(refname:short)\u{1e}%(objectname:short)\u{1e}%(contents:subject)\u{1e}%(committerdate:relative)"),
        to_owned_string("refs/heads"),
    ];
    proof {
        assert(strings_view(r@) =~= seq!["for-each-ref"@, "--sort=-committerdate"@,
            "--format=%(HEAD)\u{1e}%(refname:short)\u{1e}%(objectname:short)\u{1e}%(contents:subject)\u{1e}%(committerdate:relative)"@,
            "refs/heads"@]);
    }
    r
}

/// The git arguments that list the commits: hash, short hash, subject,
/// author, relative date and refs, separated by `FIELD_SEPARATOR`.
pub fn commit_list_args() -> (r: Vec<String>)
    ensures
        strings_view(r@) == seq!["log"@, "--date=short"@, "--format=%H\u{1e}%h\u{1e}%s\u{1e}%an\u{1e}%ar\u{1e}%D"@],
{
    let r = vec![
        to_owned_string("log"),
        to_owned_string("--date=short"),
        to_owned_string("--format=%H\u{1e}%h\u{1e}%s\u{1e}%an\u{1e}%ar\u{1e}%D"),
    ];
    proof {
        assert(strings_view(r@) =~= seq!["log"@, "--date=short"@, "--format=%H\u{1e}%h\u{1e}%s\u{1e}%an\u{1e}%ar\u{1e}%D"@]);
    }
    r
}

} // verus!

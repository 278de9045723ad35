//! Headless output: search results written as text, with the matched
//! chars colored for a terminal.
use vstd::prelude::*;
use crate::chars::{chars_of, decimal, push_char, push_str, to_owned_string, usize_to_string};
use crate::editor::trim_newlines;
use crate::search_types::SearchItem;

verus! {

/// Starts cyan text.
pub open spec fn color_start() -> Seq<char> {
    seq!['\u{1b}', '[', '3', '6', 'm']
}

/// Ends colored text.
pub open spec fn color_reset() -> Seq<char> {
    seq!['\u{1b}', '[', '0', 'm']
}

/// Starts dim text.
pub open spec fn dim_start() -> Seq<char> {
    seq!['\u{1b}', '[', '2', 'm']
}

/// Char index `k` is among the match indices.
pub open spec fn is_matched(idx: Seq<u32>, k: int) -> bool {
    exists|j: int| 0 <= j < idx.len() && idx[j] as int == k
}

/// `t` from index `k` on, with each run of matched chars wrapped in color
/// codes (`in_match`: a run is open before `k`).
pub open spec fn colorized(t: Seq<char>, idx: Seq<u32>, k: int, in_match: bool) -> Seq<char>
    decreases t.len() - k,
{
    if k < 0 || k >= t.len() {
        if in_match { color_reset() } else { seq![] }
    } else {
        let m = is_matched(idx, k);
        let pre = if m && !in_match {
            color_start()
        } else if !m && in_match {
            color_reset()
        } else {
            seq![]
        };
        pre.push(t[k]) + colorized(t, idx, k + 1, m)
    }
}

/// `t` with its matched chars colored.
pub open spec fn colorize(t: Seq<char>, idx: Seq<u32>) -> Seq<char> {
    if idx.len() == 0 { t } else { colorized(t, idx, 0, false) }
}

fn matched(indices: &[u32], k: usize) -> (b: bool)
    ensures
        b == is_matched(indices@, k as int),
{
    let mut j: usize = 0;
    while j < indices.len()
        invariant
            j <= indices@.len(),
            forall|x: int| 0 <= x < j ==> indices@[x] as int != k,
        decreases indices.len() - j,
    {
        if indices[j] as usize == k {
            return true;
        }
        j = j + 1;
    }
    false
}

/// `text` with each run of chars whose index is in `indices` wrapped in
/// color codes.
pub fn colorize_chars(text: &str, indices: &[u32]) -> (r: String)
    ensures
        r@ == colorize(text@, indices@),
{
    if indices.len() == 0 {
        return crate::chars::to_owned_string(text);
    }
    let v = chars_of(text);
    let ghost t = text@;
    let mut result = String::new();
    let mut in_match = false;
    let mut k: usize = 0;
    while k < v.len()
        invariant
            v@ == t,
            k <= v@.len(),
            result@ + colorized(t, indices@, k as int, in_match) == colorized(t, indices@, 0, false),
        decreases v.len() - k,
    {
        let is_match = matched(indices, k);
        let ghost before = result@;
        let ghost was = in_match;
        if is_match && !in_match {
            push_str(&mut result, "\x1b[36m");
            proof {
                reveal_strlit("\x1b[36m");
                assert("\x1b[36m"@ =~= color_start());
            }
            in_match = true;
        } else if !is_match && in_match {
            push_str(&mut result, "\x1b[0m");
            proof {
                reveal_strlit("\x1b[0m");
                assert("\x1b[0m"@ =~= color_reset());
            }
            in_match = false;
        }
        push_char(&mut result, v[k]);
        proof {
            let pre = if is_match && !was {
                color_start()
            } else if !is_match && was {
                color_reset()
            } else {
                seq![]
            };
            assert(result@ =~= before + pre.push(t[k as int]));
            assert(colorized(t, indices@, k as int, was) == pre.push(t[k as int]) + colorized(t, indices@, k + 1, is_match));
            assert(before + colorized(t, indices@, k as int, was) =~= result@ + colorized(t, indices@, k + 1, in_match));
        }
        k = k + 1;
    }
    if in_match {
        push_str(&mut result, "\x1b[0m");
        proof {
            reveal_strlit("\x1b[0m");
            assert("\x1b[0m"@ =~= color_reset());
        }
    }
    proof {
        assert(result@ =~= colorized(t, indices@, 0, false));
    }
    result
}

/// The indices below `n`, in order.
pub open spec fn indices_below(idx: Seq<u32>, n: int) -> Seq<u32>
    decreases idx.len(),
{
    if idx.len() == 0 {
        seq![]
    } else {
        indices_below(idx.drop_last(), n) + if (idx.last() as int) < n { seq![idx.last()] } else { seq![] }
    }
}

/// The indices at or past `p`, shifted down by `p`, in order.
pub open spec fn indices_from(idx: Seq<u32>, p: int) -> Seq<u32>
    decreases idx.len(),
{
    if idx.len() == 0 {
        seq![]
    } else {
        indices_from(idx.drop_last(), p) + if idx.last() as int >= p {
            seq![(idx.last() - p) as u32]
        } else {
            seq![]
        }
    }
}

/// The colored line of a matched item: plain items with their matched
/// chars colored; in content mode a grep item as `path:line:content` (with
/// a dim column when given), the matches split between the path and the
/// content. Any other item is written as the plain formatter writes it,
/// `plain`.
pub open spec fn colored_result(item: SearchItem, idx: Seq<u32>, column: Option<usize>, is_content_mode: bool, plain: Seq<char>) -> Seq<char> {
    match item {
        SearchItem::Stdin(text) => colorize(text@, idx),
        SearchItem::Message(text) => colorize(text@, idx),
        SearchItem::Path(path) => colorize(path@, idx),
        SearchItem::Grep { path, line, text } => if is_content_mode {
            let num = decimal(line as nat);
            let prefix = path@.len() + 1 + num.len() + 1;
            let head = colorize(path@, indices_below(idx, path@.len() as int)) + ":"@ + num + ":"@;
            let col = match column {
                Some(c) => dim_start() + decimal(c as nat) + color_reset() + ":"@,
                None => seq![],
            };
            head + col + colorize(trim_newlines(text@), indices_from(idx, prefix as int))
        } else {
            plain
        },
        _ => plain,
    }
}

fn split_indices(indices: &[u32], n: usize, p: usize) -> (r: (Vec<u32>, Vec<u32>))
    ensures
        r.0@ == indices_below(indices@, n as int),
        r.1@ == indices_from(indices@, p as int),
{
    let mut below: Vec<u32> = Vec::new();
    let mut from: Vec<u32> = Vec::new();
    let mut j: usize = 0;
    while j < indices.len()
        invariant
            j <= indices@.len(),
            below@ == indices_below(indices@.take(j as int), n as int),
            from@ == indices_from(indices@.take(j as int), p as int),
        decreases indices.len() - j,
    {
        let i = indices[j];
        proof {
            assert(indices@.take(j + 1).drop_last() =~= indices@.take(j as int));
        }
        if (i as usize) < n {
            below.push(i);
        }
        if i as usize >= p {
            from.push((i as usize - p) as u32);
        }
        proof {
            assert(below@ =~= indices_below(indices@.take(j + 1), n as int));
            assert(from@ =~= indices_from(indices@.take(j + 1), p as int));
        }
        j = j + 1;
    }
    proof {
        assert(indices@.take(indices@.len() as int) =~= indices@);
    }
    (below, from)
}

fn trim_newlines_str(s: &str) -> (r: String)
    ensures
        r@ == trim_newlines(s@),
{
    let v = chars_of(s);
    let mut n = v.len();
    proof {
        assert(v@.take(n as int) =~= v@);
    }
    while n > 0 && (v[n - 1] == '\n' || v[n - 1] == '\r')
        invariant
            n <= v@.len(),
            trim_newlines(v@) == trim_newlines(v@.take(n as int)),
        decreases n,
    {
        assert(v@.take(n as int).drop_last() =~= v@.take(n - 1));
        n = n - 1;
    }
    proof {
        assert(v@.subrange(0, n as int) =~= v@.take(n as int));
    }
    crate::chars::string_from_chars(v.as_slice(), 0, n)
}

/// The colored output line of a matched item (see `colored_result`);
/// `plain` is the item's line as the plain formatter writes it (with its
/// column, without color), which git items and grep items outside content
/// mode are written as.
pub fn format_colored_result(item: &SearchItem, indices: &[u32], column: Option<usize>, is_content_mode: bool, plain: &str) -> (r: String)
    requires
        item matches SearchItem::Grep { path, line, .. } ==> path@.len() + decimal(line as nat).len() + 2
            <= usize::MAX,
    ensures
        r@ == colored_result(*item, indices@, column, is_content_mode, plain@),
{
    match item {
        SearchItem::Stdin(text) => colorize_chars(text.as_str(), indices),
        SearchItem::Message(text) => colorize_chars(text.as_str(), indices),
        SearchItem::Path(path) => colorize_chars(path.as_str(), indices),
        SearchItem::Grep { path, line, text } => {
            if !is_content_mode {
                return to_owned_string(plain);
            }
            let line_num = usize_to_string(*line);
            let content = trim_newlines_str(text.as_str());
            let path_char_len = path.as_str().unicode_len();
            let num_len = line_num.as_str().unicode_len();
            let prefix_char_len = path_char_len + 1 + num_len + 1;
            let (path_indices, content_indices) = split_indices(indices, path_char_len, prefix_char_len);
            let colored_path = colorize_chars(path.as_str(), path_indices.as_slice());
            let colored_content = colorize_chars(content.as_str(), content_indices.as_slice());
            let mut out = colored_path;
            push_str(&mut out, ":");
            push_str(&mut out, line_num.as_str());
            push_str(&mut out, ":");
            if let Some(col) = column {
                push_str(&mut out, "\x1b[2m");
                let c = usize_to_string(col);
                push_str(&mut out, c.as_str());
                push_str(&mut out, "\x1b[0m");
                push_str(&mut out, ":");
                proof {
                    reveal_strlit("\x1b[2m");
                    reveal_strlit("\x1b[0m");
                    assert("\x1b[2m"@ =~= dim_start());
                    assert("\x1b[0m"@ =~= color_reset());
                }
            }
            push_str(&mut out, colored_content.as_str());
            proof {
                assert(out@ =~= colored_result(*item, indices@, column, is_content_mode, plain@));
            }
            out
        },
        _ => to_owned_string(plain),
    }
}

} // verus!

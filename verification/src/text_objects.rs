//! Text objects of the preview editor: the inside of quotes, of bracket
//! pairs and of the word under the cursor.
use vstd::prelude::*;
use crate::buffer::{spec_lines, lemma_lines_bounds, lemma_lines_shape, TextBuffer};
use crate::chars::{byte_offset, char_index_of, is_boundary, spec_is_alphanumeric, is_alphanumeric, chars_of};
use crate::editor::{App, text_of, line_of, get_line_content, pos_line, pos_col};
use crate::motion::{at_index, first_from, last_before, not_blank, is_char};

verus! {

/// The char index where the backward scans of the text objects start: the
/// cursor's char; with the cursor past its line, the end of the previous
/// line (or, for the column `usize::MAX`, the last char of the line); -1
/// when there is none.
pub open spec fn back_start(s: Seq<char>, line: int, col: int) -> int {
    let lines = spec_lines(s);
    if 0 <= line < lines.len() {
        let r = lines[line];
        if col < r.1 - r.0 {
            r.0 + col
        } else if col == usize::MAX && r.1 > r.0 {
            r.1 - 1
        } else {
            r.0 - 1
        }
    } else {
        -1
    }
}

/// A `q` at index `k` that no backslash escapes.
pub open spec fn unescaped_quote_at(s: Seq<char>, k: int, q: char) -> bool {
    s[k] == q && !(k > 0 && s[k - 1] == '\\')
}

/// The last unescaped `q` at or before index `k`.
pub open spec fn quote_back(s: Seq<char>, k: int, q: char) -> Option<int>
    decreases k + 1,
{
    if k < 0 || k >= s.len() {
        None
    } else if unescaped_quote_at(s, k, q) {
        Some(k)
    } else {
        quote_back(s, k - 1, q)
    }
}

/// The first unescaped `q` at or after index `k`.
pub open spec fn quote_fwd(s: Seq<char>, k: int, q: char) -> Option<int>
    decreases s.len() - k,
{
    if k < 0 || k >= s.len() {
        None
    } else if unescaped_quote_at(s, k, q) {
        Some(k)
    } else {
        quote_fwd(s, k + 1, q)
    }
}

/// Scanning backward from `k` with `depth` closing brackets to balance: the
/// index of the unbalanced `open`.
pub open spec fn pair_back(s: Seq<char>, open: char, close: char, k: int, depth: nat) -> Option<int>
    decreases k + 1,
{
    if k < 0 || k >= s.len() {
        None
    } else if s[k] == close {
        pair_back(s, open, close, k - 1, depth + 1)
    } else if s[k] == open {
        if depth == 0 {
            Some(k)
        } else {
            pair_back(s, open, close, k - 1, (depth - 1) as nat)
        }
    } else {
        pair_back(s, open, close, k - 1, depth)
    }
}

/// Scanning forward from `k` with `depth` opening brackets to balance: the
/// index of the unbalanced `close`.
pub open spec fn pair_fwd(s: Seq<char>, open: char, close: char, k: int, depth: nat) -> Option<int>
    decreases s.len() - k,
{
    if k < 0 || k >= s.len() {
        None
    } else if s[k] == open {
        pair_fwd(s, open, close, k + 1, depth + 1)
    } else if s[k] == close {
        if depth == 0 {
            Some(k)
        } else {
            pair_fwd(s, open, close, k + 1, (depth - 1) as nat)
        }
    } else {
        pair_fwd(s, open, close, k + 1, depth)
    }
}

/// The char indices of the inside of delimiters at `a` and `e`: from the
/// char after `a` to the char before `e`, or just the char after `a` when
/// nothing lies between them.
pub open spec fn inner_of(a: int, e: int) -> (int, int) {
    if e - 1 >= a + 1 {
        (a + 1, e - 1)
    } else {
        (a + 1, a + 1)
    }
}

/// The inside of the quotes `q` around the cursor, as char indices.
pub open spec fn quote_range(s: Seq<char>, line: int, col: int, q: char) -> Option<(int, int)> {
    match quote_back(s, back_start(s, line, col), q) {
        None => None,
        Some(a) => match quote_fwd(s, a + 1, q) {
            None => None,
            Some(e) => Some(inner_of(a, e)),
        },
    }
}

/// The inside of the `open`/`close` pair around the cursor found by
/// scanning the text, as char indices. The forward scan starts on the
/// opening bracket itself, so it counts that bracket and stops at the next
/// unbalanced closing one.
pub open spec fn pair_scan_range(s: Seq<char>, line: int, col: int, open: char, close: char) -> Option<(int, int)> {
    match pair_back(s, open, close, back_start(s, line, col), 0) {
        None => None,
        Some(a) => match pair_fwd(s, open, close, a, 0) {
            None => None,
            Some(e) => Some(inner_of(a, e)),
        },
    }
}

/// `r` holds the positions of the char indices `x` and `y` of `s`.
pub open spec fn range_at(s: Seq<char>, r: ((usize, usize), (usize, usize)), x: int, y: int) -> bool {
    let ((a, b), (c, d)) = r;
    at_index(s, a as int, b as int, x) && at_index(s, c as int, d as int, y)
}

/// The result of a text object search: positions of the char indices of
/// `spec`, or nothing.
pub open spec fn object_result(d: Option<Seq<char>>, spec: Option<(int, int)>, r: Option<((usize, usize), (usize, usize))>) -> bool {
    match spec {
        Some(p) => d is Some && r is Some && range_at(d->0, r->0, p.0, p.1),
        None => r is None,
    }
}

proof fn lemma_quote_back_bounds(s: Seq<char>, k: int, q: char)
    ensures
        quote_back(s, k, q) is Some ==> 0 <= quote_back(s, k, q)->0 <= k && quote_back(s, k, q)->0 < s.len()
            && unescaped_quote_at(s, quote_back(s, k, q)->0, q),
    decreases k + 1,
{
    if 0 <= k < s.len() && !unescaped_quote_at(s, k, q) {
        lemma_quote_back_bounds(s, k - 1, q);
    }
}

proof fn lemma_quote_fwd_bounds(s: Seq<char>, k: int, q: char)
    ensures
        quote_fwd(s, k, q) is Some ==> k <= quote_fwd(s, k, q)->0 < s.len()
            && unescaped_quote_at(s, quote_fwd(s, k, q)->0, q)
            && forall|j: int| k <= j < quote_fwd(s, k, q)->0 ==> !#[trigger] unescaped_quote_at(s, j, q),
    decreases s.len() - k,
{
    if 0 <= k < s.len() && !unescaped_quote_at(s, k, q) {
        lemma_quote_fwd_bounds(s, k + 1, q);
    }
}

proof fn lemma_pair_back_bounds(s: Seq<char>, open: char, close: char, k: int, depth: nat)
    ensures
        pair_back(s, open, close, k, depth) is Some ==> 0 <= pair_back(s, open, close, k, depth)->0 <= k
            && pair_back(s, open, close, k, depth)->0 < s.len()
            && s[pair_back(s, open, close, k, depth)->0] == open,
    decreases k + 1,
{
    if 0 <= k < s.len() {
        if s[k] == close {
            lemma_pair_back_bounds(s, open, close, k - 1, depth + 1);
        } else if s[k] == open {
            if depth > 0 {
                lemma_pair_back_bounds(s, open, close, k - 1, (depth - 1) as nat);
            }
        } else {
            lemma_pair_back_bounds(s, open, close, k - 1, depth);
        }
    }
}

proof fn lemma_pair_fwd_bounds(s: Seq<char>, open: char, close: char, k: int, depth: nat)
    ensures
        pair_fwd(s, open, close, k, depth) is Some ==> k <= pair_fwd(s, open, close, k, depth)->0 < s.len()
            && s[pair_fwd(s, open, close, k, depth)->0] == close,
    decreases s.len() - k,
{
    if 0 <= k < s.len() {
        if s[k] == open {
            lemma_pair_fwd_bounds(s, open, close, k + 1, depth + 1);
        } else if s[k] == close {
            if depth > 0 {
                lemma_pair_fwd_bounds(s, open, close, k + 1, (depth - 1) as nat);
            }
        } else {
            lemma_pair_fwd_bounds(s, open, close, k + 1, depth);
        }
    }
}

/// The inside of quotes never holds a quote of its own: the range starts
/// right after an unescaped quote, and the closing quote (the first
/// unescaped one from the range start on) lies just past the range end. It
/// is the range start itself only for empty quotes, where the range is that
/// one char.
pub proof fn lemma_inner_quote_excludes_quotes(s: Seq<char>, line: int, col: int, q: char)
    requires
        quote_range(s, line, col, q) is Some,
    ensures
        ({
            let (x, y) = quote_range(s, line, col, q)->0;
            &&& 1 <= x
            &&& unescaped_quote_at(s, x - 1, q)
            &&& quote_fwd(s, x, q) is Some
            &&& unescaped_quote_at(s, quote_fwd(s, x, q)->0, q)
            &&& (quote_fwd(s, x, q)->0 > x ==> x <= y && y + 1 == quote_fwd(s, x, q)->0)
            &&& (quote_fwd(s, x, q)->0 == x ==> y == x)
            &&& forall|k: int| x <= k <= y && k < quote_fwd(s, x, q)->0 ==> !#[trigger] unescaped_quote_at(s, k, q)
        }),
{
    let a = quote_back(s, back_start(s, line, col), q)->0;
    lemma_quote_back_bounds(s, back_start(s, line, col), q);
    lemma_quote_fwd_bounds(s, a + 1, q);
}

/// The inside of a bracket pair found by scanning starts right after the
/// opening bracket and ends just before the matching closing bracket (the
/// one the forward scan from the opening bracket stops at); only for an
/// empty pair is the range the closing bracket's one char.
pub proof fn lemma_inner_pair_excludes_brackets(s: Seq<char>, line: int, col: int, open: char, close: char)
    requires
        pair_scan_range(s, line, col, open, close) is Some,
    ensures
        ({
            let (x, y) = pair_scan_range(s, line, col, open, close)->0;
            &&& 1 <= x
            &&& s[x - 1] == open
            &&& pair_fwd(s, open, close, x - 1, 0) is Some
            &&& s[pair_fwd(s, open, close, x - 1, 0)->0] == close
            &&& x <= pair_fwd(s, open, close, x - 1, 0)->0
            &&& (pair_fwd(s, open, close, x - 1, 0)->0 > x ==> x <= y && y + 1 == pair_fwd(s, open, close, x - 1, 0)->0)
            &&& (pair_fwd(s, open, close, x - 1, 0)->0 == x ==> y == x)
        }),
{
    let a = pair_back(s, open, close, back_start(s, line, col), 0)->0;
    lemma_pair_back_bounds(s, open, close, back_start(s, line, col), 0);
    lemma_pair_fwd_bounds(s, open, close, a, 0);
    lemma_pair_fwd_bounds(s, open, close, a + 1, 1);
}

/// The positions of the inside of the delimiters at char indices `a` and
/// `e` (`a < e`).
fn adjust_inner_range(buf: &TextBuffer, a: usize, e: usize) -> (r: ((usize, usize), (usize, usize)))
    requires
        a < e < buf@.len(),
    ensures
        range_at(buf@, r, inner_of(a as int, e as int).0, inner_of(a as int, e as int).1),
{
    let inner_start = crate::motion::position_of_index(buf, a + 1);
    if e - 1 >= a + 1 {
        let inner_end = crate::motion::position_of_index(buf, e - 1);
        (inner_start, inner_end)
    } else {
        (inner_start, inner_start)
    }
}

/// The char index the backward scans start from, shifted by one (0 when
/// there is none).
fn back_start_exec(buf: &TextBuffer, line: usize, col: usize) -> (k1: usize)
    ensures
        k1 == back_start(buf@, line as int, col as int) + 1,
{
    let ghost s = buf@;
    proof {
        lemma_lines_bounds(s);
    }
    match buf.line_char_range(line) {
        Some(r) => {
            proof {
                assert(0 <= spec_lines(s)[line as int].0 <= spec_lines(s)[line as int].1 <= s.len());
            }
            if col < r.1 - r.0 {
                r.0 + col + 1
            } else if col == usize::MAX && r.1 > r.0 {
                r.1
            } else {
                r.0
            }
        },
        None => 0,
    }
}

/// The inside of the quotes `quote` around the cursor (`i"`, `i'`): from
/// the last unescaped quote at or before the cursor to the next unescaped
/// one.
pub fn find_inner_quote_range(app: &App, quote: char) -> (r: Option<((usize, usize), (usize, usize))>)
    ensures
        object_result(
            text_of(app),
            match text_of(app) {
                Some(s) => quote_range(s, app.state.cursor_line as int, app.state.cursor_char as int, quote),
                None => None,
            },
            r,
        ),
{
    let doc = match &app.content {
        Some(d) => d,
        None => return None,
    };
    let buf = &doc.buffer;
    let ghost s = buf@;
    let v = buf.chars();
    let n = v.len();
    let mut k = back_start_exec(buf, app.state.cursor_line, app.state.cursor_char);
    proof {
        lemma_lines_bounds(s);
        let line = app.state.cursor_line as int;
        if 0 <= line < spec_lines(s).len() {
            assert(0 <= spec_lines(s)[line].0 <= spec_lines(s)[line].1 <= s.len());
        }
    }
    let ghost ks = k as int - 1;
    let mut start: Option<usize> = None;
    while k > 0
        invariant_except_break
            start is None,
        invariant
            v@ == s,
            n == s.len(),
            k <= n,
            quote_back(s, k - 1, quote) == quote_back(s, ks, quote),
        ensures
            match start {
                Some(a) => quote_back(s, ks, quote) == Some(a as int),
                None => quote_back(s, ks, quote) is None,
            },
        decreases k,
    {
        let i = k - 1;
        if v[i] == quote && !(i > 0 && v[i - 1] == '\\') {
            start = Some(i);
            break ;
        }
        k = k - 1;
    }
    let a = match start {
        Some(a) => a,
        None => return None,
    };
    proof {
        lemma_quote_back_bounds(s, ks, quote);
    }
    let mut j = a + 1;
    let mut end: Option<usize> = None;
    while j < n
        invariant_except_break
            end is None,
        invariant
            v@ == s,
            n == s.len(),
            a < j,
            quote_fwd(s, j as int, quote) == quote_fwd(s, a + 1, quote),
        ensures
            match end {
                Some(e) => quote_fwd(s, a + 1, quote) == Some(e as int),
                None => quote_fwd(s, a + 1, quote) is None,
            },
        decreases n - j,
    {
        if v[j] == quote && !(j > 0 && v[j - 1] == '\\') {
            end = Some(j);
            break ;
        }
        j = j + 1;
    }
    proof {
        lemma_quote_fwd_bounds(s, a + 1, quote);
    }
    match end {
        Some(e) => Some(adjust_inner_range(buf, a, e)),
        None => None,
    }
}

/// The inside of the `open`/`close` pair around the cursor found by
/// scanning the text (when no syntax tree decides).
fn find_inner_pair_range_fallback(app: &App, open: char, close: char) -> (r: Option<((usize, usize), (usize, usize))>)
    ensures
        object_result(
            text_of(app),
            match text_of(app) {
                Some(s) => pair_scan_range(s, app.state.cursor_line as int, app.state.cursor_char as int, open, close),
                None => None,
            },
            r,
        ),
{
    let doc = match &app.content {
        Some(d) => d,
        None => return None,
    };
    let buf = &doc.buffer;
    let ghost s = buf@;
    let v = buf.chars();
    let n = v.len();
    let mut k = back_start_exec(buf, app.state.cursor_line, app.state.cursor_char);
    proof {
        lemma_lines_bounds(s);
        let line = app.state.cursor_line as int;
        if 0 <= line < spec_lines(s).len() {
            assert(0 <= spec_lines(s)[line].0 <= spec_lines(s)[line].1 <= s.len());
        }
    }
    let ghost ks = k as int - 1;
    let mut depth: usize = 0;
    let mut start: Option<usize> = None;
    while k > 0
        invariant_except_break
            start is None,
        invariant
            v@ == s,
            n == s.len(),
            k <= n,
            ks + 1 <= n,
            k + depth <= ks + 1,
            pair_back(s, open, close, k - 1, depth as nat) == pair_back(s, open, close, ks, 0),
        ensures
            match start {
                Some(a) => pair_back(s, open, close, ks, 0) == Some(a as int),
                None => pair_back(s, open, close, ks, 0) is None,
            },
        decreases k,
    {
        let c = v[k - 1];
        if c == close {
            depth = depth + 1;
        } else if c == open {
            if depth == 0 {
                start = Some(k - 1);
                break ;
            }
            depth = depth - 1;
        }
        k = k - 1;
    }
    let a = match start {
        Some(a) => a,
        None => return None,
    };
    proof {
        lemma_pair_back_bounds(s, open, close, ks, 0);
    }
    let mut j = a;
    depth = 0;
    let mut end: Option<usize> = None;
    while j < n
        invariant_except_break
            end is None,
        invariant
            v@ == s,
            n == s.len(),
            a <= j,
            depth <= j - a,
            pair_fwd(s, open, close, j as int, depth as nat) == pair_fwd(s, open, close, a as int, 0),
        ensures
            match end {
                Some(e) => pair_fwd(s, open, close, a as int, 0) == Some(e as int),
                None => pair_fwd(s, open, close, a as int, 0) is None,
            },
        decreases n - j,
    {
        let c = v[j];
        if c == open {
            depth = depth + 1;
        } else if c == close {
            if depth == 0 {
                end = Some(j);
                break ;
            }
            depth = depth - 1;
        }
        j = j + 1;
    }
    proof {
        lemma_pair_fwd_bounds(s, open, close, a + 1, 1);
        lemma_pair_fwd_bounds(s, open, close, a as int, 0);
    }
    match end {
        Some(e) => Some(adjust_inner_range(buf, a, e)),
        None => None,
    }
}

/// A char of a word: alphanumeric or `_`.
pub open spec fn is_word_char(c: char) -> bool {
    spec_is_alphanumeric(c) || c == '_'
}

/// The start of the word run that reaches index `i` of `l`.
pub open spec fn word_start(l: Seq<char>, i: int) -> int
    decreases i,
{
    if i > 0 && i <= l.len() && is_word_char(l[i - 1]) {
        word_start(l, i - 1)
    } else {
        i
    }
}

/// The end (last index) of the word run that reaches index `i` of `l`.
pub open spec fn word_end(l: Seq<char>, i: int) -> int
    decreases l.len() - i,
{
    if 0 <= i && i + 1 < l.len() && is_word_char(l[i + 1]) {
        word_end(l, i + 1)
    } else {
        i
    }
}

/// The columns of the first and last chars of the word under the cursor,
/// when the cursor is on a word char.
pub open spec fn word_bounds(app: &App) -> Option<(int, int)> {
    match line_of(app, app.state.cursor_line as int) {
        Some(l) => {
            let c = app.state.cursor_char as int;
            if c < l.len() && is_word_char(l[c]) {
                Some((word_start(l, c), word_end(l, c)))
            } else {
                None
            }
        },
        None => None,
    }
}

proof fn lemma_word_bounds(l: Seq<char>, i: int)
    requires
        0 <= i < l.len(),
    ensures
        0 <= word_start(l, i) <= i,
        i <= word_end(l, i) < l.len(),
    decreases l.len() + i,
{
    lemma_word_start(l, i);
    lemma_word_end(l, i);
}

proof fn lemma_word_start(l: Seq<char>, i: int)
    requires
        0 <= i < l.len(),
    ensures
        0 <= word_start(l, i) <= i,
        forall|k: int| word_start(l, i) <= k < i ==> is_word_char(#[trigger] l[k]),
        word_start(l, i) == 0 || !is_word_char(l[word_start(l, i) - 1]),
    decreases i,
{
    if i > 0 && is_word_char(l[i - 1]) {
        lemma_word_start(l, i - 1);
    }
}

proof fn lemma_word_end(l: Seq<char>, i: int)
    requires
        0 <= i < l.len(),
    ensures
        i <= word_end(l, i) < l.len(),
        forall|k: int| i < k <= word_end(l, i) ==> is_word_char(#[trigger] l[k]),
        word_end(l, i) + 1 == l.len() || !is_word_char(l[word_end(l, i) + 1]),
    decreases l.len() - i,
{
    if i + 1 < l.len() && is_word_char(l[i + 1]) {
        lemma_word_end(l, i + 1);
    }
}

/// The inner word is the whole run of word chars under the cursor: it
/// holds the cursor, every char of it is a word char, and the chars just
/// before and just after it (where the line has them) are not. Off a word
/// char there is no inner word.
pub proof fn lemma_inner_word_is_maximal_run(app: &App)
    ensures
        match word_bounds(app) {
            Some((a, b)) => {
                let l = line_of(app, app.state.cursor_line as int)->0;
                &&& line_of(app, app.state.cursor_line as int) is Some
                &&& 0 <= a <= app.state.cursor_char <= b < l.len()
                &&& forall|k: int| a <= k <= b ==> is_word_char(#[trigger] l[k])
                &&& (a == 0 || !is_word_char(l[a - 1]))
                &&& (b + 1 == l.len() || !is_word_char(l[b + 1]))
            },
            None => match line_of(app, app.state.cursor_line as int) {
                Some(l) => app.state.cursor_char >= l.len() || !is_word_char(l[app.state.cursor_char as int]),
                None => true,
            },
        },
{
    if let Some(l) = line_of(app, app.state.cursor_line as int) {
        let c = app.state.cursor_char as int;
        if c < l.len() && is_word_char(l[c]) {
            lemma_word_start(l, c);
            lemma_word_end(l, c);
        }
    }
}

fn word_bounds_at_cursor(app: &App) -> (r: Option<(usize, usize)>)
    ensures
        match word_bounds(app) {
            Some((a, b)) => r == Some((a as usize, b as usize)) && a == a as usize && b == b as usize,
            None => r is None,
        },
{
    let line_content = match get_line_content(app, app.state.cursor_line) {
        Some(l) => l,
        None => return None,
    };
    let chars = chars_of(line_content.as_str());
    let cursor_char = app.state.cursor_char;
    if cursor_char >= chars.len() {
        return None;
    }
    if !(is_alphanumeric(chars[cursor_char]) || chars[cursor_char] == '_') {
        return None;
    }
    let mut start = cursor_char;
    while start > 0 && (is_alphanumeric(chars[start - 1]) || chars[start - 1] == '_')
        invariant
            start <= cursor_char < chars@.len(),
            word_start(chars@, start as int) == word_start(chars@, cursor_char as int),
        decreases start,
    {
        start = start - 1;
    }
    let mut end = cursor_char;
    while end < chars.len() - 1 && (is_alphanumeric(chars[end + 1]) || chars[end + 1] == '_')
        invariant
            cursor_char <= end < chars@.len(),
            word_end(chars@, end as int) == word_end(chars@, cursor_char as int),
        decreases chars@.len() - end,
    {
        end = end + 1;
    }
    proof {
        lemma_word_bounds(chars@, cursor_char as int);
    }
    Some((start, end))
}

/// The word under the cursor (`iw`): its first and last positions.
pub fn find_inner_word_range(app: &App) -> (r: Option<((usize, usize), (usize, usize))>)
    ensures
        match word_bounds(app) {
            Some((a, b)) => r == Some(((app.state.cursor_line, a as usize), (app.state.cursor_line, b as usize))),
            None => r is None,
        },
{
    match word_bounds_at_cursor(app) {
        Some((start, end)) => Some(((app.state.cursor_line, start), (app.state.cursor_line, end))),
        None => None,
    }
}

/// Selects the word under the cursor: the selection starts at its first
/// char and the cursor goes to its last.
pub fn select_inner_word(app: &mut App)
    ensures
        match word_bounds(old(app)) {
            Some(p) => {
                &&& final(app).state.selection_start == Some((old(app).state.cursor_line, p.0 as usize))
                &&& final(app).state.cursor_line == old(app).state.cursor_line
                &&& final(app).state.cursor_char == p.1
                &&& final(app).content == old(app).content
                &&& final(app).state.undo_stack@ == old(app).state.undo_stack@
                &&& final(app).state.mode == old(app).state.mode
            },
            None => *final(app) == *old(app),
        },
{
    if let Some((start, end)) = word_bounds_at_cursor(app) {
        app.state.selection_start = Some((app.state.cursor_line, start));
        app.state.cursor_char = end;
    }
}

/// Line and column of char index `k` of `s`, counting lines by newlines.
pub open spec fn line_col(s: Seq<char>, k: int) -> (int, int) {
    (pos_line(s, k), pos_col(s, k))
}

/// A syntax node spanning the chars `t` qualifies when, trimmed of white
/// space, it starts with `open` and ends with `close`.
pub open spec fn node_qualifies(t: Seq<char>, open: char, close: char) -> bool {
    &&& t.len() > 0
    &&& first_from(t, 0, not_blank()) is Some
    &&& t[first_from(t, 0, not_blank())->0] == open
    &&& last_before(t, t.len() as int, not_blank()) is Some
    &&& t[last_before(t, t.len() as int, not_blank())->0] == close
}

/// The inside of the first qualifying node among `spans[k..]` (byte
/// ranges of the node at the cursor and of its ancestors), as
/// (line, column) pairs: from the char after the node's first `open` to the
/// char before its last `close`.
pub open spec fn tree_pair_range(s: Seq<char>, spans: Seq<(usize, usize)>, k: int, open: char, close: char) -> Option<((int, int), (int, int))>
    decreases spans.len() - k,
{
    if k < 0 || k >= spans.len() {
        None
    } else {
        let i = char_index_of(s, spans[k].0 as int);
        let j = char_index_of(s, spans[k].1 as int);
        let t = s.subrange(i, j);
        if node_qualifies(t, open, close) {
            let is = i + first_from(t, 0, is_char(open))->0 + 1;
            let ie = i + last_before(t, t.len() as int, is_char(close))->0;
            if is > ie {
                Some((line_col(s, is), line_col(s, is)))
            } else {
                Some((line_col(s, is), line_col(s, ie - 1)))
            }
        } else {
            tree_pair_range(s, spans, k + 1, open, close)
        }
    }
}

/// `r` holds the positions `p`.
pub open spec fn same_positions(r: ((usize, usize), (usize, usize)), p: ((int, int), (int, int))) -> bool {
    let ((x1, y1), (x2, y2)) = r;
    let ((a, b), (c, d)) = p;
    x1 == a && y1 == b && x2 == c && y2 == d
}

/// Every span lies on char boundaries of `s`, start before end.
pub open spec fn spans_in(s: Seq<char>, spans: Seq<(usize, usize)>) -> bool {
    forall|k: int|
        0 <= k < spans.len() ==> spans[k].0 <= spans[k].1 && is_boundary(s, #[trigger] spans[k].0 as int)
            && is_boundary(s, spans[k].1 as int)
}

pub proof fn lemma_ceil_at_boundary(s: Seq<char>, b: int)
    requires
        is_boundary(s, b),
    ensures
        crate::chars::ceil_index(s, b) == char_index_of(s, b),
        0 <= char_index_of(s, b) <= s.len(),
        byte_offset(s, char_index_of(s, b)) == b,
{
    let m = char_index_of(s, b);
    crate::chars::lemma_byte_offset_full(s);
    crate::chars::lemma_byte_offset_mono(s, m, s.len() as int);
    crate::chars::lemma_ceil_index(s, b);
    let k = crate::chars::ceil_index(s, b);
    if k < m {
        crate::chars::lemma_byte_offset_mono(s, k, m);
        if byte_offset(s, k) >= b {
            crate::chars::lemma_byte_offset_injective(s, k, m);
        }
    } else if k > m {
        crate::chars::lemma_byte_offset_mono(s, m, k - 1);
    }
}

/// Line and column of char index `k` of the text.
fn line_col_of(content: &str, v: &[char], k: usize) -> (r: (usize, usize))
    requires
        v@ == content@,
        k <= v@.len(),
        crate::chars::byte_len(v@) <= usize::MAX,
    ensures
        r.0 == pos_line(v@, k as int),
        r.1 == pos_col(v@, k as int),
{
    let b = crate::chars::byte_offset_of(v, k);
    proof {
        crate::buffer::lemma_char_index_of(v@, k as int);
    }
    crate::editor::get_line_char_from_byte(content, b)
}

/// The inside of the `open`/`close` pair around the cursor (`i(`, `i{`,
/// ...): taken from the innermost syntax node that spans such a pair, when
/// `spans` (the byte ranges of the node at the cursor and of its ancestors,
/// innermost first) has one; else found by scanning the text.
pub fn find_inner_pair_range(app: &App, open: char, close: char, spans: &[(usize, usize)]) -> (r: Option<((usize, usize), (usize, usize))>)
    requires
        text_of(app) is Some ==> spans_in(text_of(app)->0, spans@),
    ensures
        match text_of(app) {
            Some(s) => match tree_pair_range(s, spans@, 0, open, close) {
                Some(p) => r is Some && same_positions(r->0, p),
                None => object_result(
                    text_of(app),
                    pair_scan_range(s, app.state.cursor_line as int, app.state.cursor_char as int, open, close),
                    r,
                ),
            },
            None => r is None,
        },
{
    if let Some(doc) = &app.content {
        let ghost s = doc.buffer@;
        let content = doc.content();
        let v = doc.buffer.chars();
        let total = doc.len_bytes();
        let mut k: usize = 0;
        while k < spans.len()
            invariant
                s == doc.buffer@,
                text_of(app) == Some(s),
                v@ == s,
                content@ == s,
                total == crate::chars::byte_len(s),
                spans_in(s, spans@),
                k <= spans@.len(),
                tree_pair_range(s, spans@, k as int, open, close) == tree_pair_range(s, spans@, 0, open, close),
            decreases spans.len() - k,
        {
            let (sb, eb) = spans[k];
            proof {
                lemma_ceil_at_boundary(s, sb as int);
                lemma_ceil_at_boundary(s, eb as int);
                crate::chars::lemma_byte_offset_full(s);
                crate::chars::lemma_byte_offset_mono(s, char_index_of(s, sb as int), s.len() as int);
                crate::chars::lemma_byte_offset_mono(s, char_index_of(s, eb as int), s.len() as int);
                if char_index_of(s, eb as int) < char_index_of(s, sb as int) {
                    crate::chars::lemma_byte_offset_mono(s, char_index_of(s, eb as int), char_index_of(s, sb as int));
                }
                if sb < eb {
                    if char_index_of(s, eb as int) <= char_index_of(s, sb as int) {
                        crate::chars::lemma_byte_offset_mono(s, char_index_of(s, eb as int), char_index_of(s, sb as int));
                    }
                }
            }
            let i = crate::chars::ceil_char_index(v, sb);
            let j = crate::chars::ceil_char_index(v, eb);
            let ghost t = s.subrange(i as int, j as int);
            if eb > sb {
                // first and last chars of the node that are not white space
                let mut f = i;
                while f < j && crate::chars::is_whitespace(v[f])
                    invariant
                        i <= f <= j <= v@.len(),
                        t == v@.subrange(i as int, j as int),
                        first_from(t, 0, not_blank()) == first_from(t, f - i, not_blank()),
                    decreases j - f,
                {
                    f = f + 1;
                }
                let mut l = j;
                while l > i && crate::chars::is_whitespace(v[l - 1])
                    invariant
                        i <= l <= j <= v@.len(),
                        t == v@.subrange(i as int, j as int),
                        last_before(t, t.len() as int, not_blank()) == last_before(t, l - i, not_blank()),
                    decreases l,
                {
                    l = l - 1;
                }
                if f < j && l > i && v[f] == open && v[l - 1] == close {
                    let mut a = i;
                    while v[a] != open
                        invariant
                            i <= a <= f < j <= v@.len(),
                            v@[f as int] == open,
                            t == v@.subrange(i as int, j as int),
                            first_from(t, 0, is_char(open)) == first_from(t, a - i, is_char(open)),
                        decreases f - a,
                    {
                        a = a + 1;
                    }
                    let mut c = j;
                    while v[c - 1] != close
                        invariant
                            i < l <= c <= j <= v@.len(),
                            v@[l - 1] == close,
                            t == v@.subrange(i as int, j as int),
                            last_before(t, t.len() as int, is_char(close)) == last_before(t, c - i, is_char(close)),
                        decreases c,
                    {
                        c = c - 1;
                    }
                    let inner_start = a + 1;
                    let inner_end = c - 1;
                    proof {
                        assert(char_index_of(s, sb as int) == i);
                        assert(char_index_of(s, eb as int) == j);
                        assert(t.len() > 0);
                        assert(first_from(t, 0, not_blank()) == Some(f - i));
                        assert(last_before(t, t.len() as int, not_blank()) == Some(l - 1 - i));
                        assert(node_qualifies(t, open, close));
                        assert(first_from(t, 0, is_char(open)) == Some(a - i));
                        assert(last_before(t, t.len() as int, is_char(close)) == Some(c - 1 - i));
                    }
                    let start = line_col_of(content, v, inner_start);
                    if inner_start > inner_end {
                        return Some((start, start));
                    }
                    let end = line_col_of(content, v, inner_end - 1);
                    return Some((start, end));
                }
            }
            k = k + 1;
        }
    }
    find_inner_pair_range_fallback(app, open, close)
}

} // verus!

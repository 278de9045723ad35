//! Reading log lines into entries: logfmt (`key=value` pairs) and JSON
//! lines.
use vstd::prelude::*;
use crate::chars::{char_len, chars_of, is_whitespace, is_ws, push_char, string_from_chars, to_owned_string};
use crate::log_types::{LogEntry, LogFormat, fields_view};
use crate::log_format::{field_before, names_view, prioritised_fields, with_new_names};
use crate::search_types::{trim_ws, trim_str};

verus! {

/// `s` without leading white space (`str::trim_start`).
pub open spec fn trim_start_ws(s: Seq<char>) -> Seq<char>
    decreases s.len(),
{
    if s.len() > 0 && is_ws(s[0]) {
        trim_start_ws(s.drop_first())
    } else {
        s
    }
}

/// `s` without leading spaces.
pub open spec fn trim_start_spaces(s: Seq<char>) -> Seq<char>
    decreases s.len(),
{
    if s.len() > 0 && s[0] == ' ' {
        trim_start_spaces(s.drop_first())
    } else {
        s
    }
}

/// The first index at or after `i` holding `c`.
pub open spec fn index_of_from(s: Seq<char>, c: char, i: int) -> Option<int>
    decreases s.len() - i,
{
    if i < 0 || i >= s.len() {
        None
    } else if s[i] == c {
        Some(i)
    } else {
        index_of_from(s, c, i + 1)
    }
}

/// The closing quote of a quoted value `a` (`a[0]` is the opening quote):
/// the first quote after it not right after a backslash.
pub open spec fn quote_close_from(a: Seq<char>, j: int) -> Option<int>
    decreases a.len() - j,
{
    if j < 1 || j >= a.len() {
        None
    } else if a[j] == '"' && !(j >= 2 && a[j - 1] == '\\') {
        Some(j)
    } else {
        quote_close_from(a, j + 1)
    }
}

/// `v` with each backslash-quote replaced by a quote.
pub open spec fn unescape_quotes(v: Seq<char>) -> Seq<char>
    decreases v.len(),
{
    if v.len() == 0 {
        seq![]
    } else if v.len() >= 2 && v[0] == '\\' && v[1] == '"' {
        seq!['"'] + unescape_quotes(v.skip(2))
    } else {
        seq![v[0]] + unescape_quotes(v.drop_first())
    }
}

/// `a` starts a quoted value.
pub open spec fn is_quoted(a: Seq<char>) -> bool {
    a.len() > 0 && a[0] == '"'
}

/// Reading the value at the start of `a` does not slice through a char: a
/// quoted value's last char before the closing quote (or before the end,
/// unclosed) is a one-byte char after the opening quote.
pub open spec fn value_safe(a: Seq<char>) -> bool {
    !is_quoted(a) || match quote_close_from(a, 1) {
        Some(q) => q >= 2 && char_len(a[q - 1]) == 1,
        None => a.len() >= 2 && char_len(a.last()) == 1,
    }
}

/// The value at the start of `a` and the number of chars it takes: a
/// quoted value ends before the char preceding its closing quote (that
/// char is dropped) and the quote is consumed; an unquoted one runs to the
/// next space.
pub open spec fn value_part(a: Seq<char>) -> (Seq<char>, int) {
    if is_quoted(a) {
        match quote_close_from(a, 1) {
            Some(q) => (unescape_quotes(a.subrange(1, q - 1)), q + 1),
            None => (unescape_quotes(a.subrange(1, a.len() - 1)), a.len() as int),
        }
    } else {
        match index_of_from(a, ' ', 0) {
            Some(p) => (a.take(p), p),
            None => (a, a.len() as int),
        }
    }
}

/// The `key=value` pairs of `r` (keys trimmed, empty keys dropped);
/// `None` when a pair has no `=`.
pub open spec fn logfmt_pairs(r: Seq<char>) -> Option<Seq<(Seq<char>, Seq<char>)>>
    decreases r.len(),
{
    let t = trim_start_ws(r);
    if t.len() == 0 || t.len() > r.len() {
        Some(seq![])
    } else {
        match index_of_from(t, '=', 0) {
            None => None,
            Some(e) => if e < 0 || e >= t.len() {
                None
            } else {
                let key = trim_ws(t.take(e));
                let after = t.skip(e + 1);
                let (v, used) = value_part(after);
                let used_c = if used < 0 { 0 } else if used > after.len() { after.len() as int } else { used };
                let rest = trim_start_spaces(after.skip(used_c));
                if rest.len() >= r.len() {
                    None
                } else {
                    match logfmt_pairs(rest) {
                        None => None,
                        Some(tail) => Some((if key.len() > 0 { seq![(key, v)] } else { seq![] }) + tail),
                    }
                }
            },
        }
    }
}

/// Reading `r` as logfmt does not slice through a char.
pub open spec fn logfmt_safe(r: Seq<char>) -> bool
    decreases r.len(),
{
    let t = trim_start_ws(r);
    if t.len() == 0 || t.len() > r.len() {
        true
    } else {
        match index_of_from(t, '=', 0) {
            None => true,
            Some(e) => if e < 0 || e >= t.len() {
                true
            } else {
                let after = t.skip(e + 1);
                let (v, used) = value_part(after);
                let used_c = if used < 0 { 0 } else if used > after.len() { after.len() as int } else { used };
                let rest = trim_start_spaces(after.skip(used_c));
                value_safe(after) && (rest.len() >= r.len() || logfmt_safe(rest))
            },
        }
    }
}

proof fn lemma_trim_start_len(s: Seq<char>)
    ensures
        trim_start_ws(s).len() <= s.len(),
        trim_start_spaces(s).len() <= s.len(),
    decreases s.len(),
{
    if s.len() > 0 {
        lemma_trim_start_len(s.drop_first());
    }
}

pub proof fn lemma_index_of_bounds(s: Seq<char>, c: char, i: int)
    ensures
        index_of_from(s, c, i) is Some ==> i <= index_of_from(s, c, i)->0 < s.len() && s[index_of_from(s, c, i)->0] == c,
    decreases s.len() - i,
{
    if 0 <= i < s.len() && s[i] != c {
        lemma_index_of_bounds(s, c, i + 1);
    }
}

proof fn lemma_quote_close_bounds(a: Seq<char>, j: int)
    ensures
        quote_close_from(a, j) is Some ==> j <= quote_close_from(a, j)->0 < a.len() && quote_close_from(a, j)->0 >= 1,
    decreases a.len() - j,
{
    if 1 <= j < a.len() && !(a[j] == '"' && !(j >= 2 && a[j - 1] == '\\')) {
        lemma_quote_close_bounds(a, j + 1);
    }
}

/// A copy of `v[lo..hi]`.
pub(crate) fn sub_chars(v: &Vec<char>, lo: usize, hi: usize) -> (r: Vec<char>)
    requires
        lo <= hi <= v@.len(),
    ensures
        r@ == v@.subrange(lo as int, hi as int),
{
    let mut r: Vec<char> = Vec::new();
    let mut k = lo;
    while k < hi
        invariant
            lo <= k <= hi <= v@.len(),
            r@ == v@.subrange(lo as int, k as int),
        decreases hi - k,
    {
        r.push(v[k]);
        proof {
            assert(r@ =~= v@.subrange(lo as int, k + 1));
        }
        k = k + 1;
    }
    r
}

fn trim_start_vec(v: &Vec<char>, spaces_only: bool) -> (r: Vec<char>)
    ensures
        r@ == (if spaces_only { trim_start_spaces(v@) } else { trim_start_ws(v@) }),
{
    let mut i: usize = 0;
    proof {
        assert(v@.subrange(0, v@.len() as int) =~= v@);
    }
    while i < v.len() && ((spaces_only && v[i] == ' ') || (!spaces_only && is_whitespace(v[i])))
        invariant
            i <= v@.len(),
            (if spaces_only { trim_start_spaces(v@) } else { trim_start_ws(v@) }) == (if spaces_only {
                trim_start_spaces(v@.subrange(i as int, v@.len() as int))
            } else {
                trim_start_ws(v@.subrange(i as int, v@.len() as int))
            }),
        decreases v.len() - i,
    {
        assert(v@.subrange(i as int, v@.len() as int).drop_first() =~= v@.subrange(i + 1, v@.len() as int));
        i = i + 1;
    }
    sub_chars(v, i, v.len())
}

pub(crate) fn index_of(v: &Vec<char>, c: char, from: usize) -> (r: Option<usize>)
    ensures
        r == (match index_of_from(v@, c, from as int) {
            Some(j) => Some(j as usize),
            None => None,
        }),
        match r {
            Some(j) => index_of_from(v@, c, from as int) == Some(j as int) && from <= j < v@.len() && v@[j as int] == c,
            None => index_of_from(v@, c, from as int) is None,
        },
{
    let mut j = from;
    while j < v.len()
        invariant
            from <= j,
            index_of_from(v@, c, from as int) == index_of_from(v@, c, j as int),
        decreases v.len() - j,
    {
        if v[j] == c {
            return Some(j);
        }
        j = j + 1;
    }
    None
}

fn unescape_quotes_exec(v: &Vec<char>, lo: usize, hi: usize) -> (r: String)
    requires
        lo <= hi <= v@.len(),
    ensures
        r@ == unescape_quotes(v@.subrange(lo as int, hi as int)),
{
    let mut out = String::new();
    let mut i = lo;
    while i < hi
        invariant
            lo <= i <= hi <= v@.len(),
            out@ + unescape_quotes(v@.subrange(i as int, hi as int)) == unescape_quotes(v@.subrange(lo as int, hi as int)),
        decreases hi - i,
    {
        let ghost rest = v@.subrange(i as int, hi as int);
        let ghost before = out@;
        if i + 1 < hi && v[i] == '\\' && v[i + 1] == '"' {
            push_char(&mut out, '"');
            proof {
                assert(rest.skip(2) =~= v@.subrange(i + 2, hi as int));
                assert(out@ + unescape_quotes(v@.subrange(i + 2, hi as int)) =~= before + unescape_quotes(rest));
            }
            i = i + 2;
        } else {
            push_char(&mut out, v[i]);
            proof {
                assert(rest.drop_first() =~= v@.subrange(i + 1, hi as int));
                assert(out@ + unescape_quotes(v@.subrange(i + 1, hi as int)) =~= before + unescape_quotes(rest));
            }
            i = i + 1;
        }
    }
    proof {
        assert(out@ + unescape_quotes(v@.subrange(i as int, hi as int)) =~= out@);
    }
    out
}

/// The value at the start of `a` and the chars it takes.
fn value_part_exec(a: &Vec<char>) -> (r: (String, usize))
    requires
        value_safe(a@),
    ensures
        r.0@ == value_part(a@).0,
        r.1 == value_part(a@).1,
{
    let n = a.len();
    if n > 0 && a[0] == '"' {
        let mut j: usize = 1;
        let mut found: Option<usize> = None;
        while j < n
            invariant_except_break
                found is None,
            invariant
                1 <= j,
                n == a@.len(),
                quote_close_from(a@, 1) == quote_close_from(a@, j as int),
            ensures
                match found {
                    Some(q) => quote_close_from(a@, 1) == Some(q as int),
                    None => quote_close_from(a@, 1) is None,
                },
            decreases n - j,
        {
            if a[j] == '"' && !(j >= 2 && a[j - 1] == '\\') {
                found = Some(j);
                break ;
            }
            j = j + 1;
        }
        proof {
            lemma_quote_close_bounds(a@, 1);
        }
        match found {
            Some(q) => (unescape_quotes_exec(a, 1, q - 1), q + 1),
            None => (unescape_quotes_exec(a, 1, n - 1), n),
        }
    } else {
        proof {
            lemma_index_of_bounds(a@, ' ', 0);
        }
        match index_of(a, ' ', 0) {
            Some(p) => {
                proof {
                    assert(a@.subrange(0, p as int) =~= a@.take(p as int));
                }
                (string_from_chars(a.as_slice(), 0, p), p)
            },
            None => {
                proof {
                    assert(a@.subrange(0, n as int) =~= a@);
                }
                (string_from_chars(a.as_slice(), 0, n), n)
            },
        }
    }
}

/// `acc` followed by the pairs `o`, when there are.
pub open spec fn then_pairs(acc: Seq<(Seq<char>, Seq<char>)>, o: Option<Seq<(Seq<char>, Seq<char>)>>) -> Option<Seq<(Seq<char>, Seq<char>)>> {
    match o {
        Some(t) => Some(acc + t),
        None => None,
    }
}

/// The entry of a logfmt line: its `key=value` pairs, when there is at
/// least one and every pair has an `=`.
pub open spec fn logfmt_entry(line: Seq<char>) -> Option<(Seq<(Seq<char>, Seq<char>)>, Seq<char>)> {
    match logfmt_pairs(line) {
        Some(fs) => if fs.len() > 0 { Some((fs, line)) } else { None },
        None => None,
    }
}

/// Reads a logfmt line.
fn parse_logfmt(line: &str) -> (r: Option<LogEntry>)
    requires
        logfmt_safe(line@),
    ensures
        match logfmt_entry(line@) {
            Some((fs, raw)) => r is Some && fields_view(r->0) == fs && r->0.raw@ == raw,
            None => r is None,
        },
{
    let mut fields: Vec<(String, String)> = Vec::new();
    let mut rest = chars_of(line);
    loop
        invariant
            logfmt_safe(rest@),
            logfmt_pairs(line@) == then_pairs(fields@.map_values(|p: (String, String)| (p.0@, p.1@)), logfmt_pairs(rest@)),
        ensures
            logfmt_pairs(line@) == Some(fields@.map_values(|p: (String, String)| (p.0@, p.1@))),
        decreases rest@.len(),
    {
        let t = trim_start_vec(&rest, false);
        proof {
            lemma_trim_start_len(rest@);
        }
        if t.len() == 0 {
            proof {
                assert(fields@.map_values(|p: (String, String)| (p.0@, p.1@)) + seq![] =~= fields@.map_values(|p: (String, String)| (p.0@, p.1@)));
            }
            break ;
        }
        proof {
            lemma_index_of_bounds(t@, '=', 0);
        }
        let e = match index_of(&t, '=', 0) {
            Some(e) => e,
            None => return None,
        };
        let key_chars = sub_chars(&t, 0, e);
        proof {
            assert(key_chars@ =~= t@.take(e as int));
        }
        let key_str = string_from_chars(key_chars.as_slice(), 0, key_chars.len());
        proof {
            assert(key_chars@.subrange(0, key_chars@.len() as int) =~= key_chars@);
        }
        let key = trim_str(key_str.as_str());
        let after = sub_chars(&t, e + 1, t.len());
        proof {
            assert(after@ =~= t@.skip(e + 1));
        }
        let (value, used) = value_part_exec(&after);
        proof {
            lemma_quote_close_bounds(after@, 1);
            lemma_index_of_bounds(after@, ' ', 0);
        }
        let remaining = sub_chars(&after, used, after.len());
        proof {
            assert(remaining@ =~= after@.skip(used as int));
        }
        let next = trim_start_vec(&remaining, true);
        proof {
            lemma_trim_start_len(remaining@);
        }
        let ghost before = fields@.map_values(|p: (String, String)| (p.0@, p.1@));
        if key.as_str().unicode_len() > 0 {
            fields.push((key, value));
            proof {
                assert(fields@.map_values(|p: (String, String)| (p.0@, p.1@)) =~= before + seq![(key@, value@)]);
            }
        } else {
            proof {
                assert(fields@.map_values(|p: (String, String)| (p.0@, p.1@)) =~= before + seq![]);
            }
        }
        proof {
            let tail = logfmt_pairs(next@);
            match tail {
                Some(tl) => {
                    assert(before + (if key@.len() > 0 { seq![(key@, value@)] } else { seq![] }) + tl =~= before + ((if key@.len() > 0 { seq![(key@, value@)] } else { seq![] }) + tl));
                },
                None => {},
            }
        }
        rest = next;
    }
    if fields.len() == 0 {
        return None;
    }
    let entry = LogEntry { fields, raw: to_owned_string(line) };
    proof {
        assert(fields_view(entry) =~= entry.fields@.map_values(|p: (String, String)| (p.0@, p.1@)));
    }
    Some(entry)
}

/// How many chars the value at the start of `a` takes (see `value_part`),
/// and whether reading it is safe (`value_safe`).
fn value_extent(a: &Vec<char>) -> (r: (usize, bool))
    ensures
        r.0 == value_part(a@).1,
        r.1 == value_safe(a@),
{
    let n = a.len();
    if n > 0 && a[0] == '"' {
        let mut j: usize = 1;
        let mut found: Option<usize> = None;
        while j < n
            invariant_except_break
                found is None,
            invariant
                1 <= j,
                n == a@.len(),
                quote_close_from(a@, 1) == quote_close_from(a@, j as int),
            ensures
                match found {
                    Some(q) => quote_close_from(a@, 1) == Some(q as int),
                    None => quote_close_from(a@, 1) is None,
                },
            decreases n - j,
        {
            if a[j] == '"' && !(j >= 2 && a[j - 1] == '\\') {
                found = Some(j);
                break ;
            }
            j = j + 1;
        }
        proof {
            lemma_quote_close_bounds(a@, 1);
        }
        match found {
            Some(q) => (q + 1, q >= 2 && crate::chars::char_utf8_len(a[q - 1]) == 1),
            None => (n, n >= 2 && crate::chars::char_utf8_len(a[n - 1]) == 1),
        }
    } else {
        proof {
            lemma_index_of_bounds(a@, ' ', 0);
        }
        match index_of(a, ' ', 0) {
            Some(p) => (p, true),
            None => (n, true),
        }
    }
}

/// Whether reading `line` as logfmt is safe (see `logfmt_safe`); reading a
/// line for which this fails slices through a char (or before the start).
pub fn logfmt_line_safe(line: &str) -> (b: bool)
    ensures
        b == logfmt_safe(line@),
{
    let mut rest = chars_of(line);
    loop
        invariant
            logfmt_safe(line@) == logfmt_safe(rest@),
        decreases rest@.len(),
    {
        let t = trim_start_vec(&rest, false);
        proof {
            lemma_trim_start_len(rest@);
        }
        if t.len() == 0 {
            return true;
        }
        proof {
            lemma_index_of_bounds(t@, '=', 0);
        }
        let e = match index_of(&t, '=', 0) {
            Some(e) => e,
            None => return true,
        };
        let after = sub_chars(&t, e + 1, t.len());
        proof {
            assert(after@ =~= t@.skip(e + 1));
        }
        let (used, safe) = value_extent(&after);
        if !safe {
            return false;
        }
        proof {
            lemma_quote_close_bounds(after@, 1);
            lemma_index_of_bounds(after@, ' ', 0);
        }
        let remaining = sub_chars(&after, used, after.len());
        proof {
            assert(remaining@ =~= after@.skip(used as int));
        }
        let next = trim_start_vec(&remaining, true);
        proof {
            lemma_trim_start_len(remaining@);
        }
        if next.len() >= rest.len() {
            return true;
        }
        rest = next;
    }
}

/// A JSON value as the log viewer reads it: a string, `null`, a boolean, a
/// number (as written out), or an array or object (as written out).
#[derive(Debug, Clone, PartialEq, Eq)]
pub enum JsonText {
    Str(String),
    Null,
    Bool(bool),
    Number(String),
    Other(String),
}

/// A `JsonText` as text.
pub enum JsonTextView {
    Str(Seq<char>),
    Null,
    Bool(bool),
    Number(Seq<char>),
    Other(Seq<char>),
}

/// The view of a `JsonText`.
pub open spec fn json_text_view(j: JsonText) -> JsonTextView {
    match j {
        JsonText::Str(s) => JsonTextView::Str(s@),
        JsonText::Null => JsonTextView::Null,
        JsonText::Bool(b) => JsonTextView::Bool(b),
        JsonText::Number(n) => JsonTextView::Number(n@),
        JsonText::Other(t) => JsonTextView::Other(t@),
    }
}

/// The members of an object, as text.
pub open spec fn members_view(v: Seq<(String, JsonText)>) -> Seq<(Seq<char>, JsonTextView)> {
    v.map_values(|m: (String, JsonText)| (m.0@, json_text_view(m.1)))
}

/// The members of the JSON object written in `line`, in the order its map
/// keeps them; `None` when `line` is not JSON or not an object.
pub uninterp spec fn json_object_of(line: Seq<char>) -> Option<Seq<(Seq<char>, JsonTextView)>>;

/// `serde_json::from_str::<serde_json::Value>` on `line`, kept when the value
/// is an object (`Value::as_object`): its members in the map's order, each
/// value by kind; a number, array or object as serde_json writes it out.
/// The contract names the result (`json_object_of`); it does not say what
/// JSON parsing yields.
#[verifier::external_body]
pub(crate) fn read_json_object(line: &str) -> (r: Option<Vec<(String, JsonText)>>)
    ensures
        match r {
            Some(v) => json_object_of(line@) == Some(members_view(v@)),
            None => json_object_of(line@) is None,
        },
{
    let val: serde_json::Value = serde_json::from_str(line).ok()?;
    let obj = val.as_object()?;
    Some(obj.iter().map(|(k, v)| (k.clone(), match v {
        serde_json::Value::String(s) => JsonText::Str(s.clone()),
        serde_json::Value::Null => JsonText::Null,
        serde_json::Value::Bool(b) => JsonText::Bool(*b),
        serde_json::Value::Number(n) => JsonText::Number(n.to_string()),
        _ => JsonText::Other(v.to_string()),
    })).collect())
}

/// The text a JSON value shows as: a string as itself, `null` as nothing,
/// a boolean as `true` or `false`, anything else as written out.
pub open spec fn json_text_string(j: JsonTextView) -> Seq<char> {
    match j {
        JsonTextView::Str(s) => s,
        JsonTextView::Null => Seq::empty(),
        JsonTextView::Bool(b) => if b { "true"@ } else { "false"@ },
        JsonTextView::Number(n) => n,
        JsonTextView::Other(t) => t,
    }
}

/// The text of a JSON value (see `json_text_string`).
pub fn json_value_to_string(v: &JsonText) -> (r: String)
    ensures
        r@ == json_text_string(json_text_view(*v)),
{
    match v {
        JsonText::Str(s) => to_owned_string(s.as_str()),
        JsonText::Null => String::new(),
        JsonText::Bool(b) => if *b {
            to_owned_string("true")
        } else {
            to_owned_string("false")
        },
        JsonText::Number(n) => to_owned_string(n.as_str()),
        JsonText::Other(t) => to_owned_string(t.as_str()),
    }
}

/// The entry of a JSON line: the members of its object, each value as
/// text.
pub open spec fn jsonl_entry(line: Seq<char>) -> Option<(Seq<(Seq<char>, Seq<char>)>, Seq<char>)> {
    match json_object_of(line) {
        Some(ms) => Some((ms.map_values(|m: (Seq<char>, JsonTextView)| (m.0, json_text_string(m.1))), line)),
        None => None,
    }
}

/// Reads a JSON line: an entry when it holds an object.
fn parse_jsonl(line: &str) -> (r: Option<LogEntry>)
    ensures
        match jsonl_entry(line@) {
            Some((fs, raw)) => r is Some && fields_view(r->0) == fs && r->0.raw@ == raw,
            None => r is None,
        },
{
    let members = match read_json_object(line) {
        Some(m) => m,
        None => return None,
    };
    let ghost mv = members_view(members@);
    let mut fields: Vec<(String, String)> = Vec::new();
    let mut i: usize = 0;
    while i < members.len()
        invariant
            i <= members@.len(),
            mv == members_view(members@),
            fields@.map_values(|p: (String, String)| (p.0@, p.1@))
                == mv.take(i as int).map_values(|m: (Seq<char>, JsonTextView)| (m.0, json_text_string(m.1))),
        decreases members@.len() - i,
    {
        let key = to_owned_string(members[i].0.as_str());
        let val = json_value_to_string(&members[i].1);
        let ghost before = fields@.map_values(|p: (String, String)| (p.0@, p.1@));
        fields.push((key, val));
        proof {
            assert(mv.take(i + 1) =~= mv.take(i as int).push(mv[i as int]));
            assert(fields@.map_values(|p: (String, String)| (p.0@, p.1@)) =~= before.push((key@, val@)));
            assert(mv.take(i + 1).map_values(|m: (Seq<char>, JsonTextView)| (m.0, json_text_string(m.1)))
                =~= mv.take(i as int).map_values(|m: (Seq<char>, JsonTextView)| (m.0, json_text_string(m.1))).push(
                (mv[i as int].0, json_text_string(mv[i as int].1))));
        }
        i = i + 1;
    }
    proof {
        assert(mv.take(members@.len() as int) =~= mv);
    }
    let entry = LogEntry { fields, raw: to_owned_string(line) };
    proof {
        assert(fields_view(entry) =~= entry.fields@.map_values(|p: (String, String)| (p.0@, p.1@)));
    }
    Some(entry)
}

/// The entry a log line reads as, in the given format, once trimmed:
/// `None` for a blank line.
pub open spec fn line_entry(line: Seq<char>, format: LogFormat) -> Option<(Seq<(Seq<char>, Seq<char>)>, Seq<char>)> {
    let t = trim_ws(line);
    if t.len() == 0 {
        None
    } else {
        match format {
            LogFormat::Jsonl => jsonl_entry(t),
            LogFormat::Logfmt => logfmt_entry(t),
        }
    }
}

/// Reads one log line in the given format (see `line_entry`).
pub fn parse_line(line: &str, format: &LogFormat) -> (r: Option<LogEntry>)
    requires
        *format == LogFormat::Logfmt ==> logfmt_safe(trim_ws(line@)),
    ensures
        match line_entry(line@, *format) {
            Some((fs, raw)) => r is Some && fields_view(r->0) == fs && r->0.raw@ == raw,
            None => r is None,
        },
{
    let trimmed = trim_str(line);
    if trimmed.as_str().unicode_len() == 0 {
        return None;
    }
    match format {
        LogFormat::Jsonl => parse_jsonl(trimmed.as_str()),
        LogFormat::Logfmt => parse_logfmt(trimmed.as_str()),
    }
}

/// An entry as its fields and line.
pub open spec fn entry_view(e: LogEntry) -> (Seq<(Seq<char>, Seq<char>)>, Seq<char>) {
    (fields_view(e), e.raw@)
}

/// The field names of an entry view.
pub open spec fn view_keys(e: (Seq<(Seq<char>, Seq<char>)>, Seq<char>)) -> Seq<Seq<char>> {
    e.0.map_values(|p: (Seq<char>, Seq<char>)| p.0)
}

/// Reading the lines of a log, at most `max` entries: the entries read,
/// the field names in the order first seen, and whether every line read
/// as logfmt was safe to read. Blank lines, lines that do not read, and
/// lines past the limit are skipped.
pub open spec fn read_lines(lines: Seq<Seq<char>>, format: LogFormat, max: nat) -> (Seq<(Seq<(Seq<char>, Seq<char>)>, Seq<char>)>, Seq<Seq<char>>, bool)
    decreases lines.len(),
{
    if lines.len() == 0 {
        (seq![], seq![], true)
    } else {
        let (es, order, safe) = read_lines(lines.drop_last(), format, max);
        let t = trim_ws(lines.last());
        if es.len() >= max || t.len() == 0 {
            (es, order, safe)
        } else {
            let ok = format == LogFormat::Jsonl || logfmt_safe(trim_ws(t));
            match line_entry(t, format) {
                Some(e) => (es.push(e), with_new_names(order, view_keys(e)), safe && ok),
                None => (es, order, safe && ok),
            }
        }
    }
}

/// Reads a log's lines (see `read_lines`): its entries, how many lines it
/// has, and its field names in display order (see `prioritised_fields`);
/// `None` when a line to read as logfmt would slice through a char.
pub fn parse_log_lines(lines: &[String], format: &LogFormat, max_entries: usize) -> (r: Option<(Vec<LogEntry>, usize, Vec<String>)>)
    ensures
        ({
            let (es, order, safe) = read_lines(lines@.map_values(|l: String| l@), *format, max_entries as nat);
            &&& (r is None <==> !safe)
            &&& r matches Some(v) ==> {
                &&& v.0@.map_values(|e: LogEntry| entry_view(e)) == es
                &&& v.1 == lines@.len()
                &&& names_view(v.2@).to_multiset() == order.to_multiset()
                &&& forall|i: int, j: int| 0 <= i < j < v.2@.len() ==> !field_before(#[trigger] v.2@[j]@, #[trigger] v.2@[i]@)
            }
        }),
{
    let ghost lv = lines@.map_values(|l: String| l@);
    let mut entries: Vec<LogEntry> = Vec::new();
    let mut order: Vec<String> = Vec::new();
    let mut i: usize = 0;
    while i < lines.len()
        invariant
            i <= lines@.len(),
            lv == lines@.map_values(|l: String| l@),
            ({
                let (es, ord, safe) = read_lines(lv.take(i as int), *format, max_entries as nat);
                &&& entries@.map_values(|e: LogEntry| entry_view(e)) == es
                &&& names_view(order@) == ord
                &&& safe
            }),
        decreases lines@.len() - i,
    {
        proof {
            assert(lv.take(i + 1).drop_last() =~= lv.take(i as int));
            assert(lv.take(i + 1).last() == lines@[i as int]@);
        }
        if entries.len() < max_entries {
            let t = trim_str(lines[i].as_str());
            if t.as_str().unicode_len() > 0 {
                if *format == LogFormat::Logfmt {
                    let tt = trim_str(t.as_str());
                    if !logfmt_line_safe(tt.as_str()) {
                        proof {
                            lemma_read_lines_unsafe(lv, *format, max_entries as nat, i + 1);
                        }
                        return None;
                    }
                }
                let ghost ev = entries@.map_values(|e: LogEntry| entry_view(e));
                match parse_line(t.as_str(), format) {
                    Some(e) => {
                        crate::log_format::update_fields(&mut order, &e);
                        proof {
                            lemma_entry_keys_view(e);
                        }
                        entries.push(e);
                        proof {
                            assert(entries@.map_values(|e: LogEntry| entry_view(e)) =~= ev.push(entry_view(e)));
                        }
                    },
                    None => {},
                }
            }
        }
        i = i + 1;
    }
    proof {
        assert(lv.take(lines@.len() as int) =~= lv);
    }
    let n = lines.len();
    let fields = prioritised_fields(order);
    Some((entries, n, fields))
}

/// The field names of an entry are those of its view.
proof fn lemma_entry_keys_view(e: LogEntry)
    ensures
        crate::log_format::entry_keys(e) == view_keys(entry_view(e)),
{
    assert(crate::log_format::entry_keys(e) =~= view_keys(entry_view(e)));
}

/// Reading all the lines is unsafe when reading a prefix is.
proof fn lemma_read_lines_unsafe(lines: Seq<Seq<char>>, format: LogFormat, max: nat, k: int)
    requires
        0 <= k <= lines.len(),
        !read_lines(lines.take(k), format, max).2,
    ensures
        !read_lines(lines, format, max).2,
{
    if read_lines(lines, format, max).2 {
        lemma_read_lines_prefix(lines, format, max, k);
    }
}

/// Reading a prefix of the lines is safe when reading all of them is.
proof fn lemma_read_lines_prefix(lines: Seq<Seq<char>>, format: LogFormat, max: nat, k: int)
    requires
        0 <= k <= lines.len(),
        read_lines(lines, format, max).2,
    ensures
        read_lines(lines.take(k), format, max).2,
    decreases lines.len() - k,
{
    if k < lines.len() {
        assert(lines.take(k + 1).drop_last() =~= lines.take(k));
        lemma_read_lines_prefix(lines, format, max, k + 1);
    } else {
        assert(lines.take(k) =~= lines);
    }
}

/// `line` is JSON text (of any kind of value).
pub uninterp spec fn json_parses(line: Seq<char>) -> bool;

/// `serde_json::from_str::<serde_json::Value>(line).is_ok()`: whether the
/// line is JSON. The contract names the result (`json_parses`), a function
/// of the text alone; what JSON accepts is serde_json's business.
#[verifier::external_body]
pub(crate) fn is_json_text(line: &str) -> (b: bool)
    ensures
        b == json_parses(line@),
{
    serde_json::from_str::<serde_json::Value>(line).is_ok()
}

} // verus!

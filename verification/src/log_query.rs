//! The filter query of the structured log viewer: parsing it, and which
//! entries it keeps.
use vstd::prelude::*;
use crate::chars::{ascii_lower_seq, chars_of, contains_seq, eq_ignore_ascii_case, find_from, is_whitespace, is_ws, string_from_chars, contains_chars, occurs_at};
use crate::config::opt_view;
use crate::log_types::{FilterOp, LogEntry, LogFilter, LogFilterState, StructuredLog, fields_view};
use crate::log_filter::{min, sat_sub, same_columns};
use crate::numbers::{parse_u64, parse_u64_chars};

verus! {

/// The words of `s[i..]` separated by white space, a word having started
/// at `st` (or none, when `st` is negative).
pub open spec fn words_scan(s: Seq<char>, i: int, st: int) -> Seq<Seq<char>>
    decreases s.len() - i,
{
    if i < 0 || i >= s.len() {
        if 0 <= st <= s.len() { seq![s.subrange(st, s.len() as int)] } else { seq![] }
    } else if is_ws(s[i]) {
        (if 0 <= st <= i { seq![s.subrange(st, i)] } else { seq![] }) + words_scan(s, i + 1, -1)
    } else {
        words_scan(s, i + 1, if st >= 0 { st } else { i })
    }
}

/// `str::split_whitespace`.
pub open spec fn words(s: Seq<char>) -> Seq<Seq<char>> {
    words_scan(s, 0, -1)
}

/// Seconds per unit of a `last:` duration suffix.
pub open spec fn unit_secs(c: char) -> Option<u64> {
    if c == 'h' {
        Some(3600)
    } else if c == 'm' {
        Some(60)
    } else if c == 'd' {
        Some(86_400)
    } else if c == 's' {
        Some(1)
    } else {
        None
    }
}

/// The number and unit of a `last:` duration such as `15m`.
pub open spec fn duration_parts(arg: Seq<char>) -> Option<(u64, u64)> {
    if arg.len() == 0 {
        None
    } else {
        match unit_secs(arg.last()) {
            None => None,
            Some(u) => match parse_u64(arg.drop_last()) {
                Some(n) => Some((n, u)),
                None => None,
            },
        }
    }
}

/// The duration's seconds fit in 64 bits.
pub open spec fn duration_fits(arg: Seq<char>) -> bool {
    match duration_parts(arg) {
        Some((n, u)) => n * u <= u64::MAX,
        None => true,
    }
}

/// The cutoff time of a `last:` duration at time `now`: `now` less the
/// duration, 0 at the least.
pub open spec fn time_cutoff(arg: Seq<char>, now: u64) -> Option<u64> {
    match duration_parts(arg) {
        Some((n, u)) => Some(if now >= n * u { (now - n * u) as u64 } else { 0 }),
        None => None,
    }
}

/// `t` starts with `last:`.
pub open spec fn is_last_token(t: Seq<char>) -> bool {
    t.len() >= 5 && t.take(5) == seq!['l', 'a', 's', 't', ':']
}

/// The first index where `n` occurs in `t`.
pub open spec fn first_occ(t: Seq<char>, n: Seq<char>) -> Option<int> {
    if exists|i: int| occurs_at(t, n, i) {
        Some(choose|i: int| occurs_at(t, n, i) && forall|j: int| 0 <= j < i ==> !occurs_at(t, n, j))
    } else {
        None
    }
}

/// The filter a query word stands for, as (field, op, value); `None` for a
/// `last:` word whose duration cannot be read.
pub open spec fn token_filter(t: Seq<char>, now: u64) -> Option<(Option<Seq<char>>, FilterOp, Seq<char>)> {
    if is_last_token(t) {
        match time_cutoff(t.skip(5), now) {
            Some(c) => Some((None, FilterOp::Since(c), t)),
            None => None,
        }
    } else {
        match first_occ(t, seq!['!', '=']) {
            Some(i) => Some((Some(t.take(i)), FilterOp::NotEquals, t.skip(i + 2))),
            None => match first_occ(t, seq!['=']) {
                Some(i) => Some((Some(t.take(i)), FilterOp::Equals, t.skip(i + 1))),
                None => match first_occ(t, seq![':']) {
                    Some(i) => if i > 0 {
                        Some((Some(t.take(i)), FilterOp::Contains, t.skip(i + 1)))
                    } else {
                        Some((None, FilterOp::Contains, t.skip(1)))
                    },
                    None => Some((None, FilterOp::Contains, t)),
                },
            },
        }
    }
}

/// The filters of the query words `ts`.
pub open spec fn filters_of(ts: Seq<Seq<char>>, now: u64) -> Seq<(Option<Seq<char>>, FilterOp, Seq<char>)>
    decreases ts.len(),
{
    if ts.len() == 0 {
        seq![]
    } else {
        filters_of(ts.drop_last(), now) + match token_filter(ts.last(), now) {
            Some(f) => seq![f],
            None => seq![],
        }
    }
}

/// A filter as text.
pub open spec fn filter_view(f: LogFilter) -> (Option<Seq<char>>, FilterOp, Seq<char>) {
    (opt_view(f.field), f.op, f.value@)
}

/// Every `last:` word of the query has a duration that fits in 64 bits.
pub open spec fn query_fits(input: Seq<char>) -> bool {
    forall|k: int| 0 <= k < words(input).len() && is_last_token(#[trigger] words(input)[k]) ==> duration_fits(
        words(input)[k].skip(5),
    )
}

/// The current time in seconds since the Unix epoch
/// (`std::time::SystemTime::now`); 0 when the clock is before the epoch.
/// The time is not the library's to state: the contract says nothing of it.
#[verifier::external_body]
fn now_secs() -> u64 {
    std::time::SystemTime::now().duration_since(std::time::UNIX_EPOCH).map(|d| d.as_secs()).unwrap_or(0)
}

fn time_cutoff_at(v: &[char], lo: usize, now: u64) -> (r: Option<u64>)
    requires
        lo <= v@.len(),
        duration_fits(v@.skip(lo as int)),
    ensures
        r == time_cutoff(v@.skip(lo as int), now),
{
    let ghost arg = v@.skip(lo as int);
    let n = v.len();
    if n == lo {
        return None;
    }
    let last = v[n - 1];
    let unit: u64 = if last == 'h' {
        3600
    } else if last == 'm' {
        60
    } else if last == 'd' {
        86_400
    } else if last == 's' {
        1
    } else {
        return None;
    };
    proof {
        assert(arg.last() == last);
        assert(arg.drop_last() =~= v@.subrange(lo as int, n - 1));
    }
    let count = match parse_u64_chars(v, lo, n - 1) {
        Some(c) => c,
        None => return None,
    };
    let span = count * unit;
    Some(if now >= span { now - span } else { 0 })
}

fn token_filter_exec(t: &Vec<char>, now: u64) -> (r: Option<LogFilter>)
    requires
        is_last_token(t@) ==> duration_fits(t@.skip(5)),
    ensures
        match token_filter(t@, now) {
            Some(f) => r is Some && filter_view(r->0) == f,
            None => r is None,
        },
{
    let n = t.len();
    if n >= 5 && t[0] == 'l' && t[1] == 'a' && t[2] == 's' && t[3] == 't' && t[4] == ':' {
        proof {
            assert(t@.take(5) =~= seq!['l', 'a', 's', 't', ':']);
        }
        return match time_cutoff_at(t.as_slice(), 5, now) {
            Some(c) => Some(LogFilter { field: None, op: FilterOp::Since(c), value: string_from_chars(t.as_slice(), 0, n) }),
            None => None,
        };
    }
    proof {
        if n >= 5 {
            if t@.take(5) == seq!['l', 'a', 's', 't', ':'] {
                assert(t@.take(5)[0] == t@[0]);
                assert(t@.take(5)[1] == t@[1]);
                assert(t@.take(5)[2] == t@[2]);
                assert(t@.take(5)[3] == t@[3]);
                assert(t@.take(5)[4] == t@[4]);
            }
        }
        assert(t@.subrange(0, n as int) =~= t@);
    }
    let ne = vec!['!', '='];
    let eq = vec!['='];
    let colon = vec![':'];
    match find_from(t.as_slice(), ne.as_slice(), 0) {
        Some(i) => {
            proof {
                lemma_first_occ(t@, ne@, i as int);
                assert(ne@ =~= seq!['!', '=']);
                assert(t@.take(i as int) =~= t@.subrange(0, i as int));
                assert(t@.skip(i + 2) =~= t@.subrange(i + 2, n as int));
            }
            return Some(LogFilter {
                field: Some(string_from_chars(t.as_slice(), 0, i)),
                op: FilterOp::NotEquals,
                value: string_from_chars(t.as_slice(), i + 2, n),
            });
        },
        None => {
            proof {
                lemma_no_occ(t@, ne@);
                assert(ne@ =~= seq!['!', '=']);
            }
        },
    }
    match find_from(t.as_slice(), eq.as_slice(), 0) {
        Some(i) => {
            proof {
                lemma_first_occ(t@, eq@, i as int);
                assert(eq@ =~= seq!['=']);
                assert(t@.take(i as int) =~= t@.subrange(0, i as int));
                assert(t@.skip(i + 1) =~= t@.subrange(i + 1, n as int));
            }
            return Some(LogFilter {
                field: Some(string_from_chars(t.as_slice(), 0, i)),
                op: FilterOp::Equals,
                value: string_from_chars(t.as_slice(), i + 1, n),
            });
        },
        None => {
            proof {
                lemma_no_occ(t@, eq@);
                assert(eq@ =~= seq!['=']);
            }
        },
    }
    match find_from(t.as_slice(), colon.as_slice(), 0) {
        Some(i) => {
            proof {
                lemma_first_occ(t@, colon@, i as int);
                assert(colon@ =~= seq![':']);
                assert(t@.take(i as int) =~= t@.subrange(0, i as int));
                assert(t@.skip(i + 1) =~= t@.subrange(i + 1, n as int));
            }
            if i > 0 {
                Some(LogFilter {
                    field: Some(string_from_chars(t.as_slice(), 0, i)),
                    op: FilterOp::Contains,
                    value: string_from_chars(t.as_slice(), i + 1, n),
                })
            } else {
                Some(LogFilter { field: None, op: FilterOp::Contains, value: string_from_chars(t.as_slice(), 1, n) })
            }
        },
        None => {
            proof {
                lemma_no_occ(t@, colon@);
                assert(colon@ =~= seq![':']);
            }
            Some(LogFilter { field: None, op: FilterOp::Contains, value: string_from_chars(t.as_slice(), 0, n) })
        },
    }
}

proof fn lemma_first_occ(t: Seq<char>, n: Seq<char>, i: int)
    requires
        0 <= i,
        occurs_at(t, n, i),
        forall|j: int| 0 <= j < i ==> !occurs_at(t, n, j),
    ensures
        first_occ(t, n) == Some(i),
{
    let k = choose|k: int| occurs_at(t, n, k) && forall|j: int| 0 <= j < k ==> !occurs_at(t, n, j);
    if k < i {
        assert(!occurs_at(t, n, k));
    } else if k > i {
        assert(!occurs_at(t, n, i));
    }
}

proof fn lemma_no_occ(t: Seq<char>, n: Seq<char>)
    requires
        forall|j: int| 0 <= j ==> !occurs_at(t, n, j),
    ensures
        first_occ(t, n) is None,
{
    if exists|i: int| occurs_at(t, n, i) {
        let i = choose|i: int| occurs_at(t, n, i);
        assert(i >= 0);
    }
}

/// A copy of `v[lo..hi]`.
fn sub_vec(v: &Vec<char>, lo: usize, hi: usize) -> (r: Vec<char>)
    requires
        lo <= hi <= v@.len(),
    ensures
        r@ == v@.subrange(lo as int, hi as int),
{
    let mut r: Vec<char> = Vec::new();
    let mut k = lo;
    while k < hi
        invariant
            lo <= k <= hi <= v@.len(),
            r@ == v@.subrange(lo as int, k as int),
        decreases hi - k,
    {
        r.push(v[k]);
        proof {
            assert(r@ =~= v@.subrange(lo as int, k + 1));
        }
        k = k + 1;
    }
    r
}

/// Adds the filter of the word `v[start..end]` (the next word of the query).
fn push_word_filter(
    out: &mut Vec<LogFilter>,
    v: &Vec<char>,
    start: usize,
    end: usize,
    now: u64,
    Ghost(s): Ghost<Seq<char>>,
    Ghost(done): Ghost<Seq<Seq<char>>>,
)
    requires
        v@ == s,
        query_fits(s),
        start <= end <= v@.len(),
        done.len() < words(s).len(),
        words(s)[done.len() as int] == s.subrange(start as int, end as int),
        old(out)@.map_values(|f: LogFilter| filter_view(f)) == filters_of(done, now),
    ensures
        final(out)@.map_values(|f: LogFilter| filter_view(f)) == filters_of(done.push(s.subrange(start as int, end as int)), now),
{
    let tok = sub_vec(v, start, end);
    let ghost k = done.len() as int;
    proof {
        assert(0 <= k < words(s).len());
        if is_last_token(tok@) {
            assert(is_last_token(words(s)[k]));
        }
        assert(done.push(tok@).drop_last() =~= done);
    }
    match token_filter_exec(&tok, now) {
        Some(f) => {
            let ghost before = out@;
            out.push(f);
            proof {
                assert(out@.map_values(|f: LogFilter| filter_view(f)) =~= before.map_values(|f: LogFilter| filter_view(f)).push(filter_view(f)));
            }
        },
        None => {},
    }
}

/// The filters of the query `input` at time `now`: one per word, `last:`
/// words with an unreadable duration dropped.
pub fn parse_filters_at(input: &str, now: u64) -> (r: Vec<LogFilter>)
    requires
        query_fits(input@),
    ensures
        r@.map_values(|f: LogFilter| filter_view(f)) == filters_of(words(input@), now),
{
    let v = chars_of(input);
    let ghost s = input@;
    let mut out: Vec<LogFilter> = Vec::new();
    let mut i: usize = 0;
    let mut st: Option<usize> = None;
    let ghost mut done: Seq<Seq<char>> = seq![];
    proof {
        assert(out@.map_values(|f: LogFilter| filter_view(f)) =~= Seq::empty());
    }
    while i < v.len()
        invariant
            v@ == s,
            s == input@,
            query_fits(s),
            i <= v@.len(),
            st is Some ==> st->0 < i,
            done + words_scan(s, i as int, if st is Some { st->0 as int } else { -1 }) == words(s),
            out@.map_values(|f: LogFilter| filter_view(f)) == filters_of(done, now),
        decreases v@.len() - i,
    {
        if is_whitespace(v[i]) {
            if let Some(start) = st {
                proof {
                    let w = words_scan(s, i + 1, -1);
                    assert(words_scan(s, i as int, start as int) == seq![s.subrange(start as int, i as int)] + w);
                    assert(done + words_scan(s, i as int, start as int) =~= done.push(s.subrange(start as int, i as int)) + w);
                    assert(words(s)[done.len() as int] == (done.push(s.subrange(start as int, i as int)) + w)[done.len() as int]);
                }
                push_word_filter(&mut out, &v, start, i, now, Ghost(s), Ghost(done));
                proof {
                    done = done.push(s.subrange(start as int, i as int));
                }
                st = None;
            } else {
                proof {
                    assert(words_scan(s, i as int, -1) =~= words_scan(s, i + 1, -1));
                }
            }
        } else {
            if st.is_none() {
                st = Some(i);
            }
        }
        i = i + 1;
    }
    if let Some(start) = st {
        proof {
            assert(words_scan(s, i as int, start as int) == seq![s.subrange(start as int, i as int)]);
            assert(done + words_scan(s, i as int, start as int) =~= done.push(s.subrange(start as int, i as int)));
            assert(words(s)[done.len() as int] == done.push(s.subrange(start as int, i as int))[done.len() as int]);
        }
        push_word_filter(&mut out, &v, start, i, now, Ghost(s), Ghost(done));
        proof {
            done = done.push(s.subrange(start as int, i as int));
        }
    } else {
        proof {
            assert(done + words_scan(s, i as int, -1) =~= done);
        }
    }
    out
}

/// The filters of the query `input` now (see `parse_filters_at`).
pub fn parse_filters(input: &str) -> (r: Vec<LogFilter>)
    requires
        query_fits(input@),
    ensures
        exists|now: u64| r@.map_values(|f: LogFilter| filter_view(f)) == filters_of(words(input@), now),
{
    let now = now_secs();
    parse_filters_at(input, now)
}

/// What `str::to_lowercase` yields for `s` (Unicode lower case).
pub uninterp spec fn spec_lowercase(s: Seq<char>) -> Seq<char>;

/// `str::to_lowercase`. The contract names the result: Unicode case
/// mapping is std's business, a function of the text alone.
#[verifier::external_body]
pub(crate) fn to_lowercase(s: &str) -> (r: String)
    ensures
        r@ == spec_lowercase(s@),
{
    s.to_lowercase()
}

/// A field value passes a comparison with the (lower-cased) `needle`.
pub open spec fn value_matches(h: Seq<char>, needle: Seq<char>, op: FilterOp) -> bool {
    match op {
        FilterOp::Contains => contains_seq(spec_lowercase(h), needle),
        FilterOp::Equals => ascii_lower_seq(h) == ascii_lower_seq(needle),
        FilterOp::NotEquals => ascii_lower_seq(h) != ascii_lower_seq(needle),
        FilterOp::Since(_) => true,
    }
}

/// Whether `haystack` passes the comparison `op` with `needle` (already
/// lower-cased): contains it (ignoring case), equals it or differs from
/// it (ignoring ASCII case).
pub fn match_value(haystack: &str, needle: &str, op: &FilterOp) -> (b: bool)
    ensures
        b == value_matches(haystack@, needle@, *op),
{
    match op {
        FilterOp::Contains => {
            let lower = to_lowercase(haystack);
            let h = chars_of(lower.as_str());
            let n = chars_of(needle);
            contains_chars(h.as_slice(), n.as_slice())
        },
        FilterOp::Equals => eq_ignore_ascii_case(haystack, needle),
        FilterOp::NotEquals => !eq_ignore_ascii_case(haystack, needle),
        FilterOp::Since(_) => true,
    }
}

/// The value of the first field from `i` on whose name equals `name`
/// ignoring ASCII case, or the empty text.
pub open spec fn field_value_from(fields: Seq<(Seq<char>, Seq<char>)>, name: Seq<char>, i: int) -> Seq<char>
    decreases fields.len() - i,
{
    if i < 0 || i >= fields.len() {
        seq![]
    } else if ascii_lower_seq(fields[i].0) == ascii_lower_seq(name) {
        fields[i].1
    } else {
        field_value_from(fields, name, i + 1)
    }
}

/// An entry with the fields `fields` and the time `epoch` passes the filter `f`.
pub open spec fn filter_keeps(
    fields: Seq<(Seq<char>, Seq<char>)>,
    f: (Option<Seq<char>>, FilterOp, Seq<char>),
    epoch: Option<u64>,
) -> bool {
    match f.1 {
        FilterOp::Since(c) => epoch is Some && epoch->0 >= c,
        _ => {
            let needle = spec_lowercase(f.2);
            match f.0 {
                None => exists|i: int| 0 <= i < fields.len() && value_matches(fields[i].1, needle, f.1),
                Some(name) => value_matches(field_value_from(fields, name, 0), needle, f.1),
            }
        },
    }
}

/// An entry passes every filter.
pub open spec fn entry_keeps(
    fields: Seq<(Seq<char>, Seq<char>)>,
    filters: Seq<(Option<Seq<char>>, FilterOp, Seq<char>)>,
    epoch: Option<u64>,
) -> bool {
    forall|k: int| 0 <= k < filters.len() ==> #[trigger] filter_keeps(fields, filters[k], epoch)
}

/// The filters, as text.
pub open spec fn filters_view(fs: Seq<LogFilter>) -> Seq<(Option<Seq<char>>, FilterOp, Seq<char>)> {
    fs.map_values(|f: LogFilter| filter_view(f))
}

/// The names of the fields that hold an entry's time.
pub open spec fn is_timestamp_name(n: Seq<char>) -> bool {
    n == "time"@ || n == "timestamp"@ || n == "ts"@ || n == "datetime"@ || n == "date"@ || n == "@timestamp"@
}

/// The value of an entry's first time field (by lower-cased name), or the
/// empty text.
pub open spec fn timestamp_from(fields: Seq<(Seq<char>, Seq<char>)>, i: int) -> Seq<char>
    decreases fields.len() - i,
{
    if i < 0 || i >= fields.len() {
        seq![]
    } else if is_timestamp_name(ascii_lower_seq(fields[i].0)) {
        fields[i].1
    } else {
        timestamp_from(fields, i + 1)
    }
}

/// The value of the entry's time field, which `Since` filters read (the
/// empty text without one).
pub fn entry_timestamp(entry: &LogEntry) -> (r: &str)
    ensures
        r@ == timestamp_from(fields_view(*entry), 0),
{
    let mut i: usize = 0;
    while i < entry.fields.len()
        invariant
            i <= entry.fields@.len(),
            timestamp_from(fields_view(*entry), 0) == timestamp_from(fields_view(*entry), i as int),
        decreases entry.fields.len() - i,
    {
        let lower = crate::chars::str_to_ascii_lowercase(entry.fields[i].0.as_str());
        let l = lower.as_str();
        let hit = crate::chars::str_eq(l, "time") || crate::chars::str_eq(l, "timestamp") || crate::chars::str_eq(l, "ts")
            || crate::chars::str_eq(l, "datetime") || crate::chars::str_eq(l, "date") || crate::chars::str_eq(l, "@timestamp");
        if hit {
            return entry.fields[i].1.as_str();
        }
        i = i + 1;
    }
    proof {
        reveal_strlit("");
    }
    ""
}

fn field_value<'a>(entry: &'a LogEntry, name: &str) -> (r: &'a str)
    ensures
        r@ == field_value_from(fields_view(*entry), name@, 0),
{
    let mut i: usize = 0;
    while i < entry.fields.len()
        invariant
            i <= entry.fields@.len(),
            field_value_from(fields_view(*entry), name@, 0) == field_value_from(fields_view(*entry), name@, i as int),
        decreases entry.fields.len() - i,
    {
        if eq_ignore_ascii_case(entry.fields[i].0.as_str(), name) {
            return entry.fields[i].1.as_str();
        }
        i = i + 1;
    }
    proof {
        reveal_strlit("");
    }
    ""
}

/// Whether an entry passes every filter; `epoch` is the entry's time as
/// `parse_epoch_secs` reads its time field.
pub fn entry_matches(entry: &LogEntry, filters: &[LogFilter], epoch: Option<u64>) -> (b: bool)
    ensures
        b == entry_keeps(fields_view(*entry), filters_view(filters@), epoch),
        b <==> (forall|k: int|
            0 <= k < filters@.len() ==> #[trigger] filter_keeps(fields_view(*entry), filter_view(filters@[k]), epoch)),
{
    let ghost fv = fields_view(*entry);
    let ghost fs = filters_view(filters@);
    let mut k: usize = 0;
    while k < filters.len()
        invariant
            k <= filters@.len(),
            fv == fields_view(*entry),
            fs == filters_view(filters@),
            forall|x: int| 0 <= x < k ==> #[trigger] filter_keeps(fv, filter_view(filters@[x]), epoch),
            forall|x: int| 0 <= x < k ==> #[trigger] filter_keeps(fv, fs[x], epoch),
        decreases filters.len() - k,
    {
        let f = &filters[k];
        proof {
            assert(fs[k as int] == filter_view(*f));
        }
        let keep = match f.op {
            FilterOp::Since(cutoff) => match epoch {
                Some(e) => e >= cutoff,
                None => false,
            },
            _ => {
                let needle = to_lowercase(f.value.as_str());
                match &f.field {
                    None => {
                        let mut any = false;
                        let mut i: usize = 0;
                        while i < entry.fields.len()
                            invariant
                                i <= entry.fields@.len(),
                                fv == fields_view(*entry),
                                any == exists|x: int| 0 <= x < i && value_matches(fv[x].1, needle@, f.op),
                            decreases entry.fields.len() - i,
                        {
                            let m = match_value(entry.fields[i].1.as_str(), needle.as_str(), &f.op);
                            proof {
                                assert(fv[i as int].1 == entry.fields@[i as int].1@);
                            }
                            if m {
                                any = true;
                            }
                            i = i + 1;
                        }
                        any
                    },
                    Some(name) => {
                        let val = field_value(entry, name.as_str());
                        match_value(val, needle.as_str(), &f.op)
                    },
                }
            },
        };
        proof {
            assert(keep == filter_keeps(fv, fs[k as int], epoch));
        }
        if !keep {
            return false;
        }
        k = k + 1;
    }
    true
}

/// An entry is kept exactly when it passes every filter on its own: a kept
/// entry passes each filter `k`, and one filter that the entry fails hides
/// it, whatever the other filters say.
pub proof fn lemma_kept_iff_every_filter_passes(
    fields: Seq<(Seq<char>, Seq<char>)>,
    filters: Seq<(Option<Seq<char>>, FilterOp, Seq<char>)>,
    epoch: Option<u64>,
)
    ensures
        entry_keeps(fields, filters, epoch) ==> forall|k: int|
            0 <= k < filters.len() ==> #[trigger] filter_keeps(fields, filters[k], epoch),
        (exists|k: int| 0 <= k < filters.len() && !#[trigger] filter_keeps(fields, filters[k], epoch))
            ==> !entry_keeps(fields, filters, epoch),
        (forall|k: int| 0 <= k < filters.len() ==> #[trigger] filter_keeps(fields, filters[k], epoch))
            ==> entry_keeps(fields, filters, epoch),
        filters.len() == 0 ==> entry_keeps(fields, filters, epoch),
{
}

/// `field!=value` keeps exactly the entries that `field=value` hides, for
/// a named field and for any field alike; a `last:` filter keeps exactly
/// the entries whose time is known and not before its cutoff.
pub proof fn lemma_not_equals_is_complement(
    fields: Seq<(Seq<char>, Seq<char>)>,
    name: Seq<char>,
    value: Seq<char>,
    cutoff: u64,
    epoch: Option<u64>,
)
    ensures
        filter_keeps(fields, (Some(name), FilterOp::NotEquals, value), epoch)
            <==> !filter_keeps(fields, (Some(name), FilterOp::Equals, value), epoch),
        filter_keeps(fields, (Some(name), FilterOp::Equals, value), epoch)
            <==> ascii_lower_seq(field_value_from(fields, name, 0)) == ascii_lower_seq(spec_lowercase(value)),
        filter_keeps(fields, (None, FilterOp::Since(cutoff), value), epoch) <==> (epoch is Some && epoch->0 >= cutoff),
        filter_keeps(fields, (Some(name), FilterOp::Since(cutoff), value), epoch) <==> (epoch is Some && epoch->0 >= cutoff),
{
}

/// Adding a filter can only hide entries: an entry kept under `filters`
/// plus `f` is kept under `filters` alone, and is kept under both exactly
/// when it also passes `f`.
pub proof fn lemma_more_filters_keep_fewer(
    fields: Seq<(Seq<char>, Seq<char>)>,
    filters: Seq<(Option<Seq<char>>, FilterOp, Seq<char>)>,
    f: (Option<Seq<char>>, FilterOp, Seq<char>),
    epoch: Option<u64>,
)
    ensures
        entry_keeps(fields, filters.push(f), epoch) <==> (entry_keeps(fields, filters, epoch) && filter_keeps(fields, f, epoch)),
{
    let g = filters.push(f);
    assert(g[filters.len() as int] == f);
    assert forall|k: int| 0 <= k < filters.len() implies g[k] == filters[k] by {}
    if entry_keeps(fields, filters, epoch) && filter_keeps(fields, f, epoch) {
        assert forall|k: int| 0 <= k < g.len() implies #[trigger] filter_keeps(fields, g[k], epoch) by {
            if k < filters.len() {
                assert(filter_keeps(fields, filters[k], epoch));
            }
        }
    }
    if entry_keeps(fields, g, epoch) {
        assert(filter_keeps(fields, g[filters.len() as int], epoch));
        assert forall|k: int| 0 <= k < filters.len() implies #[trigger] filter_keeps(fields, filters[k], epoch) by {
            assert(filter_keeps(fields, g[k], epoch));
        }
    }
}

/// The entries among `[lo, k)` that pass the filters, newest (highest
/// index) first.
pub open spec fn matches_between(
    log: StructuredLog,
    filters: Seq<(Option<Seq<char>>, FilterOp, Seq<char>)>,
    epochs: Seq<Option<u64>>,
    lo: int,
    k: int,
) -> Seq<usize>
    decreases k - lo,
{
    if k <= lo {
        seq![]
    } else {
        (if entry_keeps(fields_view(log.entries@[k - 1]), filters, epochs[k - 1]) {
            seq![(k - 1) as usize]
        } else {
            seq![]
        }) + matches_between(log, filters, epochs, lo, k - 1)
    }
}

fn collect_matches(
    log: &StructuredLog,
    filters: &[LogFilter],
    epochs: &[Option<u64>],
    lo: usize,
) -> (r: Vec<usize>)
    requires
        epochs@.len() == log.entries@.len(),
        lo <= log.entries@.len(),
    ensures
        r@ == matches_between(*log, filters_view(filters@), epochs@, lo as int, log.entries@.len() as int),
{
    let n = log.entries.len();
    let mut r: Vec<usize> = Vec::new();
    let mut k = n;
    while k > lo
        invariant
            lo <= k <= n,
            n == log.entries@.len(),
            epochs@.len() == n,
            r@ + matches_between(*log, filters_view(filters@), epochs@, lo as int, k as int)
                == matches_between(*log, filters_view(filters@), epochs@, lo as int, n as int),
        decreases k - lo,
    {
        let keep = filters.len() == 0 || entry_matches(&log.entries[k - 1], filters, epochs[k - 1]);
        let ghost before = r@;
        if keep {
            r.push(k - 1);
        }
        proof {
            if filters@.len() == 0 {
                assert(filters_view(filters@).len() == 0);
            }
            assert(r@ + matches_between(*log, filters_view(filters@), epochs@, lo as int, k - 1)
                =~= before + matches_between(*log, filters_view(filters@), epochs@, lo as int, k as int));
        }
        k = k - 1;
    }
    proof {
        assert(r@ + matches_between(*log, filters_view(filters@), epochs@, lo as int, k as int) =~= r@);
    }
    r
}

impl LogFilterState {
    /// Recomputes the matching entries (newest first) and keeps the cursor
    /// on them; `epochs` holds each entry's time.
    pub fn recompute_matches(&mut self, log: &StructuredLog, epochs: &[Option<u64>])
        requires
            epochs@.len() == log.entries@.len(),
        ensures
            final(self).cached_matches@ == matches_between(*log, filters_view(old(self).filters@), epochs@, 0, log.entries@.len() as int),
            final(self).cursor == min(old(self).cursor as int, sat_sub(final(self).cached_matches@.len() as int, 1)),
            final(self).scroll == min(old(self).scroll as int, final(self).cursor as int),
            final(self).filters == old(self).filters,
            final(self).input == old(self).input,
            final(self).marked == old(self).marked,
            final(self).input_active == old(self).input_active,
            final(self).paused == old(self).paused,
            same_columns(old(self), final(self)),
    {
        self.cached_matches = collect_matches(log, self.filters.as_slice(), epochs, 0);
        self.clamp_cursor();
    }

    /// Puts the matching entries from `from_index` on (newest first) before
    /// the known matches.
    pub fn extend_matches(&mut self, log: &StructuredLog, from_index: usize, epochs: &[Option<u64>])
        requires
            epochs@.len() == log.entries@.len(),
            from_index <= log.entries@.len(),
        ensures
            final(self).cached_matches@ == matches_between(*log, filters_view(old(self).filters@), epochs@, from_index as int, log.entries@.len() as int)
                + old(self).cached_matches@,
            final(self).cursor == old(self).cursor,
            final(self).scroll == old(self).scroll,
            final(self).filters == old(self).filters,
            final(self).input == old(self).input,
            final(self).marked == old(self).marked,
            final(self).input_active == old(self).input_active,
            final(self).paused == old(self).paused,
            same_columns(old(self), final(self)),
    {
        let mut new = collect_matches(log, self.filters.as_slice(), epochs, from_index);
        let mut old_matches = Vec::new();
        std::mem::swap(&mut old_matches, &mut self.cached_matches);
        new.append(&mut old_matches);
        self.cached_matches = new;
    }

    /// Reads the filters from the input, goes back to the newest entry and
    /// recomputes the matches.
    pub fn apply_input(&mut self, log: &StructuredLog, epochs: &[Option<u64>])
        requires
            epochs@.len() == log.entries@.len(),
            query_fits(old(self).input@),
        ensures
            exists|now: u64| filters_view(final(self).filters@) == filters_of(words(old(self).input@), now),
            final(self).cached_matches@ == matches_between(*log, filters_view(final(self).filters@), epochs@, 0, log.entries@.len() as int),
            final(self).cursor == 0,
            final(self).scroll == 0,
            final(self).input == old(self).input,
            final(self).marked == old(self).marked,
            final(self).input_active == old(self).input_active,
            final(self).paused == old(self).paused,
            same_columns(old(self), final(self)),
    {
        self.filters = parse_filters(self.input.as_str());
        self.cursor = 0;
        self.scroll = 0;
        self.recompute_matches(log, epochs);
    }
}

/// The words of `s` separated by white space (`str::split_whitespace`).
pub fn split_words(s: &str) -> (r: Vec<String>)
    ensures
        r@.map_values(|w: String| w@) == words(s@),
{
    let v = chars_of(s);
    let ghost sv = s@;
    let mut out: Vec<String> = Vec::new();
    let mut i: usize = 0;
    let mut st: Option<usize> = None;
    proof {
        assert(out@.map_values(|w: String| w@) =~= Seq::<Seq<char>>::empty());
    }
    while i < v.len()
        invariant
            v@ == sv,
            sv == s@,
            i <= v@.len(),
            st is Some ==> st->0 < i,
            out@.map_values(|w: String| w@) + words_scan(sv, i as int, if st is Some { st->0 as int } else { -1 }) == words(sv),
        decreases v@.len() - i,
    {
        if is_whitespace(v[i]) {
            if let Some(start) = st {
                let w = string_from_chars(v.as_slice(), start, i);
                proof {
                    let rest = words_scan(sv, i + 1, -1);
                    assert(words_scan(sv, i as int, start as int) == seq![sv.subrange(start as int, i as int)] + rest);
                }
                let ghost before = out@.map_values(|w: String| w@);
                out.push(w);
                proof {
                    assert(out@.map_values(|w: String| w@) =~= before.push(sv.subrange(start as int, i as int)));
                    assert(before + words_scan(sv, i as int, start as int) =~= before.push(sv.subrange(start as int, i as int)) + words_scan(sv, i + 1, -1));
                }
                st = None;
            } else {
                proof {
                    assert(words_scan(sv, i as int, -1) =~= words_scan(sv, i + 1, -1));
                }
            }
        } else {
            if st.is_none() {
                st = Some(i);
            }
        }
        i = i + 1;
    }
    if let Some(start) = st {
        let w = string_from_chars(v.as_slice(), start, i);
        let ghost before = out@.map_values(|w: String| w@);
        proof {
            assert(words_scan(sv, i as int, start as int) == seq![sv.subrange(start as int, i as int)]);
        }
        out.push(w);
        proof {
            assert(out@.map_values(|w: String| w@) =~= before.push(sv.subrange(start as int, i as int)));
            assert(before + words_scan(sv, i as int, start as int) =~= before.push(sv.subrange(start as int, i as int)));
        }
    } else {
        proof {
            assert(out@.map_values(|w: String| w@) + words_scan(sv, i as int, -1) =~= out@.map_values(|w: String| w@));
        }
    }
    out
}

/// Whether the duration `v[lo..]` fits in 64 bits (see `duration_fits`).
fn duration_fits_at(v: &[char], lo: usize) -> (b: bool)
    requires
        lo <= v@.len(),
    ensures
        b == duration_fits(v@.skip(lo as int)),
{
    let ghost arg = v@.skip(lo as int);
    let n = v.len();
    if n == lo {
        return true;
    }
    let last = v[n - 1];
    let unit: u64 = if last == 'h' {
        3600
    } else if last == 'm' {
        60
    } else if last == 'd' {
        86_400
    } else if last == 's' {
        1
    } else {
        proof {
            assert(arg.last() == last);
        }
        return true;
    };
    proof {
        assert(arg.last() == last);
        assert(arg.drop_last() =~= v@.subrange(lo as int, n - 1));
    }
    match parse_u64_chars(v, lo, n - 1) {
        Some(c) => c.checked_mul(unit).is_some(),
        None => true,
    }
}

/// Whether every `last:` word of the query has a duration that fits in 64
/// bits (see `query_fits`); reading a query for which this fails
/// overflows.
pub fn query_in_bounds(input: &str) -> (b: bool)
    ensures
        b == query_fits(input@),
{
    let ws = split_words(input);
    let ghost wv = ws@.map_values(|w: String| w@);
    let mut i: usize = 0;
    while i < ws.len()
        invariant
            i <= ws@.len(),
            wv == ws@.map_values(|w: String| w@),
            wv == words(input@),
            forall|k: int| 0 <= k < i && is_last_token(#[trigger] wv[k]) ==> duration_fits(wv[k].skip(5)),
        decreases ws@.len() - i,
    {
        let v = chars_of(ws[i].as_str());
        proof {
            assert(wv[i as int] == v@);
        }
        let is_last = v.len() >= 5 && v[0] == 'l' && v[1] == 'a' && v[2] == 's' && v[3] == 't' && v[4] == ':';
        proof {
            if v@.len() >= 5 {
                if is_last {
                    assert(v@.take(5) =~= seq!['l', 'a', 's', 't', ':']);
                } else {
                    if v@.take(5) == seq!['l', 'a', 's', 't', ':'] {
                        assert(v@[0] == v@.take(5)[0]);
                        assert(v@[1] == v@.take(5)[1]);
                        assert(v@[2] == v@.take(5)[2]);
                        assert(v@[3] == v@.take(5)[3]);
                        assert(v@[4] == v@.take(5)[4]);
                    }
                }
            }
        }
        if is_last && !duration_fits_at(v.as_slice(), 5) {
            return false;
        }
        i = i + 1;
    }
    true
}

/// Every index `matches_between` yields lies in `lo..k`.
pub proof fn lemma_matches_bounded(
    log: StructuredLog,
    filters: Seq<(Option<Seq<char>>, FilterOp, Seq<char>)>,
    epochs: Seq<Option<u64>>,
    lo: int,
    k: int,
)
    requires
        0 <= lo,
        k <= usize::MAX,
    ensures
        forall|j: int| 0 <= j < matches_between(log, filters, epochs, lo, k).len() ==> lo <= #[trigger] matches_between(log, filters, epochs, lo, k)[j] < k,
    decreases k - lo,
{
    if k > lo {
        lemma_matches_bounded(log, filters, epochs, lo, k - 1);
        let head: Seq<usize> = if entry_keeps(fields_view(log.entries@[k - 1]), filters, epochs[k - 1]) { seq![(k - 1) as usize] } else { seq![] };
        let rest = matches_between(log, filters, epochs, lo, k - 1);
        let m = matches_between(log, filters, epochs, lo, k);
        assert(m == head + rest);
        assert forall|j: int| 0 <= j < m.len() implies lo <= #[trigger] m[j] < k by {
            if j < head.len() {
                assert(m[j] == head[j]);
            } else {
                assert(m[j] == rest[j - head.len()]);
            }
        }
    }
}

/// The matches of `lo..hi` are those of `mid..hi` followed by those of
/// `lo..mid` (newest first).
pub proof fn lemma_matches_split(
    log: StructuredLog,
    filters: Seq<(Option<Seq<char>>, FilterOp, Seq<char>)>,
    epochs: Seq<Option<u64>>,
    lo: int,
    mid: int,
    hi: int,
)
    requires
        lo <= mid <= hi,
    ensures
        matches_between(log, filters, epochs, lo, hi) == matches_between(log, filters, epochs, mid, hi) + matches_between(
            log,
            filters,
            epochs,
            lo,
            mid,
        ),
    decreases hi - mid,
{
    if hi == mid {
        assert(matches_between(log, filters, epochs, mid, hi) + matches_between(log, filters, epochs, lo, mid)
            =~= matches_between(log, filters, epochs, lo, hi));
    } else {
        lemma_matches_split(log, filters, epochs, lo, mid, hi - 1);
        let head: Seq<usize> = if entry_keeps(fields_view(log.entries@[hi - 1]), filters, epochs[hi - 1]) {
            seq![(hi - 1) as usize]
        } else {
            seq![]
        };
        assert(matches_between(log, filters, epochs, lo, hi) == head + matches_between(log, filters, epochs, lo, hi - 1));
        assert(matches_between(log, filters, epochs, mid, hi) == head + matches_between(log, filters, epochs, mid, hi - 1));
        assert(head + (matches_between(log, filters, epochs, mid, hi - 1) + matches_between(log, filters, epochs, lo, mid))
            =~= (head + matches_between(log, filters, epochs, mid, hi - 1)) + matches_between(log, filters, epochs, lo, mid));
    }
}

/// Two logs that agree on their first `k` entries and times have the same
/// matches among them.
pub proof fn lemma_matches_prefix(
    a: StructuredLog,
    ea: Seq<Option<u64>>,
    b: StructuredLog,
    eb: Seq<Option<u64>>,
    filters: Seq<(Option<Seq<char>>, FilterOp, Seq<char>)>,
    k: int,
)
    requires
        0 <= k <= a.entries@.len(),
        k <= b.entries@.len(),
        k <= ea.len(),
        k <= eb.len(),
        forall|i: int| 0 <= i < k ==> #[trigger] a.entries@[i] == b.entries@[i],
        forall|i: int| 0 <= i < k ==> #[trigger] ea[i] == eb[i],
    ensures
        matches_between(a, filters, ea, 0, k) == matches_between(b, filters, eb, 0, k),
    decreases k,
{
    if k > 0 {
        lemma_matches_prefix(a, ea, b, eb, filters, k - 1);
        assert(a.entries@[k - 1] == b.entries@[k - 1]);
        assert(ea[k - 1] == eb[k - 1]);
    }
}

} // verus!

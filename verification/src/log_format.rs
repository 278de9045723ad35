//! Showing log entries: an entry as `key=value` text over the shown
//! columns, the columns a log starts with, and the field names it knows.
use vstd::prelude::*;
use crate::chars::{ascii_lower_seq, push_char, push_str, str_eq, str_to_ascii_lowercase, to_owned_string};
use crate::log_types::{ColumnConfig, LogEntry, cols_view, fields_view};

verus! {

/// The value of the first field from `i` on named exactly `name`.
pub open spec fn field_named(fields: Seq<(Seq<char>, Seq<char>)>, name: Seq<char>, i: int) -> Option<Seq<char>>
    decreases fields.len() - i,
{
    if i < 0 || i >= fields.len() {
        None
    } else if fields[i].0 == name {
        Some(fields[i].1)
    } else {
        field_named(fields, name, i + 1)
    }
}

/// `v` with each `"` written as `\"`.
pub open spec fn escape_quotes(v: Seq<char>) -> Seq<char>
    decreases v.len(),
{
    if v.len() == 0 {
        seq![]
    } else {
        escape_quotes(v.drop_last()) + (if v.last() == '"' { seq!['\\', '"'] } else { seq![v.last()] })
    }
}

/// A field as `key=value`; a value that is empty or holds a space or a
/// quote is quoted, its quotes escaped.
pub open spec fn pair_text(k: Seq<char>, v: Seq<char>) -> Seq<char> {
    if v.contains(' ') || v.contains('"') || v.len() == 0 {
        k + seq!['=', '"'] + escape_quotes(v) + seq!['"']
    } else {
        k + seq!['='] + v
    }
}

/// The shown fields of an entry, one `key=value` text per column that
/// the entry has.
pub open spec fn visible_pairs(fields: Seq<(Seq<char>, Seq<char>)>, cols: Seq<ColumnConfig>) -> Seq<Seq<char>>
    decreases cols.len(),
{
    if cols.len() == 0 {
        seq![]
    } else {
        let rest = visible_pairs(fields, cols.drop_last());
        match field_named(fields, cols.last().field@, 0) {
            Some(v) => rest.push(pair_text(cols.last().field@, v)),
            None => rest,
        }
    }
}

/// The parts joined, `sep` between each two.
pub open spec fn join_with(parts: Seq<Seq<char>>, sep: Seq<char>) -> Seq<char>
    decreases parts.len(),
{
    if parts.len() == 0 {
        seq![]
    } else if parts.len() == 1 {
        parts[0]
    } else {
        join_with(parts.drop_last(), sep) + sep + parts.last()
    }
}

/// The first field of `entry` named exactly `name`.
pub(crate) fn find_field<'a>(entry: &'a LogEntry, name: &str) -> (r: Option<&'a str>)
    ensures
        match field_named(fields_view(*entry), name@, 0) {
            Some(v) => r is Some && r->0@ == v,
            None => r is None,
        },
{
    let mut i: usize = 0;
    while i < entry.fields.len()
        invariant
            i <= entry.fields@.len(),
            field_named(fields_view(*entry), name@, 0) == field_named(fields_view(*entry), name@, i as int),
        decreases entry.fields.len() - i,
    {
        if str_eq(entry.fields[i].0.as_str(), name) {
            return Some(entry.fields[i].1.as_str());
        }
        i = i + 1;
    }
    None
}

/// Appends `key=value` (see `pair_text`).
fn push_pair(out: &mut String, k: &str, v: &str)
    ensures
        final(out)@ == old(out)@ + pair_text(k@, v@),
{
    let n = v.unicode_len();
    let mut quote = n == 0;
    let mut i: usize = 0;
    while i < n && !quote
        invariant
            i <= n == v@.len(),
            quote == (n == 0 || exists|j: int| 0 <= j < i && (v@[j] == ' ' || v@[j] == '"')),
        decreases n - i,
    {
        let c = v.get_char(i);
        if c == ' ' || c == '"' {
            quote = true;
        }
        i = i + 1;
    }
    proof {
        if quote && n > 0 {
            let j = choose|j: int| 0 <= j < i && (v@[j] == ' ' || v@[j] == '"');
            if v@[j] == ' ' {
                assert(v@.contains(' '));
            } else {
                assert(v@.contains('"'));
            }
        }
        if !quote {
            assert(i == n);
            if v@.contains(' ') {
                let j = choose|j: int| 0 <= j < v@.len() && v@[j] == ' ';
                assert(v@[j] == ' ');
            }
            if v@.contains('"') {
                let j = choose|j: int| 0 <= j < v@.len() && v@[j] == '"';
                assert(v@[j] == '"');
            }
        }
    }
    push_str(out, k);
    if quote {
        push_char(out, '=');
        push_char(out, '"');
        let ghost base = out@;
        let mut j: usize = 0;
        while j < n
            invariant
                j <= n == v@.len(),
                out@ == base + escape_quotes(v@.take(j as int)),
            decreases n - j,
        {
            let c = v.get_char(j);
            proof {
                assert(v@.take(j + 1).drop_last() =~= v@.take(j as int));
            }
            if c == '"' {
                push_char(out, '\\');
                push_char(out, '"');
            } else {
                push_char(out, c);
            }
            proof {
                assert(out@ =~= base + escape_quotes(v@.take(j + 1)));
            }
            j = j + 1;
        }
        proof {
            assert(v@.take(n as int) =~= v@);
        }
        push_char(out, '"');
    } else {
        push_char(out, '=');
        push_str(out, v);
    }
}

/// An entry as text over the shown columns: its fields in column order as
/// `key=value` (see `pair_text`), two spaces apart; columns the entry
/// lacks are left out.
pub fn format_entry_visible(entry: &LogEntry, visible_cols: &[ColumnConfig]) -> (r: String)
    ensures
        r@ == join_with(visible_pairs(fields_view(*entry), visible_cols@), seq![' ', ' ']),
{
    let mut out = String::new();
    let mut any = false;
    let mut i: usize = 0;
    proof {
        assert(visible_cols@.take(0) =~= Seq::<ColumnConfig>::empty());
    }
    while i < visible_cols.len()
        invariant
            i <= visible_cols@.len(),
            any == (visible_pairs(fields_view(*entry), visible_cols@.take(i as int)).len() > 0),
            out@ == join_with(visible_pairs(fields_view(*entry), visible_cols@.take(i as int)), seq![' ', ' ']),
        decreases visible_cols.len() - i,
    {
        let ghost fv = fields_view(*entry);
        let ghost before = visible_pairs(fv, visible_cols@.take(i as int));
        proof {
            assert(visible_cols@.take(i + 1).drop_last() =~= visible_cols@.take(i as int));
        }
        match find_field(entry, visible_cols[i].field.as_str()) {
            Some(v) => {
                let ghost p = pair_text(visible_cols@[i as int].field@, v@);
                if any {
                    push_char(&mut out, ' ');
                    push_char(&mut out, ' ');
                }
                push_pair(&mut out, visible_cols[i].field.as_str(), v);
                any = true;
                proof {
                    let now = visible_pairs(fv, visible_cols@.take(i + 1));
                    assert(now == before.push(p));
                    assert(now.drop_last() =~= before);
                    if before.len() == 0 {
                        assert(out@ =~= join_with(now, seq![' ', ' ']));
                    } else {
                        assert(out@ =~= join_with(now, seq![' ', ' ']));
                    }
                }
            },
            None => {},
        }
        i = i + 1;
    }
    proof {
        assert(visible_cols@.take(visible_cols@.len() as int) =~= visible_cols@);
    }
    out
}

/// The names of message fields, which get wide columns.
pub open spec fn is_msg_field(n: Seq<char>) -> bool {
    n == "msg"@ || n == "message"@ || n == "text"@ || n == "body"@ || n == "log"@
}

/// How many entries are sampled to size the columns.
pub const WIDTH_SAMPLE: usize = 200;

/// The widest value (capped at 40 chars) of the field `name` over the
/// entries, starting from `start`.
pub open spec fn widest_value(es: Seq<LogEntry>, name: Seq<char>, start: nat) -> nat
    decreases es.len(),
{
    if es.len() == 0 {
        start
    } else {
        let prev = widest_value(es.drop_last(), name, start);
        match field_named(fields_view(es.last()), name, 0) {
            Some(v) => {
                let l = if v.len() < 40 { v.len() } else { 40 };
                if l > prev { l } else { prev }
            },
            None => prev,
        }
    }
}

/// The width of the column of `name`: its name's length (at least 6) or
/// its widest value among the first 200 entries, at most 40; message
/// fields get 40.
pub open spec fn col_width(name: Seq<char>, entries: Seq<LogEntry>) -> nat {
    let base: nat = if name.len() < 6 { 6 } else { name.len() };
    let sample = if entries.len() < 200 { entries } else { entries.take(200) };
    let w = widest_value(sample, name, base);
    let w2: nat = if w < 40 { w } else { 40 };
    if is_msg_field(ascii_lower_seq(name)) {
        let w3: nat = if w2 > 40 { w2 } else { 40 };
        if w3 < 60 { w3 } else { 60 }
    } else {
        w2
    }
}

/// The width of the column of `name` (see `col_width`).
fn column_width(name: &str, entries: &[LogEntry]) -> (w: usize)
    ensures
        w == col_width(name@, entries@),
{
    let nl = name.unicode_len();
    let mut w: usize = if nl < 6 { 6 } else { nl };
    let sample = if entries.len() < WIDTH_SAMPLE { entries.len() } else { WIDTH_SAMPLE };
    let ghost base = w as nat;
    let ghost es = if entries@.len() < 200 { entries@ } else { entries@.take(200) };
    proof {
        assert(es.len() == sample);
        assert(es.take(0) =~= Seq::<LogEntry>::empty());
    }
    let mut k: usize = 0;
    while k < sample
        invariant
            k <= sample == es.len(),
            es == (if entries@.len() < 200 { entries@ } else { entries@.take(200) }),
            w == widest_value(es.take(k as int), name@, base),
            base <= w,
        decreases sample - k,
    {
        proof {
            assert(es.take(k + 1).drop_last() =~= es.take(k as int));
            assert(es[k as int] == entries@[k as int]);
        }
        match find_field(&entries[k], name) {
            Some(v) => {
                let vl = v.unicode_len();
                let l = if vl < 40 { vl } else { 40 };
                if l > w {
                    w = l;
                }
            },
            None => {},
        }
        k = k + 1;
    }
    proof {
        assert(es.take(sample as int) =~= es);
    }
    if w > 40 {
        w = 40;
    }
    let lower = str_to_ascii_lowercase(name);
    let l = lower.as_str();
    if str_eq(l, "msg") || str_eq(l, "message") || str_eq(l, "text") || str_eq(l, "body") || str_eq(l, "log") {
        let w3 = if w > 40 { w } else { 40 };
        w = if w3 < 60 { w3 } else { 60 };
    }
    w
}

/// The columns a log starts with: one per field, in order, sized by
/// `col_width`.
pub fn init_visible_cols(fields: &[String], entries: &[LogEntry]) -> (r: Vec<ColumnConfig>)
    ensures
        r@.len() == fields@.len(),
        forall|i: int| 0 <= i < fields@.len() ==> (#[trigger] r@[i]).field@ == fields@[i]@
            && r@[i].width == col_width(fields@[i]@, entries@),
{
    let mut out: Vec<ColumnConfig> = Vec::new();
    let mut i: usize = 0;
    while i < fields.len()
        invariant
            i <= fields@.len(),
            out@.len() == i,
            forall|j: int| 0 <= j < i ==> (#[trigger] out@[j]).field@ == fields@[j]@
                && out@[j].width == col_width(fields@[j]@, entries@),
        decreases fields.len() - i,
    {
        let w = column_width(fields[i].as_str(), entries);
        out.push(ColumnConfig { field: to_owned_string(fields[i].as_str()), width: w });
        i = i + 1;
    }
    out
}

/// The names `names` followed by those of `keys` they lack, in order,
/// each once.
pub open spec fn with_new_names(names: Seq<Seq<char>>, keys: Seq<Seq<char>>) -> Seq<Seq<char>>
    decreases keys.len(),
{
    if keys.len() == 0 {
        names
    } else {
        let prev = with_new_names(names, keys.drop_last());
        if prev.contains(keys.last()) {
            prev
        } else {
            prev.push(keys.last())
        }
    }
}

/// The field names of an entry.
pub open spec fn entry_keys(e: LogEntry) -> Seq<Seq<char>> {
    e.fields@.map_values(|p: (String, String)| p.0@)
}

/// The names, as text.
pub open spec fn names_view(v: Seq<String>) -> Seq<Seq<char>> {
    v.map_values(|s: String| s@)
}

/// Adds the entry's field names that `all_fields` lacks, in order.
pub fn update_fields(all_fields: &mut Vec<String>, entry: &LogEntry)
    ensures
        names_view(final(all_fields)@) == with_new_names(names_view(old(all_fields)@), entry_keys(*entry)),
{
    let ghost start = names_view(all_fields@);
    let ghost keys = entry_keys(*entry);
    let mut i: usize = 0;
    proof {
        assert(keys.take(0) =~= Seq::<Seq<char>>::empty());
    }
    while i < entry.fields.len()
        invariant
            i <= entry.fields@.len(),
            keys == entry_keys(*entry),
            names_view(all_fields@) == with_new_names(start, keys.take(i as int)),
        decreases entry.fields.len() - i,
    {
        let k = entry.fields[i].0.as_str();
        proof {
            assert(keys.take(i + 1).drop_last() =~= keys.take(i as int));
            assert(keys.take(i + 1).last() == k@);
        }
        let mut j: usize = 0;
        let mut found = false;
        while j < all_fields.len() && !found
            invariant
                j <= all_fields@.len(),
                found ==> names_view(all_fields@).contains(k@),
                !found ==> forall|x: int| 0 <= x < j ==> all_fields@[x]@ != k@,
            decreases all_fields.len() - j,
        {
            if str_eq(all_fields[j].as_str(), k) {
                found = true;
                proof {
                    assert(names_view(all_fields@)[j as int] == k@);
                }
            }
            j = j + 1;
        }
        if !found {
            proof {
                let nv = names_view(all_fields@);
                assert forall|x: int| 0 <= x < nv.len() implies nv[x] != k@ by {
                    assert(nv[x] == all_fields@[x]@);
                }
            }
            let ghost before = all_fields@;
            all_fields.push(to_owned_string(k));
            proof {
                assert(names_view(all_fields@) =~= names_view(before).push(k@));
            }
        }
        i = i + 1;
    }
    proof {
        assert(keys.take(entry.fields@.len() as int) =~= keys);
    }
}

/// Where a field name comes in the preferred order (by its lower-cased
/// name): time fields, level fields, message fields, origin, errors,
/// source position; other names after all of them.
pub open spec fn priority_of(f: Seq<char>) -> int {
    let l = ascii_lower_seq(f);
    if l == "time"@ {
        0
    } else if l == "timestamp"@ {
        1
    } else if l == "ts"@ {
        2
    } else if l == "datetime"@ {
        3
    } else if l == "date"@ {
        4
    } else if l == "@timestamp"@ {
        5
    } else if l == "level"@ {
        6
    } else if l == "severity"@ {
        7
    } else if l == "lvl"@ {
        8
    } else if l == "log_level"@ {
        9
    } else if l == "loglevel"@ {
        10
    } else if l == "msg"@ {
        11
    } else if l == "message"@ {
        12
    } else if l == "text"@ {
        13
    } else if l == "body"@ {
        14
    } else if l == "service"@ {
        15
    } else if l == "app"@ {
        16
    } else if l == "application"@ {
        17
    } else if l == "component"@ {
        18
    } else if l == "error"@ {
        19
    } else if l == "err"@ {
        20
    } else if l == "caller"@ {
        21
    } else if l == "file"@ {
        22
    } else if l == "line"@ {
        23
    } else {
        usize::MAX as int
    }
}

/// The place of a field name in the preferred order (see `priority_of`).
fn priority_index(f: &str) -> (r: usize)
    ensures
        r == priority_of(f@),
{
    let lower = str_to_ascii_lowercase(f);
    let l = lower.as_str();
    if str_eq(l, "time") {
        0
    } else if str_eq(l, "timestamp") {
        1
    } else if str_eq(l, "ts") {
        2
    } else if str_eq(l, "datetime") {
        3
    } else if str_eq(l, "date") {
        4
    } else if str_eq(l, "@timestamp") {
        5
    } else if str_eq(l, "level") {
        6
    } else if str_eq(l, "severity") {
        7
    } else if str_eq(l, "lvl") {
        8
    } else if str_eq(l, "log_level") {
        9
    } else if str_eq(l, "loglevel") {
        10
    } else if str_eq(l, "msg") {
        11
    } else if str_eq(l, "message") {
        12
    } else if str_eq(l, "text") {
        13
    } else if str_eq(l, "body") {
        14
    } else if str_eq(l, "service") {
        15
    } else if str_eq(l, "app") {
        16
    } else if str_eq(l, "application") {
        17
    } else if str_eq(l, "component") {
        18
    } else if str_eq(l, "error") {
        19
    } else if str_eq(l, "err") {
        20
    } else if str_eq(l, "caller") {
        21
    } else if str_eq(l, "file") {
        22
    } else if str_eq(l, "line") {
        23
    } else {
        usize::MAX
    }
}

/// `a` comes before `b` in code point order.
pub open spec fn chars_lt(a: Seq<char>, b: Seq<char>) -> bool
    decreases a.len(),
{
    if a.len() == 0 {
        b.len() > 0
    } else if b.len() == 0 {
        false
    } else if a[0] != b[0] {
        (a[0] as u32) < (b[0] as u32)
    } else {
        chars_lt(a.drop_first(), b.drop_first())
    }
}

/// The field name `a` is listed before `b`: by preferred place, then in
/// code point order (the order of `String`).
pub open spec fn field_before(a: Seq<char>, b: Seq<char>) -> bool {
    priority_of(a) < priority_of(b) || (priority_of(a) == priority_of(b) && chars_lt(a, b))
}

/// Code point order is transitive and asymmetric.
pub proof fn lemma_chars_lt_order(a: Seq<char>, b: Seq<char>, c: Seq<char>)
    ensures
        chars_lt(a, b) && chars_lt(b, c) ==> chars_lt(a, c),
        chars_lt(a, b) ==> !chars_lt(b, a),
    decreases a.len(),
{
    if a.len() > 0 && b.len() > 0 && c.len() > 0 {
        lemma_chars_lt_order(a.drop_first(), b.drop_first(), c.drop_first());
    }
    if a.len() > 0 && b.len() > 0 && a[0] == b[0] {
        lemma_chars_lt_order(a.drop_first(), b.drop_first(), b.drop_first());
    }
}

/// The order of field names is transitive and asymmetric.
pub proof fn lemma_field_before_order(a: Seq<char>, b: Seq<char>, c: Seq<char>)
    ensures
        field_before(a, b) && field_before(b, c) ==> field_before(a, c),
        field_before(a, b) ==> !field_before(b, a),
{
    lemma_chars_lt_order(a, b, c);
    lemma_chars_lt_order(b, a, a);
}

/// Whether `a` comes before `b` in code point order.
pub(crate) fn str_lt(a: &str, b: &str) -> (r: bool)
    ensures
        r == chars_lt(a@, b@),
{
    let na = a.unicode_len();
    let nb = b.unicode_len();
    let mut i: usize = 0;
    proof {
        assert(a@.skip(0) =~= a@);
        assert(b@.skip(0) =~= b@);
        assert(a@.take(0) =~= b@.take(0));
    }
    while i < na && i < nb
        invariant
            i <= na == a@.len(),
            i <= nb == b@.len(),
            a@.take(i as int) == b@.take(i as int),
            chars_lt(a@, b@) == chars_lt(a@.skip(i as int), b@.skip(i as int)),
        decreases na - i,
    {
        let ca = a.get_char(i);
        let cb = b.get_char(i);
        proof {
            assert(a@.skip(i as int)[0] == ca);
            assert(b@.skip(i as int)[0] == cb);
        }
        if ca != cb {
            return (ca as u32) < (cb as u32);
        }
        proof {
            assert(a@.skip(i as int).drop_first() =~= a@.skip(i + 1));
            assert(b@.skip(i as int).drop_first() =~= b@.skip(i + 1));
            assert(a@.take(i + 1) =~= a@.take(i as int).push(ca));
            assert(b@.take(i + 1) =~= b@.take(i as int).push(cb));
        }
        i = i + 1;
    }
    i < nb
}

/// The field names in display order: sorted by `field_before` (a stable
/// sort, so equal names keep their order).
pub fn prioritised_fields(fields: Vec<String>) -> (r: Vec<String>)
    ensures
        names_view(r@).to_multiset() == names_view(fields@).to_multiset(),
        forall|i: int, j: int| 0 <= i < j < r@.len() ==> !field_before(#[trigger] r@[j]@, #[trigger] r@[i]@),
{
    broadcast use vstd::seq_lib::group_to_multiset_ensures;
    let mut out: Vec<String> = Vec::new();
    let mut keys: Vec<usize> = Vec::new();
    let mut i: usize = 0;
    proof {
        assert(names_view(fields@).take(0) =~= names_view(out@));
    }
    while i < fields.len()
        invariant
            i <= fields@.len(),
            keys@.len() == out@.len(),
            forall|k: int| 0 <= k < out@.len() ==> keys@[k] == priority_of(#[trigger] out@[k]@),
            names_view(out@).to_multiset() == names_view(fields@).take(i as int).to_multiset(),
            forall|a: int, b: int| 0 <= a < b < out@.len() ==> !field_before(#[trigger] out@[b]@, #[trigger] out@[a]@),
        decreases fields.len() - i,
    {
        let x = &fields[i];
        let px = priority_index(x.as_str());
        let mut k: usize = 0;
        while k < out.len() && !(px < keys[k] || (px == keys[k] && str_lt(x.as_str(), out[k].as_str())))
            invariant
                k <= out@.len() == keys@.len(),
                px == priority_of(x@),
                forall|q: int| 0 <= q < out@.len() ==> keys@[q] == priority_of(#[trigger] out@[q]@),
                forall|q: int| 0 <= q < k ==> !field_before(x@, #[trigger] out@[q]@),
            decreases out.len() - k,
        {
            k = k + 1;
        }
        let ghost before = out@;
        let ghost nb = names_view(before);
        proof {
            if k < before.len() {
                assert(field_before(x@, before[k as int]@));
            }
        }
        out.insert(k, to_owned_string(x.as_str()));
        keys.insert(k, px);
        proof {
            assert(names_view(out@) =~= nb.insert(k as int, x@));
            assert(names_view(fields@).take(i + 1) =~= names_view(fields@).take(i as int).push(x@));
            vstd::seq_lib::to_multiset_insert(nb, k as int, x@);
            vstd::seq_lib::to_multiset_build(names_view(fields@).take(i as int), x@);
            assert forall|a: int, b: int| 0 <= a < b < out@.len() implies !field_before(#[trigger] out@[b]@, #[trigger] out@[a]@) by {
                if b < k {
                    assert(out@[a] == before[a] && out@[b] == before[b]);
                } else if b == k {
                    assert(out@[a] == before[a]);
                } else if a == k {
                    assert(out@[b] == before[b - 1]);
                    lemma_field_before_order(before[b - 1]@, x@, before[k as int]@);
                    if b - 1 > k {
                        assert(!field_before(before[b - 1]@, before[k as int]@));
                    }
                } else if a < k {
                    assert(out@[a] == before[a] && out@[b] == before[b - 1]);
                } else {
                    assert(out@[a] == before[a - 1] && out@[b] == before[b - 1]);
                }
            }
        }
        i = i + 1;
    }
    proof {
        assert(names_view(fields@).take(fields@.len() as int) =~= names_view(fields@));
    }
    out
}

} // verus!

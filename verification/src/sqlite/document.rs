//! What the preview of a database shows: the queries it runs on a table,
//! how a column is summed up, and the table of sample rows.
use vstd::prelude::*;
use crate::chars::{byte_len, decimal, push_char, push_decimal, push_decimal_u64, push_str, str_byte_len, to_owned_string};
use crate::log_format::join_with;
use crate::log_layout::{pad_right, padded};
use super::{Column, DbObject};

verus! {

/// Cells of the sample table are at most this wide (and text values this
/// many chars long).
pub const MAX_COL_WIDTH: usize = 30;

/// At most this many tables are shown in detail.
pub const MAX_TABLES_DETAIL: usize = 20;

/// The number of sample rows read from a table.
pub const SAMPLE_ROWS: usize = 5;

/// `s` with each double quote doubled, as inside a quoted SQL name.
pub open spec fn escaped(s: Seq<char>) -> Seq<char>
    decreases s.len(),
{
    if s.len() == 0 {
        Seq::empty()
    } else {
        escaped(s.drop_last()) + (if s.last() == '"' { seq!['"', '"'] } else { seq![s.last()] })
    }
}

/// The name `name` with each double quote doubled (see `escaped`).
pub fn escape_identifier(name: &str) -> (r: String)
    ensures
        r@ == escaped(name@),
{
    let v = crate::chars::chars_of(name);
    let mut r = String::new();
    let mut i: usize = 0;
    while i < v.len()
        invariant
            i <= v@.len(),
            v@ == name@,
            r@ == escaped(v@.take(i as int)),
        decreases v@.len() - i,
    {
        proof {
            assert(v@.take(i + 1).drop_last() =~= v@.take(i as int));
        }
        let c = v[i];
        if c == '"' {
            push_char(&mut r, '"');
            push_char(&mut r, '"');
            proof {
                assert(r@ =~= escaped(v@.take(i + 1)));
            }
        } else {
            push_char(&mut r, c);
            proof {
                assert(r@ =~= escaped(v@.take(i + 1)));
            }
        }
        i = i + 1;
    }
    proof {
        assert(v@.take(v@.len() as int) =~= v@);
    }
    r
}

/// The query that counts the rows of the table `name`.
pub fn count_query(name: &str) -> (r: String)
    ensures
        r@ == "SELECT COUNT(*) FROM \""@ + escaped(name@) + "\""@,
{
    let mut r = String::new();
    push_str(&mut r, "SELECT COUNT(*) FROM \"");
    let e = escape_identifier(name);
    push_str(&mut r, e.as_str());
    push_str(&mut r, "\"");
    r
}

/// The query that lists the columns of the table `name`.
pub fn table_info_query(name: &str) -> (r: String)
    ensures
        r@ == "PRAGMA table_info(\""@ + escaped(name@) + "\")"@,
{
    let mut r = String::new();
    push_str(&mut r, "PRAGMA table_info(\"");
    let e = escape_identifier(name);
    push_str(&mut r, e.as_str());
    push_str(&mut r, "\")");
    r
}

/// The query that reads the first `limit` rows of the table `name`.
pub fn sample_query(name: &str, limit: usize) -> (r: String)
    ensures
        r@ == "SELECT * FROM \""@ + escaped(name@) + "\" LIMIT "@ + decimal(limit as nat),
{
    let mut r = String::new();
    push_str(&mut r, "SELECT * FROM \"");
    let e = escape_identifier(name);
    push_str(&mut r, e.as_str());
    push_str(&mut r, "\" LIMIT ");
    push_decimal(&mut r, limit);
    r
}

/// How a column is listed: its name and type, then a key for a primary
/// key or `!` for a column that cannot be null.
pub open spec fn column_label(c: Column) -> Seq<char> {
    c.name@ + " "@ + c.typ@ + (if c.pk { " \u{1f511}"@ } else if c.notnull { " !"@ } else { Seq::empty() })
}

/// The labels of the columns.
pub open spec fn column_labels(cols: Seq<Column>) -> Seq<Seq<char>> {
    cols.map_values(|c: Column| column_label(c))
}

/// The columns of a table in one line (see `column_label`), `  |  `
/// between each two.
pub fn column_summary(columns: &[Column]) -> (r: String)
    ensures
        r@ == join_with(column_labels(columns@), "  |  "@),
{
    let mut r = String::new();
    let mut i: usize = 0;
    while i < columns.len()
        invariant
            i <= columns@.len(),
            r@ == join_with(column_labels(columns@.take(i as int)), "  |  "@),
        decreases columns@.len() - i,
    {
        let c = &columns[i];
        if i > 0 {
            push_str(&mut r, "  |  ");
        }
        push_str(&mut r, c.name.as_str());
        push_str(&mut r, " ");
        push_str(&mut r, c.typ.as_str());
        if c.pk {
            push_str(&mut r, " \u{1f511}");
        } else if c.notnull {
            push_str(&mut r, " !");
        }
        proof {
            let now = column_labels(columns@.take(i + 1));
            assert(now.drop_last() =~= column_labels(columns@.take(i as int)));
            assert(now.last() == column_label(columns@[i as int]));
            if i == 0 {
                assert(r@ =~= column_label(columns@[0]));
            } else {
                assert(r@ =~= join_with(now.drop_last(), "  |  "@) + "  |  "@ + now.last());
            }
        }
        i = i + 1;
    }
    proof {
        assert(columns@.take(columns@.len() as int) =~= columns@);
    }
    r
}

/// A value read from a table, as the preview shows it: a real number is
/// shown by the caller, which formats it.
pub enum SqlCell {
    Null,
    Integer(i64),
    Text(Vec<u8>),
    Blob(usize),
}

/// The text of a signed number.
pub open spec fn signed_decimal(n: int) -> Seq<char> {
    if n < 0 { seq!['-'] + decimal((-n) as nat) } else { decimal(n as nat) }
}

/// The text of a cell: `NULL`, the number, the text (as `from_utf8_lossy`
/// reads it) cut to `MAX_COL_WIDTH` chars, or `<blob n bytes>`.
pub open spec fn cell_display(c: SqlCell) -> Seq<char> {
    match c {
        SqlCell::Null => "NULL"@,
        SqlCell::Integer(n) => signed_decimal(n as int),
        SqlCell::Text(b) => {
            let t = crate::git::spec_utf8_lossy(b@);
            if t.len() > MAX_COL_WIDTH { t.take(MAX_COL_WIDTH as int) } else { t }
        },
        SqlCell::Blob(n) => "<blob "@ + decimal(n as nat) + " bytes>"@,
    }
}

/// The text of a cell (see `cell_display`).
pub fn format_cell(c: &SqlCell) -> (r: String)
    ensures
        r@ == cell_display(*c),
{
    match c {
        SqlCell::Null => to_owned_string("NULL"),
        SqlCell::Integer(n) => {
            let mut r = String::new();
            if *n < 0 {
                push_char(&mut r, '-');
                let m: u64 = if *n == i64::MIN { 9223372036854775808u64 } else { (-*n) as u64 };
                push_decimal_u64(&mut r, m);
                proof {
                    assert(r@ =~= seq!['-'] + decimal((-(*n as int)) as nat));
                }
            } else {
                push_decimal_u64(&mut r, *n as u64);
            }
            r
        },
        SqlCell::Text(b) => {
            let t = crate::git::utf8_lossy(b.as_slice());
            let v = crate::chars::chars_of(t.as_str());
            let end = if v.len() > MAX_COL_WIDTH { MAX_COL_WIDTH } else { v.len() };
            proof {
                assert(v@.subrange(0, end as int) =~= (if v@.len() > MAX_COL_WIDTH { v@.take(MAX_COL_WIDTH as int) } else { v@ }));
            }
            crate::chars::string_from_chars(v.as_slice(), 0, end)
        },
        SqlCell::Blob(n) => {
            let mut r = String::new();
            push_str(&mut r, "<blob ");
            push_decimal(&mut r, *n);
            push_str(&mut r, " bytes>");
            r
        },
    }
}

/// The texts of `parts`.
pub open spec fn texts(parts: Seq<String>) -> Seq<Seq<char>> {
    parts.map_values(|s: String| s@)
}

/// `parts` joined, `sep` between each two.
fn join_parts(parts: &Vec<String>, sep: &str) -> (r: String)
    ensures
        r@ == join_with(texts(parts@), sep@),
{
    let mut r = String::new();
    let mut i: usize = 0;
    while i < parts.len()
        invariant
            i <= parts@.len(),
            r@ == join_with(texts(parts@.take(i as int)), sep@),
        decreases parts@.len() - i,
    {
        if i > 0 {
            push_str(&mut r, sep);
        }
        push_str(&mut r, parts[i].as_str());
        proof {
            let now = texts(parts@.take(i + 1));
            assert(now.drop_last() =~= texts(parts@.take(i as int)));
            assert(now.last() == parts@[i as int]@);
            if i == 0 {
                assert(r@ =~= now[0]);
            } else {
                assert(r@ =~= join_with(now.drop_last(), sep@) + sep@ + now.last());
            }
        }
        i = i + 1;
    }
    proof {
        assert(parts@.take(parts@.len() as int) =~= parts@);
    }
    r
}

/// The byte length of cell `i` of `row` (0 when it has none).
pub open spec fn cell_bytes(row: Seq<String>, i: int) -> nat {
    if 0 <= i < row.len() { byte_len(row[i]@) } else { 0 }
}

/// The byte length of the longest cell `i` of `rows`.
pub open spec fn widest_cell(rows: Seq<Vec<String>>, i: int) -> nat
    decreases rows.len(),
{
    if rows.len() == 0 {
        0
    } else {
        let w = widest_cell(rows.drop_last(), i);
        let c = cell_bytes(rows.last()@, i);
        if c > w { c } else { w }
    }
}

/// The width of column `i`, named `name`, of a table of `rows`: the byte
/// length of its name or of its longest cell, at most `MAX_COL_WIDTH`.
pub open spec fn table_width(name: Seq<char>, rows: Seq<Vec<String>>, i: int) -> nat {
    let m = if byte_len(name) > widest_cell(rows, i) { byte_len(name) } else { widest_cell(rows, i) };
    if m < MAX_COL_WIDTH { m } else { MAX_COL_WIDTH as nat }
}

/// The width of each column of a table of `rows` (see `table_width`).
pub fn table_widths(columns: &[Column], rows: &[Vec<String>]) -> (r: Vec<usize>)
    ensures
        r@.len() == columns@.len(),
        forall|i: int| 0 <= i < r@.len() ==> #[trigger] r@[i] == table_width(columns@[i].name@, rows@, i),
{
    let mut out: Vec<usize> = Vec::new();
    let mut i: usize = 0;
    while i < columns.len()
        invariant
            i <= columns@.len(),
            out@.len() == i,
            forall|j: int| 0 <= j < i ==> #[trigger] out@[j] == table_width(columns@[j].name@, rows@, j),
        decreases columns@.len() - i,
    {
        let mut widest: usize = 0;
        let mut k: usize = 0;
        while k < rows.len()
            invariant
                k <= rows@.len(),
                widest == widest_cell(rows@.take(k as int), i as int),
            decreases rows@.len() - k,
        {
            let c = if i < rows[k].len() { str_byte_len(rows[k][i].as_str()) } else { 0 };
            proof {
                assert(rows@.take(k + 1).drop_last() =~= rows@.take(k as int));
                assert(rows@.take(k + 1).last() == rows@[k as int]);
            }
            if c > widest {
                widest = c;
            }
            k = k + 1;
        }
        proof {
            assert(rows@.take(rows@.len() as int) =~= rows@);
        }
        let name_len = str_byte_len(columns[i].name.as_str());
        let m = if name_len > widest { name_len } else { widest };
        out.push(if m < MAX_COL_WIDTH { m } else { MAX_COL_WIDTH });
        i = i + 1;
    }
    out
}

/// The header of the sample table: each column's name padded to its
/// width, two spaces between.
pub fn table_header(columns: &[Column], widths: &[usize]) -> (r: String)
    requires
        widths@.len() == columns@.len(),
    ensures
        r@ == join_with(Seq::new(columns@.len(), |i: int| padded(columns@[i].name@, widths@[i] as nat)), "  "@),
{
    let mut parts: Vec<String> = Vec::new();
    let mut i: usize = 0;
    while i < columns.len()
        invariant
            i <= columns@.len(),
            widths@.len() == columns@.len(),
            texts(parts@) == Seq::new(i as nat, |j: int| padded(columns@[j].name@, widths@[j] as nat)),
        decreases columns@.len() - i,
    {
        let p = pad_right(columns[i].name.as_str(), widths[i]);
        let ghost before = parts@;
        parts.push(p);
        proof {
            assert(texts(parts@) =~= texts(before).push(parts@[parts@.len() - 1]@));
            assert(texts(parts@) =~= Seq::new((i + 1) as nat, |j: int| padded(columns@[j].name@, widths@[j] as nat)));
        }
        i = i + 1;
    }
    join_parts(&parts, "  ")
}

/// `n` box-drawing dashes.
pub open spec fn rule(n: nat) -> Seq<char> {
    Seq::new(n, |i: int| '\u{2500}')
}

/// The line under the header: for each column a run of dashes as wide as
/// it, two dashes between.
pub fn table_separator(widths: &[usize]) -> (r: String)
    ensures
        r@ == join_with(Seq::new(widths@.len(), |i: int| rule(widths@[i] as nat)), "\u{2500}\u{2500}"@),
{
    let mut parts: Vec<String> = Vec::new();
    let mut i: usize = 0;
    while i < widths.len()
        invariant
            i <= widths@.len(),
            texts(parts@) == Seq::new(i as nat, |j: int| rule(widths@[j] as nat)),
        decreases widths@.len() - i,
    {
        let mut d = String::new();
        let mut k: usize = 0;
        while k < widths[i]
            invariant
                i < widths@.len(),
                k <= widths@[i as int],
                d@ == rule(k as nat),
            decreases widths@[i as int] - k,
        {
            push_char(&mut d, '\u{2500}');
            proof {
                assert(d@ =~= rule((k + 1) as nat));
            }
            k = k + 1;
        }
        let ghost before = parts@;
        parts.push(d);
        proof {
            assert(texts(parts@) =~= texts(before).push(parts@[parts@.len() - 1]@));
            assert(texts(parts@) =~= Seq::new((i + 1) as nat, |j: int| rule(widths@[j] as nat)));
        }
        i = i + 1;
    }
    join_parts(&parts, "\u{2500}\u{2500}")
}

/// The width a cell of column `i` is padded to (10 past the known
/// columns).
pub open spec fn width_at(widths: Seq<usize>, i: int) -> nat {
    if 0 <= i < widths.len() { widths[i] as nat } else { 10 }
}

/// A row of the sample table: each cell padded to its column's width, two
/// spaces between.
pub fn table_row(row: &[String], widths: &[usize]) -> (r: String)
    ensures
        r@ == join_with(Seq::new(row@.len(), |i: int| padded(row@[i]@, width_at(widths@, i))), "  "@),
{
    let mut parts: Vec<String> = Vec::new();
    let mut i: usize = 0;
    while i < row.len()
        invariant
            i <= row@.len(),
            texts(parts@) == Seq::new(i as nat, |j: int| padded(row@[j]@, width_at(widths@, j))),
        decreases row@.len() - i,
    {
        let w = if i < widths.len() { widths[i] } else { 10 };
        let p = pad_right(row[i].as_str(), w);
        let ghost before = parts@;
        parts.push(p);
        proof {
            assert(texts(parts@) =~= texts(before).push(parts@[parts@.len() - 1]@));
            assert(texts(parts@) =~= Seq::new((i + 1) as nat, |j: int| padded(row@[j]@, width_at(widths@, j))));
        }
        i = i + 1;
    }
    join_parts(&parts, "  ")
}

/// The indices of the tables and of the views among `objects`, in order.
pub fn split_objects(objects: &[DbObject]) -> (r: (Vec<usize>, Vec<usize>))
    ensures
        r.0@ == Seq::new(objects@.len() as nat, |i: int| i).filter(|i: int| objects@[i].kind@ == "table"@).map_values(|i: int| i as usize),
        r.1@ == Seq::new(objects@.len() as nat, |i: int| i).filter(|i: int| objects@[i].kind@ == "view"@).map_values(|i: int| i as usize),
{
    let mut tables: Vec<usize> = Vec::new();
    let mut views: Vec<usize> = Vec::new();
    let ghost is_table = |i: int| objects@[i].kind@ == "table"@;
    let ghost is_view = |i: int| objects@[i].kind@ == "view"@;
    let mut i: usize = 0;
    while i < objects.len()
        invariant
            i <= objects@.len(),
            is_table == (|i: int| objects@[i].kind@ == "table"@),
            is_view == (|i: int| objects@[i].kind@ == "view"@),
            tables@ == Seq::new(i as nat, |j: int| j).filter(is_table).map_values(|j: int| j as usize),
            views@ == Seq::new(i as nat, |j: int| j).filter(is_view).map_values(|j: int| j as usize),
        decreases objects@.len() - i,
    {
        let ghost old_idx = Seq::new(i as nat, |j: int| j);
        let ghost idx = Seq::new((i + 1) as nat, |j: int| j);
        proof {
            assert(idx.drop_last() =~= old_idx);
            assert(idx.last() == i as int);
        }
        let kind = objects[i].kind.as_str();
        let t = crate::chars::str_eq(kind, "table");
        let v = crate::chars::str_eq(kind, "view");
        if t {
            tables.push(i);
        }
        if v {
            views.push(i);
        }
        proof {
            reveal(Seq::filter);
            assert(idx.filter(is_table) == (if is_table(i as int) { old_idx.filter(is_table).push(i as int) } else { old_idx.filter(is_table) }));
            assert(idx.filter(is_view) == (if is_view(i as int) { old_idx.filter(is_view).push(i as int) } else { old_idx.filter(is_view) }));
            assert(tables@ =~= idx.filter(is_table).map_values(|j: int| j as usize));
            assert(views@ =~= idx.filter(is_view).map_values(|j: int| j as usize));
        }
        i = i + 1;
    }
    (tables, views)
}

/// How many tables are left out of the detailed listing, if any.
pub fn tables_left_out(n_tables: usize) -> (r: Option<usize>)
    ensures
        r == (if n_tables > MAX_TABLES_DETAIL { Some((n_tables - MAX_TABLES_DETAIL) as usize) } else { None::<usize> }),
{
    if n_tables > MAX_TABLES_DETAIL {
        Some(n_tables - MAX_TABLES_DETAIL)
    } else {
        None
    }
}

} // verus!

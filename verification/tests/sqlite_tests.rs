use binocular::sqlite::document::{
    column_summary, count_query, escape_identifier, format_cell, sample_query, split_objects, table_header,
    table_info_query, table_row, table_separator, table_widths, tables_left_out, SqlCell, SAMPLE_ROWS,
};
use binocular::sqlite::{is_sqlite, Column, DbObject};

fn column(name: &str, typ: &str, notnull: bool, pk: bool) -> Column {
    Column { name: name.to_string(), typ: typ.to_string(), notnull, pk }
}

fn object(name: &str, kind: &str) -> DbObject {
    DbObject { name: name.to_string(), kind: kind.to_string() }
}

#[test]
fn database_files_need_extension_and_header() {
    let head = b"SQLite format 3\0rest of page";
    assert!(is_sqlite("data/app.db", Some(head)));
    assert!(is_sqlite("x.SQLITE3", Some(head)));
    assert!(!is_sqlite("notes.txt", Some(head)));
    assert!(!is_sqlite("app.db", Some(b"SQLite format 2\0xxxx")));
    assert!(!is_sqlite("app.db", Some(b"SQLite")));
    assert!(!is_sqlite("app.db", None));
}

#[test]
fn table_names_are_quoted_in_queries() {
    assert_eq!(escape_identifier("a\"b"), "a\"\"b");
    assert_eq!(count_query("users"), "SELECT COUNT(*) FROM \"users\"");
    assert_eq!(table_info_query("we\"ird"), "PRAGMA table_info(\"we\"\"ird\")");
    assert_eq!(sample_query("t", SAMPLE_ROWS), "SELECT * FROM \"t\" LIMIT 5");
}

#[test]
fn columns_are_summed_up_in_one_line() {
    let cols = vec![column("id", "INTEGER", true, true), column("name", "TEXT", true, false), column("note", "", false, false)];
    assert_eq!(column_summary(&cols), "id INTEGER \u{1f511}  |  name TEXT !  |  note ");
    assert_eq!(column_summary(&[]), "");
}

#[test]
fn cells_are_shown_as_text() {
    assert_eq!(format_cell(&SqlCell::Null), "NULL");
    assert_eq!(format_cell(&SqlCell::Integer(-42)), "-42");
    assert_eq!(format_cell(&SqlCell::Integer(i64::MIN)), "-9223372036854775808");
    assert_eq!(format_cell(&SqlCell::Integer(7)), "7");
    assert_eq!(format_cell(&SqlCell::Blob(12)), "<blob 12 bytes>");
    assert_eq!(format_cell(&SqlCell::Text(b"ab\xffc".to_vec())), "ab\u{fffd}c");
    let long = "x".repeat(40);
    assert_eq!(format_cell(&SqlCell::Text(long.into_bytes())), "x".repeat(30));
}

#[test]
fn sample_table_is_laid_out_in_columns() {
    let cols = vec![column("id", "INTEGER", false, true), column("name", "TEXT", false, false)];
    let rows = vec![
        vec!["1".to_string(), "alice".to_string()],
        vec!["22".to_string(), "b".to_string()],
    ];
    let widths = table_widths(&cols, &rows);
    assert_eq!(widths, vec![2, 5]);
    assert_eq!(table_header(&cols, &widths), "id  name ");
    assert_eq!(table_separator(&widths), "\u{2500}".repeat(9));
    assert_eq!(table_row(&rows[0], &widths), "1   alice");
    assert_eq!(table_row(&["a".to_string(), "b".to_string(), "c".to_string()], &widths), "a   b      c         ");
    let wide = vec![vec!["y".repeat(50)]];
    assert_eq!(table_widths(&[column("c", "", false, false)], &wide), vec![30]);
}

#[test]
fn tables_and_views_are_told_apart() {
    let objs = vec![object("a", "table"), object("v", "view"), object("b", "table"), object("i", "index")];
    assert_eq!(split_objects(&objs), (vec![0, 2], vec![1]));
    assert_eq!(tables_left_out(20), None);
    assert_eq!(tables_left_out(23), Some(3));
}

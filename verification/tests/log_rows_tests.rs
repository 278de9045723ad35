use binocular::log_rows::{
    abbreviate_timestamp, cell_style, filter_bar, header_cells, log_row, picker_inner_size, picker_lines,
    row_cells, row_is_safe, row_mark, row_number, separator_cells, settle_row_scroll, timestamp_abbreviation_safe,
    CellStyle, CellTone, InputTone, RowMark,
};
use binocular::log_types::{ColModal, ColumnConfig, LogEntry, LogFilterState, LogFormat, StructuredLog};
use binocular::log_viewer::preview_content;

fn entry(fields: &[(&str, &str)]) -> LogEntry {
    LogEntry { fields: fields.iter().map(|(k, v)| (k.to_string(), v.to_string())).collect(), raw: String::new() }
}

fn col(field: &str, width: usize) -> ColumnConfig {
    ColumnConfig { field: field.to_string(), width }
}

#[test]
fn timestamps_are_shortened_to_the_time_of_day() {
    assert_eq!(abbreviate_timestamp("2024-01-15T10:30:00.123456Z"), "10:30:00.123");
    assert_eq!(abbreviate_timestamp("2024-01-15T10:30:00+02:00"), "10:30:00");
    assert_eq!(abbreviate_timestamp("  2024-01-15 10:30:00,123 "), "10:30:00");
    assert_eq!(abbreviate_timestamp("yesterday"), "yesterday");
    assert_eq!(abbreviate_timestamp("T"), "");
    assert!(timestamp_abbreviation_safe("2024-01-15T10:30:00.123456Z"));
    assert!(!timestamp_abbreviation_safe("2024-01-15T10:30:00.12\u{e9}456"));
}

#[test]
fn cells_take_their_tone_from_level_and_time() {
    assert_eq!(cell_style("Level", "ERROR", false), CellStyle { tone: CellTone::Error, selected: false });
    assert_eq!(cell_style("severity", "warning", true), CellStyle { tone: CellTone::Warn, selected: true });
    assert_eq!(cell_style("lvl", "info", false).tone, CellTone::Info);
    assert_eq!(cell_style("level", "trace", false).tone, CellTone::Debug);
    assert_eq!(cell_style("level", "notice", false).tone, CellTone::Plain);
    assert_eq!(cell_style("ts", "x", false).tone, CellTone::Timestamp);
    assert_eq!(cell_style("msg", "error", false).tone, CellTone::Plain);
}

#[test]
fn rows_are_numbered_and_marked() {
    assert_eq!(row_number(4, 120), "  5");
    assert_eq!(row_number(0, 1), "1");
    assert_eq!(row_mark(true, true), RowMark::SelectedMarked);
    assert_eq!(row_mark(true, false), RowMark::Selected);
    assert_eq!(row_mark(false, true), RowMark::Marked);
    assert_eq!(row_mark(false, false), RowMark::Blank);
}

#[test]
fn row_cells_fit_the_shown_columns() {
    let e = entry(&[("time", "2024-01-15T10:30:00Z"), ("msg", "hello world")]);
    let cols = vec![col("time", 10), col("msg", 6), col("missing", 3)];
    assert!(row_is_safe(&e, &cols, 0, 3));
    let cells = row_cells(&e, &cols, 0, 3, false);
    let texts: Vec<&str> = cells.iter().map(|c| c.0.as_str()).collect();
    assert_eq!(texts, vec!["10:30:00  ", "hello\u{2026}", "   "]);
    assert_eq!(cells[0].1.tone, CellTone::Timestamp);
    assert_eq!(row_cells(&e, &cols, 1, 10, true).len(), 2);
    assert!(row_cells(&e, &cols, 5, 1, false).is_empty());
}

#[test]
fn a_row_shows_its_match() {
    let log = StructuredLog {
        entries: vec![entry(&[("level", "info")]), entry(&[("level", "error")])],
        total_lines: 2,
        all_fields: vec!["level".to_string()],
        format: LogFormat::Logfmt,
    };
    let mut lp = preview_content(log, vec![None, None]);
    lp.filter_state.marked.insert(1);
    let row = log_row(&lp, 0, 0, 1);
    assert_eq!(row.number, "2");
    assert_eq!(row.mark, RowMark::SelectedMarked);
    assert_eq!(row.cells[0].1.tone, CellTone::Error);
    let other = log_row(&lp, 1, 0, 1);
    assert_eq!(other.mark, RowMark::Blank);
}

#[test]
fn scroll_settles_on_the_cursor() {
    let mut fs = LogFilterState::default();
    fs.cached_matches = (0..10).collect();
    fs.cursor = 25;
    fs.scroll = 0;
    settle_row_scroll(&mut fs, 4);
    assert_eq!((fs.cursor, fs.scroll), (9, 6));
    fs.cursor = 2;
    settle_row_scroll(&mut fs, 4);
    assert_eq!((fs.cursor, fs.scroll), (2, 2));
    fs.cursor = 4;
    settle_row_scroll(&mut fs, 4);
    assert_eq!((fs.cursor, fs.scroll), (4, 2));
    let mut empty = LogFilterState::default();
    empty.cursor = 3;
    settle_row_scroll(&mut empty, 4);
    assert_eq!((empty.cursor, empty.scroll), (3, 0));
}

#[test]
fn header_and_separator_follow_the_columns() {
    let cols = vec![col("level", 3), col("msg", 5)];
    let h = header_cells(&cols, 1, 0, 2);
    assert_eq!(h, vec![("LE\u{2026}".to_string(), false), ("MSG  ".to_string(), true)]);
    let s = separator_cells(&cols, 0, 1, 1);
    assert_eq!(s, vec![("\u{2500}".repeat(5), false)]);
}

#[test]
fn filter_bar_reports_columns_marks_and_counts() {
    let log = StructuredLog {
        entries: vec![entry(&[("level", "info")]), entry(&[("level", "error")])],
        total_lines: 2,
        all_fields: vec!["level".to_string()],
        format: LogFormat::Logfmt,
    };
    let mut lp = preview_content(log, vec![None, None]);
    let bar = filter_bar(&lp, 0, 1, 1);
    assert_eq!(bar.pause, "");
    assert_eq!(bar.marks, "");
    assert_eq!(bar.columns, " col 1/1  ");
    assert!(!bar.columns_hidden);
    assert_eq!(bar.count, " 2/2 ");
    assert_eq!(bar.input_tone, InputTone::Idle);
    lp.filter_state.marked.insert(0);
    lp.filter_state.paused = true;
    lp.filter_state.input = "x".to_string();
    let bar = filter_bar(&lp, 1, 2, 4);
    assert_eq!(bar.pause, " \u{23f8} PAUSED ");
    assert_eq!(bar.marks, " \u{25cf}1 ");
    assert_eq!(bar.columns, " \u{2190}1 col 1/4 \u{2192}2  ");
    assert!(bar.columns_hidden);
    assert_eq!(bar.input_tone, InputTone::Filtering);
}

#[test]
fn column_picker_is_sized_and_scrolled() {
    let names: Vec<String> = (0..10).map(|i| format!("field{i}")).collect();
    assert_eq!(picker_inner_size(&names, 100, 40), (36, 14));
    assert_eq!(picker_inner_size(&names, 20, 8), (16, 6));
    assert_eq!(picker_inner_size(&[], 100, 40), (36, 6));
    let modal = ColModal { cursor: 7, checked: vec![true, false, true], scroll: 0 };
    let lines = picker_lines(&names, &modal, 5);
    assert_eq!(lines.len(), 5);
    assert_eq!(lines[0].text, "[ ] field3");
    assert!(lines[4].at_cursor);
    let top = picker_lines(&names, &ColModal { cursor: 0, checked: vec![true], scroll: 0 }, 3);
    assert_eq!(top[0].text, "[\u{2713}] field0");
    assert!(top[0].checked && top[0].at_cursor);
}

use binocular::log_layout::{
    compute_col_scroll, is_timestamp_field, num_width, pad_right, prefix_width, truncate_str, visible_col_range,
};
use binocular::log_types::ColumnConfig;

fn cols(ws: &[usize]) -> Vec<ColumnConfig> {
    ws.iter().enumerate().map(|(i, &w)| ColumnConfig { field: format!("c{i}"), width: w }).collect()
}

#[test]
fn columns_fit_with_two_space_gaps() {
    let c = cols(&[10, 10, 10]);
    assert_eq!(visible_col_range(&c, 0, 22), (0, 2));
    assert_eq!(visible_col_range(&c, 0, 21), (0, 1));
    assert_eq!(visible_col_range(&c, 5, 100), (2, 1));
    assert_eq!(visible_col_range(&c, 0, 3), (0, 1));
    assert_eq!(visible_col_range(&[], 4, 10), (0, 0));
}

#[test]
fn scroll_follows_the_selected_column() {
    let c = cols(&[10, 10, 10, 10]);
    assert_eq!(compute_col_scroll(&c, 3, 0, 22), 2);
    assert_eq!(compute_col_scroll(&c, 1, 3, 22), 1);
    assert_eq!(compute_col_scroll(&c, 1, 0, 22), 0);
    assert_eq!(compute_col_scroll(&c, 9, 0, 100), 0);
    assert_eq!(compute_col_scroll(&c, 2, 1, 0), 0);
    assert_eq!(compute_col_scroll(&[], 2, 1, 10), 0);
}

#[test]
fn cells_are_cut_and_padded() {
    assert_eq!(truncate_str("abcdef", 4), "abc\u{2026}");
    assert_eq!(truncate_str("abc", 3), "abc");
    assert_eq!(truncate_str("abc", 1), "\u{2026}");
    assert_eq!(pad_right("ab", 4), "ab  ");
    assert_eq!(pad_right("abcd", 2), "abcd");
    assert_eq!(num_width(0), 1);
    assert_eq!(num_width(1234), 4);
    assert_eq!(prefix_width(99), 5);
    assert!(is_timestamp_field("TS"));
    assert!(!is_timestamp_field("msg"));
}

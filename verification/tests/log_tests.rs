use binocular::log_detect::{detect_sample_format, log_extension_kind, looks_like_logfmt, LogExtension};
use binocular::log_format::{format_entry_visible, init_visible_cols, prioritised_fields, update_fields};
use binocular::log_parse::{json_value_to_string, logfmt_line_safe, parse_line, parse_log_lines, JsonText};
use binocular::log_query::{entry_matches, entry_timestamp, match_value, parse_filters_at, query_in_bounds, split_words};
use binocular::log_time::{epoch_text_in_bounds, parse_epoch_secs};
use binocular::log_types::{ColumnConfig, FilterOp, LogEntry, LogFilter, LogFormat};

fn entry(fields: &[(&str, &str)], raw: &str) -> LogEntry {
    LogEntry {
        fields: fields.iter().map(|(k, v)| (k.to_string(), v.to_string())).collect(),
        raw: raw.to_string(),
    }
}

fn col(field: &str, width: usize) -> ColumnConfig {
    ColumnConfig { field: field.to_string(), width }
}

#[test]
fn logfmt_line_reads_pairs_and_quoted_values() {
    let e = parse_line("  level=info msg=\"hello worldx\" n=3 ", &LogFormat::Logfmt).unwrap();
    assert_eq!(
        e.fields,
        vec![
            ("level".to_string(), "info".to_string()),
            ("msg".to_string(), "hello world".to_string()),
            ("n".to_string(), "3".to_string()),
        ]
    );
    assert_eq!(e.raw, "level=info msg=\"hello worldx\" n=3");
}

#[test]
fn logfmt_line_without_equals_is_rejected() {
    assert!(parse_line("just words", &LogFormat::Logfmt).is_none());
    assert!(parse_line("   ", &LogFormat::Logfmt).is_none());
    assert!(parse_line("a=1 stray", &LogFormat::Logfmt).is_none());
}

#[test]
fn jsonl_line_reads_object_members_as_text() {
    let e = parse_line(
        "{\"msg\":\"hi\",\"n\":3,\"ok\":true,\"x\":null,\"arr\":[1,2]}",
        &LogFormat::Jsonl,
    )
    .unwrap();
    let get = |k: &str| e.fields.iter().find(|(key, _)| key == k).map(|(_, v)| v.clone());
    assert_eq!(get("msg"), Some("hi".to_string()));
    assert_eq!(get("n"), Some("3".to_string()));
    assert_eq!(get("ok"), Some("true".to_string()));
    assert_eq!(get("x"), Some(String::new()));
    assert_eq!(get("arr"), Some("[1,2]".to_string()));
    assert_eq!(e.fields.len(), 5);
}

#[test]
fn jsonl_line_that_is_not_an_object_is_rejected() {
    assert!(parse_line("[1,2,3]", &LogFormat::Jsonl).is_none());
    assert!(parse_line("not json", &LogFormat::Jsonl).is_none());
}

#[test]
fn json_values_show_as_text() {
    assert_eq!(json_value_to_string(&JsonText::Null), "");
    assert_eq!(json_value_to_string(&JsonText::Bool(false)), "false");
    assert_eq!(json_value_to_string(&JsonText::Str("s".to_string())), "s");
    assert_eq!(json_value_to_string(&JsonText::Number("1.5".to_string())), "1.5");
}

#[test]
fn logfmt_detection_needs_a_pair_word() {
    assert!(looks_like_logfmt("ts=1 level=info"));
    assert!(!looks_like_logfmt("=a b="));
    assert!(!looks_like_logfmt("a== plain"));
    assert!(!looks_like_logfmt(""));
}

#[test]
fn extension_decides_or_asks_for_a_sample() {
    assert_eq!(log_extension_kind("JSONL"), LogExtension::Jsonl);
    assert_eq!(log_extension_kind("ndjson"), LogExtension::Jsonl);
    assert_eq!(log_extension_kind("log"), LogExtension::Sample);
    assert_eq!(log_extension_kind("Logs"), LogExtension::Sample);
    assert_eq!(log_extension_kind("txt"), LogExtension::NotLog);
    assert_eq!(log_extension_kind(""), LogExtension::NotLog);
}

#[test]
fn sample_format_uses_three_quarters() {
    let json = vec![
        "{\"a\":1}".to_string(),
        "{\"b\":2}".to_string(),
        "".to_string(),
        "{\"c\":3}".to_string(),
        "plain".to_string(),
    ];
    assert_eq!(detect_sample_format(&json), Some(LogFormat::Jsonl));
    let logfmt = vec!["a=1".to_string(), "b=2 c".to_string(), "x".to_string()];
    assert_eq!(detect_sample_format(&logfmt), None);
    let logfmt = vec!["a=1".to_string(), "b=2 c".to_string(), "x=y".to_string(), "z".to_string()];
    assert_eq!(detect_sample_format(&logfmt), Some(LogFormat::Logfmt));
    assert_eq!(detect_sample_format(&["  ".to_string()]), None);
}

#[test]
fn epoch_reads_seconds_milliseconds_and_dates() {
    assert_eq!(parse_epoch_secs(" 1700000000 ", None), Some(1_700_000_000));
    assert_eq!(parse_epoch_secs("1700000000123", None), Some(1_700_000_000));
    assert_eq!(parse_epoch_secs("1700000000.5", Some(1_700_000_000)), Some(1_700_000_000));
    assert_eq!(parse_epoch_secs("2024-01-15T10:30:00Z", None), Some(1_705_314_600));
    assert_eq!(parse_epoch_secs("2024-01-15 10:30:00.123+02:00", None), Some(1_705_314_600));
    assert_eq!(parse_epoch_secs("2024-03-01T00:00", None), Some(1_709_251_200));
    assert_eq!(parse_epoch_secs("1970-01-01T00:00:00", None), Some(0));
    assert_eq!(parse_epoch_secs("1969-12-31T23:59:59", None), None);
    assert_eq!(parse_epoch_secs("yesterday", None), None);
    assert_eq!(parse_epoch_secs("2024-01T10:00:00", None), None);
}

#[test]
fn epoch_bounds_flag_overflowing_dates() {
    assert!(epoch_text_in_bounds("2024-01-15T10:30:00Z", None));
    assert!(!epoch_text_in_bounds("9223372036854775807-01-01T00:00:00", None));
    assert!(epoch_text_in_bounds("123", None));
}

#[test]
fn query_words_become_filters() {
    let fs = parse_filters_at("level=error msg:timeout svc!=api plain last:1h", 10_000);
    assert_eq!(fs.len(), 5);
    assert_eq!(fs[0].field.as_deref(), Some("level"));
    assert_eq!(fs[0].op, FilterOp::Equals);
    assert_eq!(fs[0].value, "error");
    assert_eq!(fs[1].op, FilterOp::Contains);
    assert_eq!(fs[1].field.as_deref(), Some("msg"));
    assert_eq!(fs[2].op, FilterOp::NotEquals);
    assert_eq!(fs[2].value, "api");
    assert_eq!(fs[3].field, None);
    assert_eq!(fs[3].value, "plain");
    assert_eq!(fs[4].op, FilterOp::Since(6_400));
    assert!(parse_filters_at("last:xyz", 5).is_empty());
    assert!(query_in_bounds("last:5m level=x"));
    assert!(!query_in_bounds("last:9999999999999999h"));
}

#[test]
fn words_split_on_white_space() {
    assert_eq!(split_words("  a b\tc  "), vec!["a", "b", "c"]);
    assert!(split_words("   ").is_empty());
}

#[test]
fn entries_match_filters() {
    let e = entry(&[("Level", "ERROR"), ("msg", "disk full"), ("time", "100")], "raw");
    let f = |field: Option<&str>, op: FilterOp, v: &str| LogFilter {
        field: field.map(|s| s.to_string()),
        op,
        value: v.to_string(),
    };
    assert!(entry_matches(&e, &[f(Some("level"), FilterOp::Equals, "error")], Some(100)));
    assert!(entry_matches(&e, &[f(None, FilterOp::Contains, "disk")], Some(100)));
    assert!(!entry_matches(&e, &[f(Some("msg"), FilterOp::NotEquals, "DISK FULL")], Some(100)));
    assert!(entry_matches(&e, &[f(None, FilterOp::Since(50), "")], Some(100)));
    assert!(!entry_matches(&e, &[f(None, FilterOp::Since(150), "")], Some(100)));
    assert!(!entry_matches(&e, &[f(None, FilterOp::Since(50), "")], None));
    assert_eq!(entry_timestamp(&e), "100");
    assert!(match_value("Hello", "ell", &FilterOp::Contains));
}

#[test]
fn entry_text_quotes_values_with_spaces() {
    let e = entry(&[("level", "info"), ("msg", "say \"hi\" now"), ("empty", "")], "raw");
    let cols = vec![col("msg", 10), col("missing", 5), col("level", 6), col("empty", 6)];
    assert_eq!(
        format_entry_visible(&e, &cols),
        "msg=\"say \\\"hi\\\" now\"  level=info  empty=\"\""
    );
    assert_eq!(format_entry_visible(&e, &[]), "");
}

#[test]
fn first_columns_are_sized_from_names_and_values() {
    let fields = vec!["level".to_string(), "msg".to_string(), "request_identifier".to_string()];
    let entries = vec![
        entry(&[("level", "information"), ("msg", "x"), ("request_identifier", "a")], "r"),
    ];
    let cols = init_visible_cols(&fields, &entries);
    assert_eq!(cols.len(), 3);
    assert_eq!((cols[0].field.as_str(), cols[0].width), ("level", 11));
    assert_eq!((cols[1].field.as_str(), cols[1].width), ("msg", 40));
    assert_eq!((cols[2].field.as_str(), cols[2].width), ("request_identifier", 18));
}

#[test]
fn new_field_names_are_added_once() {
    let mut all = vec!["a".to_string()];
    update_fields(&mut all, &entry(&[("b", "1"), ("a", "2"), ("b", "3"), ("c", "4")], "r"));
    assert_eq!(all, vec!["a", "b", "c"]);
}

#[test]
fn fields_are_listed_in_preferred_order() {
    let fields = vec![
        "zeta".to_string(),
        "msg".to_string(),
        "Level".to_string(),
        "alpha".to_string(),
        "ts".to_string(),
    ];
    assert_eq!(prioritised_fields(fields), vec!["ts", "Level", "msg", "alpha", "zeta"]);
}

#[test]
fn reading_lines_skips_blank_and_stops_at_the_limit() {
    let lines = vec![
        "level=info msg=a".to_string(),
        "".to_string(),
        "garbage".to_string(),
        "ts=1 level=warn".to_string(),
        "level=error".to_string(),
    ];
    let (entries, total, fields) = parse_log_lines(&lines, &LogFormat::Logfmt, 2).unwrap();
    assert_eq!(total, 5);
    assert_eq!(entries.len(), 2);
    assert_eq!(entries[1].raw, "ts=1 level=warn");
    assert_eq!(fields, vec!["ts", "level", "msg"]);
}

#[test]
fn logfmt_safety_flags_lines_that_would_slice_a_char() {
    assert!(logfmt_line_safe("a=1 b=\"two words\""));
    assert!(!logfmt_line_safe("k=\"\""));
    assert!(!logfmt_line_safe("k=\"caf\u{e9}\""));
    assert!(logfmt_line_safe("no pairs here"));
    let lines = vec!["k=\"\"".to_string()];
    assert!(parse_log_lines(&lines, &LogFormat::Logfmt, 10).is_none());
    assert!(parse_log_lines(&lines, &LogFormat::Logfmt, 0).is_some());
}

use binocular::highlight::{
    build_highlighted_lines, colored_line, get_style, has_huge_line, highlight_name, style_for_capture, CaptureColor,
    HighlightEvent, HighlightedLineBuilder,
};
use binocular::line_render::{BaseStyle, StyledLine};

fn texts(l: &StyledLine) -> Vec<(String, BaseStyle)> {
    l.spans.iter().map(|s| (s.text.clone(), s.base)).collect()
}

#[test]
fn captures_have_colors() {
    assert_eq!(style_for_capture("keyword"), CaptureColor::Magenta);
    assert_eq!(style_for_capture("comment"), CaptureColor::GrayItalic);
    assert_eq!(style_for_capture("punctuation.bracket"), CaptureColor::DarkGray);
    assert_eq!(style_for_capture("embedded"), CaptureColor::Plain);
    assert_eq!(style_for_capture("nonsense"), CaptureColor::Plain);
    assert_eq!(highlight_name(4), "keyword");
    assert_eq!(highlight_name(99), "");
    assert_eq!(get_style(0), CaptureColor::Cyan);
    assert_eq!(get_style(18), CaptureColor::GrayItalic);
    assert_eq!(get_style(1000), CaptureColor::Plain);
}

#[test]
fn events_become_numbered_lines() {
    let events = vec![
        HighlightEvent::Start(4),
        HighlightEvent::Source("fn".to_string()),
        HighlightEvent::End,
        HighlightEvent::Source(" main()\r\n\tx\n".to_string()),
    ];
    let lines = build_highlighted_lines(&events, 4).unwrap();
    assert_eq!(lines.len(), 4);
    assert_eq!(
        texts(&lines[0]),
        vec![
            ("   1 ".to_string(), BaseStyle::LineNumber),
            ("fn".to_string(), BaseStyle::Capture(4)),
            (" main()".to_string(), BaseStyle::Default),
        ]
    );
    assert_eq!(texts(&lines[1])[1], ("    x".to_string(), BaseStyle::Default));
    assert_eq!(texts(&lines[2]), vec![("   3 ".to_string(), BaseStyle::LineNumber)]);
    assert_eq!(texts(&lines[3]), vec![("   4 ".to_string(), BaseStyle::LineNumber)]);
    assert!(lines.iter().all(|l| !l.grep_highlight));
}

#[test]
fn a_failed_event_gives_nothing() {
    let events = vec![HighlightEvent::Source("a".to_string()), HighlightEvent::Failed];
    assert!(build_highlighted_lines(&events, 1).is_none());
    assert_eq!(build_highlighted_lines(&[], 0).unwrap().len(), 1);
}

#[test]
fn builder_keeps_a_style_stack() {
    let mut b = HighlightedLineBuilder::new();
    b.push_style(3);
    b.push_style(7);
    b.push_text_segment("a\r\r");
    b.pop_style();
    b.push_text_segment("b");
    b.pop_style();
    b.pop_style();
    b.push_text_segment("");
    b.push_line_break();
    b.push_text_segment("c");
    let lines = b.finish();
    assert_eq!(lines.len(), 2);
    assert_eq!(texts(&lines[0])[1], ("a".to_string(), BaseStyle::Capture(7)));
    assert_eq!(texts(&lines[0])[2], ("b".to_string(), BaseStyle::Capture(3)));
    assert_eq!(lines[0].spans.len(), 3);
    assert_eq!(texts(&lines[1])[1], ("c".to_string(), BaseStyle::Default));
}

#[test]
fn huge_lines_are_found() {
    assert!(!has_huge_line(&[(0, 10), (10, 8010)]));
    assert!(has_huge_line(&[(0, 10), (10, 8011)]));
    assert!(!has_huge_line(&[]));
}

#[test]
fn colored_lines_drop_empty_pieces() {
    let l = colored_line(2, &[((1, 2, 3), "let".to_string()), ((0, 0, 0), "\n".to_string()), ((9, 9, 9), "\tx\r\n".to_string())]);
    assert_eq!(
        texts(&l),
        vec![
            ("   2 ".to_string(), BaseStyle::LineNumber),
            ("let".to_string(), BaseStyle::Color(1, 2, 3)),
            ("    x".to_string(), BaseStyle::Color(9, 9, 9)),
        ]
    );
}

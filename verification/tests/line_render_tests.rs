use binocular::buffer::TextBuffer;
use binocular::editor::{InputMode, RichTextDocument};
use binocular::line_render::{
    apply_cursor_overlay, apply_grep_highlight, apply_horizontal_scroll, apply_insert_cursor, apply_normal_cursor,
    apply_search_highlight, apply_visual_char_selection, apply_visual_line_selection, apply_visual_selection,
    generate_plain_lines_for_range, line_number_label, line_number_width, normalize_selection, plain_line,
    sanitize_content, transform_line, visible_line_range, Layer, PreviewView, StyledLine, StyledSpan,
    BaseStyle,
};

fn span(text: &str, base: BaseStyle) -> StyledSpan {
    StyledSpan { text: text.to_string(), base, layers: Vec::new() }
}

fn line(parts: &[&str]) -> StyledLine {
    StyledLine { spans: parts.iter().enumerate().map(|(i, t)| span(t, BaseStyle::Capture(i))).collect(), grep_highlight: false }
}

fn shape(l: &StyledLine) -> Vec<(String, Vec<Layer>)> {
    l.spans.iter().map(|s| (s.text.clone(), s.layers.clone())).collect()
}

fn text(l: &StyledLine) -> String {
    l.spans.iter().map(|s| s.text.as_str()).collect()
}

fn view(mode: InputMode) -> PreviewView {
    PreviewView {
        highlight_line: None,
        search_query: String::new(),
        preview_mode: mode,
        selection_start: None,
        cursor_line: 0,
        cursor_char: 0,
        scroll: 0,
        scroll_char: 0,
        area_height: 10,
    }
}

#[test]
fn search_matches_are_cut_out_and_highlighted() {
    let mut l = line(&["   1 ", "foo bar", "foo"]);
    apply_search_highlight(&mut l, "oo");
    assert_eq!(
        shape(&l),
        vec![
            ("   1 ".to_string(), vec![]),
            ("f".to_string(), vec![]),
            ("oo".to_string(), vec![Layer::SearchMatch]),
            (" bar".to_string(), vec![]),
            ("f".to_string(), vec![]),
            ("oo".to_string(), vec![Layer::SearchMatch]),
        ]
    );
    assert_eq!(l.spans[2].base, BaseStyle::Capture(1));
    assert_eq!(text(&l), "   1 foo barfoo");
}

#[test]
fn a_match_across_spans_is_highlighted_in_each() {
    let mut l = line(&["ab", "cd"]);
    apply_search_highlight(&mut l, "bc");
    assert_eq!(
        shape(&l),
        vec![
            ("a".to_string(), vec![]),
            ("b".to_string(), vec![Layer::SearchMatch]),
            ("c".to_string(), vec![Layer::SearchMatch]),
            ("d".to_string(), vec![]),
        ]
    );
    let mut adjacent = line(&["aaa"]);
    apply_search_highlight(&mut adjacent, "a");
    assert_eq!(adjacent.spans.len(), 3);
    let mut none = line(&["abc", ""]);
    apply_search_highlight(&mut none, "zz");
    assert_eq!(none.spans.len(), 2);
    apply_search_highlight(&mut none, "");
    assert_eq!(none.spans.len(), 2);
}

#[test]
fn the_jump_line_is_highlighted_whole() {
    let mut l = line(&["   3 ", "x"]);
    apply_grep_highlight(&mut l, 2, Some(3));
    assert!(l.grep_highlight);
    assert!(l.spans.iter().all(|s| s.layers == vec![Layer::GrepLine]));
    let mut other = line(&["   3 ", "x"]);
    apply_grep_highlight(&mut other, 1, Some(3));
    assert!(!other.grep_highlight);
    apply_grep_highlight(&mut other, 1, None);
    assert!(other.spans[0].layers.is_empty());
}

#[test]
fn cursors_are_drawn_after_the_number() {
    let mut l = line(&["  1 ", "abc"]);
    assert_eq!(line_number_width(&l), 4);
    apply_insert_cursor(&mut l, 1);
    assert_eq!(text(&l), "  1 a\u{258c}bc");
    assert_eq!(l.spans[2].layers, vec![Layer::InsertCursor]);
    let mut end = line(&["  1 ", "abc"]);
    apply_insert_cursor(&mut end, 9);
    assert_eq!(end.spans.last().unwrap().text, "\u{258c}");
    assert_eq!(end.spans.last().unwrap().base, BaseStyle::Default);

    let mut n = line(&["  1 ", "abc"]);
    apply_normal_cursor(&mut n, 1);
    assert_eq!(
        shape(&n),
        vec![
            ("  1 ".to_string(), vec![]),
            ("a".to_string(), vec![]),
            ("b".to_string(), vec![Layer::NormalCursor]),
            ("c".to_string(), vec![]),
        ]
    );
    let mut past = line(&["  1 ", "abc"]);
    apply_normal_cursor(&mut past, 3);
    assert_eq!(text(&past), "  1 abc ");
}

#[test]
fn selections_cover_the_right_chars() {
    let mut l = line(&["  1 ", "hello"]);
    apply_visual_char_selection(&mut l, 0, (0, 1), (0, 3));
    assert_eq!(
        shape(&l),
        vec![
            ("  1 ".to_string(), vec![]),
            ("h".to_string(), vec![]),
            ("ell".to_string(), vec![Layer::Selection]),
            ("o".to_string(), vec![]),
        ]
    );
    let mut mid = line(&["  2 ", "hello"]);
    apply_visual_char_selection(&mut mid, 1, (0, 1), (3, 0));
    assert_eq!(mid.spans[1].layers, vec![Layer::Selection]);
    let mut whole = line(&["  2 ", "he", "llo"]);
    apply_visual_line_selection(&mut whole);
    assert!(whole.spans[0].layers.is_empty());
    assert_eq!(whole.spans[2].layers, vec![Layer::Selection]);
    assert_eq!(normalize_selection((3, 1), (1, 4)), ((1, 4), (3, 1)));
    assert_eq!(normalize_selection((1, 1), (1, 4)), ((1, 1), (1, 4)));

    let mut v = view(InputMode::Visual);
    v.selection_start = Some((2, 3));
    v.cursor_line = 0;
    v.cursor_char = 1;
    let mut outside = line(&["  4 ", "abc"]);
    apply_visual_selection(&mut outside, 3, &v);
    assert!(outside.spans[1].layers.is_empty());
    let mut first = line(&["  1 ", "abc"]);
    apply_visual_selection(&mut first, 0, &v);
    assert_eq!(text(&first), "  1 abc");
    assert_eq!(first.spans[1].text, "a");
    assert_eq!(first.spans[2].layers, vec![Layer::Selection]);
}

#[test]
fn scrolling_drops_leading_chars() {
    let mut l = line(&["  1 ", "abcdef"]);
    apply_horizontal_scroll(&mut l, 6);
    assert_eq!(text(&l), "cdef");
    assert_eq!(l.spans.len(), 1);
    let mut same = line(&["  1 ", "ab"]);
    apply_horizontal_scroll(&mut same, 0);
    assert_eq!(same.spans.len(), 2);
    let mut gone = line(&["  1 ", "ab"]);
    apply_horizontal_scroll(&mut gone, 20);
    assert!(gone.spans.is_empty());
}

#[test]
fn plain_lines_carry_their_number() {
    assert_eq!(line_number_label(7), "   7 ");
    assert_eq!(line_number_label(12345), "12345 ");
    assert_eq!(sanitize_content("a\tb"), "a    b");
    let l = plain_line("x\ty\r\n", 3);
    assert_eq!(l.spans[0].text, "   3 ");
    assert_eq!(l.spans[0].base, BaseStyle::LineNumber);
    assert_eq!(l.spans[1].text, "x    y");
    let doc = RichTextDocument { buffer: TextBuffer::new("one\ntwo\nthree".to_string()), dirty: true };
    let lines = generate_plain_lines_for_range(&doc, 1, 5);
    assert_eq!(lines.len(), 2);
    assert_eq!(lines[0].spans[1].text, "two");
    assert_eq!(lines[1].spans[0].text, "   3 ");
}

#[test]
fn a_line_is_drawn_in_order() {
    let mut v = view(InputMode::Normal);
    v.search_query = "b".to_string();
    v.highlight_line = Some(1);
    v.cursor_char = 0;
    let mut l = line(&["  1 ", "abc"]);
    transform_line(&mut l, 0, &v);
    assert!(l.grep_highlight);
    assert_eq!(text(&l), "  1 abc");
    assert_eq!(l.spans[1].layers, vec![Layer::GrepLine, Layer::NormalCursor]);
    assert_eq!(l.spans[2].layers, vec![Layer::GrepLine, Layer::SearchMatch]);
    let mut insert = view(InputMode::Insert);
    insert.cursor_line = 5;
    let mut untouched = line(&["  1 ", "abc"]);
    apply_cursor_overlay(&mut untouched, 0, &insert);
    assert_eq!(untouched.spans.len(), 2);
    assert_eq!(visible_line_range(&v, 100), (0, 8));
    v.scroll = 95;
    assert_eq!(visible_line_range(&v, 100), (95, 100));
}

//! How a line of the text preview is drawn: its spans, each with a base
//! style and the highlights laid over it (the line the search jumped to,
//! search matches, the visual selection, the cursor), and the horizontal
//! scroll. The first span of a line holds its number.
use vstd::prelude::*;
use crate::chars::{chars_of, find_from, occurs_at, string_from_chars, to_owned_string};
use crate::buffer::{lemma_trim_end_char_prefix, line_text, spec_lines, trim_end_char, trim_line_end};
use crate::chars::{decimal, push_char, push_str};
use crate::editor::{InputMode, RichTextDocument};
use crate::log_rows::padded_left;

verus! {

/// A highlight laid over a span's style.
#[derive(Debug, Clone, Copy, PartialEq, Eq, Structural)]
pub enum Layer {
    GrepLine,
    SearchMatch,
    Selection,
    InsertCursor,
    NormalCursor,
}

/// The style a span starts from: the default style, that of line numbers,
/// that of a syntax capture (by its index), or a foreground color.
#[derive(Debug, Clone, Copy, PartialEq, Eq, Structural)]
pub enum BaseStyle {
    Default,
    LineNumber,
    Capture(usize),
    Color(u8, u8, u8),
}

/// A run of text with one style: its base style and the highlights laid
/// over it, in order.
pub struct StyledSpan {
    pub text: String,
    pub base: BaseStyle,
    pub layers: Vec<Layer>,
}

/// A line of spans; `grep_highlight` marks the whole line as the one the
/// search jumped to.
pub struct StyledLine {
    pub spans: Vec<StyledSpan>,
    pub grep_highlight: bool,
}

/// What a span is: its text, base style and highlights.
pub struct SpanV {
    pub text: Seq<char>,
    pub base: BaseStyle,
    pub layers: Seq<Layer>,
}

pub open spec fn span_v(s: StyledSpan) -> SpanV {
    SpanV { text: s.text@, base: s.base, layers: s.layers@ }
}

pub open spec fn spans_v(s: Seq<StyledSpan>) -> Seq<SpanV> {
    s.map_values(|x: StyledSpan| span_v(x))
}

/// The span `v` with the highlight `l` laid over it.
pub open spec fn with_layer(v: SpanV, l: Layer) -> SpanV {
    SpanV { text: v.text, base: v.base, layers: v.layers.push(l) }
}

/// The span `v` holding only its chars from `lo` to `hi`.
pub open spec fn part(v: SpanV, lo: int, hi: int) -> SpanV {
    SpanV { text: v.text.subrange(lo, hi), base: v.base, layers: v.layers }
}

/// The number of chars of the spans.
pub open spec fn total_len(s: Seq<SpanV>) -> nat
    decreases s.len(),
{
    if s.len() == 0 { 0 } else { total_len(s.drop_last()) + s.last().text.len() }
}

/// The chars of the spans before span `i`.
pub proof fn lemma_total_len_prefix(s: Seq<SpanV>, i: int)
    requires
        0 <= i < s.len(),
    ensures
        total_len(s.take(i + 1)) == total_len(s.take(i)) + s[i].text.len(),
        total_len(s.take(i + 1)) <= total_len(s),
    decreases s.len(),
{
    assert(s.take(i + 1).drop_last() =~= s.take(i));
    if i + 1 < s.len() {
        lemma_total_len_prefix(s.drop_last(), i);
        assert(s.drop_last().take(i + 1) =~= s.take(i + 1));
    } else {
        assert(s.take(i + 1) =~= s);
    }
}

/// A copy of the highlights.
fn copy_layers(v: &Vec<Layer>) -> (r: Vec<Layer>)
    ensures
        r@ == v@,
{
    let mut r: Vec<Layer> = Vec::new();
    let mut i: usize = 0;
    while i < v.len()
        invariant
            i <= v@.len(),
            r@ == v@.take(i as int),
        decreases v@.len() - i,
    {
        r.push(v[i]);
        proof {
            assert(r@ =~= v@.take(i + 1));
        }
        i = i + 1;
    }
    proof {
        assert(v@.take(v@.len() as int) =~= v@);
    }
    r
}

/// A copy of a span.
fn copy_span(s: &StyledSpan) -> (r: StyledSpan)
    ensures
        span_v(r) == span_v(*s),
{
    StyledSpan { text: to_owned_string(s.text.as_str()), base: s.base, layers: copy_layers(&s.layers) }
}

/// A copy of a span with the highlight `l` laid over it.
fn layered_span(s: &StyledSpan, l: Layer) -> (r: StyledSpan)
    ensures
        span_v(r) == with_layer(span_v(*s), l),
{
    let mut layers = copy_layers(&s.layers);
    layers.push(l);
    StyledSpan { text: to_owned_string(s.text.as_str()), base: s.base, layers }
}

/// The chars `lo` to `hi` of the span `s`, with `l` laid over them when
/// given.
fn span_part(s: &StyledSpan, chars: &Vec<char>, lo: usize, hi: usize, l: Option<Layer>) -> (r: StyledSpan)
    requires
        chars@ == s.text@,
        lo <= hi <= chars@.len(),
    ensures
        span_v(r) == (match l {
            Some(l) => with_layer(part(span_v(*s), lo as int, hi as int), l),
            None => part(span_v(*s), lo as int, hi as int),
        }),
{
    let mut layers = copy_layers(&s.layers);
    match l {
        Some(l) => layers.push(l),
        None => {},
    }
    StyledSpan { text: string_from_chars(chars.as_slice(), lo, hi), base: s.base, layers }
}

/// The width of the line's number: the chars of its first span.
pub open spec fn number_width(spans: Seq<SpanV>) -> nat {
    if spans.len() > 0 { spans[0].text.len() } else { 0 }
}

/// The width of the line's number (see `number_width`).
pub fn line_number_width(line: &StyledLine) -> (w: usize)
    ensures
        w == number_width(spans_v(line.spans@)),
{
    if line.spans.len() > 0 {
        line.spans[0].text.as_str().unicode_len()
    } else {
        0
    }
}

/// The line the search jumped to (one-based) is highlighted whole.
pub fn apply_grep_highlight(line: &mut StyledLine, line_idx: usize, highlight_line: Option<usize>)
    ensures
        ({
            let hit = match highlight_line {
                Some(t) => line_idx + 1 == t,
                None => false,
            };
            if hit {
                &&& spans_v(final(line).spans@) == spans_v(old(line).spans@).map_values(|v: SpanV| with_layer(v, Layer::GrepLine))
                &&& final(line).grep_highlight
            } else {
                &&& spans_v(final(line).spans@) == spans_v(old(line).spans@)
                &&& final(line).grep_highlight == old(line).grep_highlight
            }
        }),
{
    let target = match highlight_line {
        Some(t) => t,
        None => return,
    };
    if target == 0 || line_idx != target - 1 {
        return;
    }
    let ghost before = spans_v(line.spans@);
    let mut spans: Vec<StyledSpan> = Vec::new();
    let mut i: usize = 0;
    while i < line.spans.len()
        invariant
            i <= line.spans@.len(),
            before == spans_v(line.spans@),
            spans_v(spans@) == before.take(i as int).map_values(|v: SpanV| with_layer(v, Layer::GrepLine)),
        decreases line.spans@.len() - i,
    {
        let s = layered_span(&line.spans[i], Layer::GrepLine);
        let ghost prev = spans_v(spans@);
        spans.push(s);
        proof {
            assert(spans_v(spans@) =~= prev.push(with_layer(before[i as int], Layer::GrepLine)));
            assert(spans_v(spans@) =~= before.take(i + 1).map_values(|v: SpanV| with_layer(v, Layer::GrepLine)));
        }
        i = i + 1;
    }
    proof {
        assert(before.take(before.len() as int) =~= before);
    }
    line.spans = spans;
    line.grep_highlight = true;
}

/// The spans from char `scroll` on, the first `cur` chars lying before
/// them: spans wholly before `scroll` are dropped and the one it falls in
/// is cut.
pub open spec fn scrolled(spans: Seq<SpanV>, cur: int, scroll: int) -> Seq<SpanV>
    decreases spans.len(),
{
    if spans.len() == 0 {
        Seq::empty()
    } else {
        let s = spans[0];
        let n = s.text.len();
        let rest = scrolled(spans.drop_first(), cur + n, scroll);
        if cur + n <= scroll {
            rest
        } else if cur < scroll {
            seq![part(s, scroll - cur, n as int)] + rest
        } else {
            seq![s] + rest
        }
    }
}

/// Scrolls the line `scroll` chars to the right (see `scrolled`).
pub fn apply_horizontal_scroll(line: &mut StyledLine, scroll: usize)
    requires
        total_len(spans_v(old(line).spans@)) <= usize::MAX,
    ensures
        spans_v(final(line).spans@) == (if scroll == 0 {
            spans_v(old(line).spans@)
        } else {
            scrolled(spans_v(old(line).spans@), 0, scroll as int)
        }),
        final(line).grep_highlight == old(line).grep_highlight,
{
    if scroll == 0 {
        return;
    }
    let ghost sv = spans_v(line.spans@);
    let mut spans: Vec<StyledSpan> = Vec::new();
    let mut current: usize = 0;
    let mut i: usize = 0;
    proof {
        assert(sv.skip(0) =~= sv);
        assert(spans_v(spans@) + sv =~= sv);
        assert(sv.take(0) =~= Seq::<SpanV>::empty());
    }
    while i < line.spans.len()
        invariant
            i <= line.spans@.len(),
            sv == spans_v(line.spans@),
            total_len(sv) <= usize::MAX,
            current == total_len(sv.take(i as int)),
            scrolled(sv, 0, scroll as int) == spans_v(spans@) + scrolled(sv.skip(i as int), current as int, scroll as int),
        decreases line.spans@.len() - i,
    {
        proof {
            lemma_total_len_prefix(sv, i as int);
            assert(sv.skip(i as int).drop_first() =~= sv.skip(i + 1));
            assert(sv.skip(i as int)[0] == sv[i as int]);
        }
        let span = &line.spans[i];
        let chars = chars_of(span.text.as_str());
        let span_len = chars.len();
        let ghost before = spans_v(spans@);
        if current + span_len <= scroll {
        } else if current < scroll {
            let offset = scroll - current;
            let p = span_part(span, &chars, offset, span_len, None);
            spans.push(p);
            proof {
                assert(spans_v(spans@) =~= before + seq![part(sv[i as int], scroll - current, span_len as int)]);
            }
        } else {
            let p = copy_span(span);
            spans.push(p);
            proof {
                assert(spans_v(spans@) =~= before + seq![sv[i as int]]);
            }
        }
        current = current + span_len;
        i = i + 1;
    }
    proof {
        assert(sv.skip(sv.len() as int) =~= Seq::<SpanV>::empty());
        assert(spans_v(spans@) + Seq::<SpanV>::empty() =~= spans_v(spans@));
    }
    line.spans = spans;
}

/// The span `v` cut at chars `a` and `b`, the middle replaced by `m`: the
/// part before `a` (when not empty), `m`, and the part after `b` (when not
/// empty).
pub open spec fn around(v: SpanV, a: int, b: int, m: SpanV) -> Seq<SpanV> {
    (if a > 0 { seq![part(v, 0, a)] } else { Seq::empty() }) + seq![m]
        + (if b < v.text.len() { seq![part(v, b, v.text.len() as int)] } else { Seq::empty() })
}

/// Pushes the span `s` cut around `m` (see `around`).
fn push_around(out: &mut Vec<StyledSpan>, s: &StyledSpan, chars: &Vec<char>, a: usize, b: usize, m: StyledSpan)
    requires
        chars@ == s.text@,
        a <= b <= chars@.len(),
    ensures
        spans_v(final(out)@) == spans_v(old(out)@) + around(span_v(*s), a as int, b as int, span_v(m)),
{
    let ghost v = span_v(*s);
    let ghost o = spans_v(out@);
    let ghost mv = span_v(m);
    if a > 0 {
        let p = span_part(s, chars, 0, a, None);
        out.push(p);
    }
    let ghost o1 = spans_v(out@);
    proof {
        assert(o1 =~= o + (if a > 0 { seq![part(v, 0, a as int)] } else { Seq::empty() }));
    }
    out.push(m);
    let ghost o2 = spans_v(out@);
    proof {
        assert(o2 =~= o1 + seq![mv]);
    }
    if b < chars.len() {
        let p = span_part(s, chars, b, chars.len(), None);
        out.push(p);
    }
    proof {
        assert(spans_v(out@) =~= o2 + (if b < v.text.len() { seq![part(v, b as int, v.text.len() as int)] } else { Seq::empty() }));
        assert(spans_v(out@) =~= o + around(v, a as int, b as int, mv));
    }
}

/// The insert cursor, drawn in the style of the span it stands in.
pub open spec fn insert_bar(base: BaseStyle, layers: Seq<Layer>) -> SpanV {
    SpanV { text: "\u{258c}"@, base, layers: layers.push(Layer::InsertCursor) }
}

/// The spans with the insert cursor before char `pos`: in the first span
/// whose chars reach it (the part before, the cursor, the part after), or
/// after the last span (in the default style).
pub open spec fn with_insert_cursor(spans: Seq<SpanV>, cur: int, pos: int, inserted: bool) -> Seq<SpanV>
    decreases spans.len(),
{
    if spans.len() == 0 {
        if inserted { Seq::empty() } else { seq![insert_bar(BaseStyle::Default, Seq::empty())] }
    } else {
        let s = spans[0];
        let n = s.text.len();
        if !inserted && cur <= pos <= cur + n {
            around(s, pos - cur, pos - cur, insert_bar(s.base, s.layers))
                + with_insert_cursor(spans.drop_first(), cur + n, pos, true)
        } else {
            seq![s] + with_insert_cursor(spans.drop_first(), cur + n, pos, inserted)
        }
    }
}

/// Draws the insert cursor at char `cursor_char` of the text, after the
/// line's number (see `with_insert_cursor`).
pub fn apply_insert_cursor(line: &mut StyledLine, cursor_char: usize)
    requires
        total_len(spans_v(old(line).spans@)) <= usize::MAX,
        cursor_char + number_width(spans_v(old(line).spans@)) <= usize::MAX,
    ensures
        spans_v(final(line).spans@) == with_insert_cursor(spans_v(old(line).spans@), 0,
            cursor_char + number_width(spans_v(old(line).spans@)), false),
        final(line).grep_highlight == old(line).grep_highlight,
{
    let ghost sv = spans_v(line.spans@);
    let pos = cursor_char + line_number_width(line);
    let mut spans: Vec<StyledSpan> = Vec::new();
    let mut current: usize = 0;
    let mut inserted = false;
    let mut i: usize = 0;
    proof {
        assert(sv.skip(0) =~= sv);
        assert(sv.take(0) =~= Seq::<SpanV>::empty());
    }
    while i < line.spans.len()
        invariant
            i <= line.spans@.len(),
            sv == spans_v(line.spans@),
            total_len(sv) <= usize::MAX,
            current == total_len(sv.take(i as int)),
            with_insert_cursor(sv, 0, pos as int, false) == spans_v(spans@) + with_insert_cursor(sv.skip(i as int), current as int, pos as int, inserted),
        decreases line.spans@.len() - i,
    {
        proof {
            lemma_total_len_prefix(sv, i as int);
            assert(sv.skip(i as int).drop_first() =~= sv.skip(i + 1));
            assert(sv.skip(i as int)[0] == sv[i as int]);
        }
        let span = &line.spans[i];
        let chars = chars_of(span.text.as_str());
        let span_len = chars.len();
        let ghost before = spans_v(spans@);
        if !inserted && pos >= current && pos - current <= span_len {
            let local = pos - current;
            let mut layers = copy_layers(&span.layers);
            layers.push(Layer::InsertCursor);
            let bar = StyledSpan { text: to_owned_string("\u{258c}"), base: span.base, layers };
            push_around(&mut spans, span, &chars, local, local, bar);
            inserted = true;
            proof {
                assert(spans_v(spans@) + with_insert_cursor(sv.skip(i + 1), current + span_len, pos as int, true)
                    =~= before + with_insert_cursor(sv.skip(i as int), current as int, pos as int, false));
            }
        } else {
            let p = copy_span(span);
            spans.push(p);
            proof {
                assert(spans_v(spans@) =~= before + seq![sv[i as int]]);
            }
        }
        current = current + span_len;
        i = i + 1;
    }
    proof {
        assert(sv.skip(sv.len() as int) =~= Seq::<SpanV>::empty());
    }
    if !inserted {
        let mut layers: Vec<Layer> = Vec::new();
        layers.push(Layer::InsertCursor);
        let ghost before = spans_v(spans@);
        spans.push(StyledSpan { text: to_owned_string("\u{258c}"), base: BaseStyle::Default, layers });
        proof {
            assert(spans_v(spans@) =~= before + seq![insert_bar(BaseStyle::Default, Seq::empty())]);
        }
    } else {
        proof {
            assert(spans_v(spans@) + Seq::<SpanV>::empty() =~= spans_v(spans@));
        }
    }
    line.spans = spans;
}

/// The block cursor past the end of the text.
pub open spec fn end_block() -> SpanV {
    SpanV { text: " "@, base: BaseStyle::Default, layers: seq![Layer::NormalCursor] }
}

/// The spans with the block cursor on char `pos`: on the char in the first
/// span that holds it, or as a space after the last span.
pub open spec fn with_normal_cursor(spans: Seq<SpanV>, cur: int, pos: int, applied: bool) -> Seq<SpanV>
    decreases spans.len(),
{
    if spans.len() == 0 {
        if applied { Seq::empty() } else { seq![end_block()] }
    } else {
        let s = spans[0];
        let n = s.text.len();
        if !applied && cur <= pos < cur + n {
            around(s, pos - cur, pos - cur + 1, with_layer(part(s, pos - cur, pos - cur + 1), Layer::NormalCursor))
                + with_normal_cursor(spans.drop_first(), cur + n, pos, true)
        } else {
            seq![s] + with_normal_cursor(spans.drop_first(), cur + n, pos, applied)
        }
    }
}

/// Draws the block cursor at char `cursor_char` of the text, after the
/// line's number (see `with_normal_cursor`).
pub fn apply_normal_cursor(line: &mut StyledLine, cursor_char: usize)
    requires
        total_len(spans_v(old(line).spans@)) <= usize::MAX,
        cursor_char + number_width(spans_v(old(line).spans@)) <= usize::MAX,
    ensures
        spans_v(final(line).spans@) == with_normal_cursor(spans_v(old(line).spans@), 0,
            cursor_char + number_width(spans_v(old(line).spans@)), false),
        final(line).grep_highlight == old(line).grep_highlight,
{
    let ghost sv = spans_v(line.spans@);
    let pos = cursor_char + line_number_width(line);
    let mut spans: Vec<StyledSpan> = Vec::new();
    let mut current: usize = 0;
    let mut applied = false;
    let mut i: usize = 0;
    proof {
        assert(sv.skip(0) =~= sv);
        assert(sv.take(0) =~= Seq::<SpanV>::empty());
    }
    while i < line.spans.len()
        invariant
            i <= line.spans@.len(),
            sv == spans_v(line.spans@),
            total_len(sv) <= usize::MAX,
            current == total_len(sv.take(i as int)),
            with_normal_cursor(sv, 0, pos as int, false) == spans_v(spans@) + with_normal_cursor(sv.skip(i as int), current as int, pos as int, applied),
        decreases line.spans@.len() - i,
    {
        proof {
            lemma_total_len_prefix(sv, i as int);
            assert(sv.skip(i as int).drop_first() =~= sv.skip(i + 1));
            assert(sv.skip(i as int)[0] == sv[i as int]);
        }
        let span = &line.spans[i];
        let chars = chars_of(span.text.as_str());
        let span_len = chars.len();
        let ghost before = spans_v(spans@);
        if !applied && pos >= current && pos - current < span_len {
            let local = pos - current;
            let block = span_part(span, &chars, local, local + 1, Some(Layer::NormalCursor));
            push_around(&mut spans, span, &chars, local, local + 1, block);
            applied = true;
            proof {
                assert(spans_v(spans@) + with_normal_cursor(sv.skip(i + 1), current + span_len, pos as int, true)
                    =~= before + with_normal_cursor(sv.skip(i as int), current as int, pos as int, false));
            }
        } else {
            let p = copy_span(span);
            spans.push(p);
            proof {
                assert(spans_v(spans@) =~= before + seq![sv[i as int]]);
            }
        }
        current = current + span_len;
        i = i + 1;
    }
    proof {
        assert(sv.skip(sv.len() as int) =~= Seq::<SpanV>::empty());
    }
    if !applied {
        let mut layers: Vec<Layer> = Vec::new();
        layers.push(Layer::NormalCursor);
        let ghost before = spans_v(spans@);
        spans.push(StyledSpan { text: to_owned_string(" "), base: BaseStyle::Default, layers });
        proof {
            assert(layers@ =~= seq![Layer::NormalCursor]);
            assert(spans_v(spans@) =~= before + seq![end_block()]);
        }
    } else {
        proof {
            assert(spans_v(spans@) + Seq::<SpanV>::empty() =~= spans_v(spans@));
        }
    }
    line.spans = spans;
}

/// The spans with every span that starts at or after char `nw` (past the
/// line's number) selected.
pub open spec fn line_selected(spans: Seq<SpanV>, cur: int, nw: int) -> Seq<SpanV>
    decreases spans.len(),
{
    if spans.len() == 0 {
        Seq::empty()
    } else {
        let s = spans[0];
        seq![if cur < nw { s } else { with_layer(s, Layer::Selection) }]
            + line_selected(spans.drop_first(), cur + s.text.len(), nw)
    }
}

/// Selects the whole text of the line, its number left as it is (see
/// `line_selected`).
pub fn apply_visual_line_selection(line: &mut StyledLine)
    requires
        total_len(spans_v(old(line).spans@)) <= usize::MAX,
    ensures
        spans_v(final(line).spans@) == line_selected(spans_v(old(line).spans@), 0,
            number_width(spans_v(old(line).spans@)) as int),
        final(line).grep_highlight == old(line).grep_highlight,
{
    let ghost sv = spans_v(line.spans@);
    let nw = line_number_width(line);
    let mut spans: Vec<StyledSpan> = Vec::new();
    let mut current: usize = 0;
    let mut i: usize = 0;
    proof {
        assert(sv.skip(0) =~= sv);
        assert(sv.take(0) =~= Seq::<SpanV>::empty());
        assert(spans_v(spans@) + sv =~= sv);
    }
    while i < line.spans.len()
        invariant
            i <= line.spans@.len(),
            sv == spans_v(line.spans@),
            total_len(sv) <= usize::MAX,
            current == total_len(sv.take(i as int)),
            line_selected(sv, 0, nw as int) == spans_v(spans@) + line_selected(sv.skip(i as int), current as int, nw as int),
        decreases line.spans@.len() - i,
    {
        proof {
            lemma_total_len_prefix(sv, i as int);
            assert(sv.skip(i as int).drop_first() =~= sv.skip(i + 1));
            assert(sv.skip(i as int)[0] == sv[i as int]);
        }
        let span = &line.spans[i];
        let span_len = span.text.as_str().unicode_len();
        let ghost before = spans_v(spans@);
        let p = if current < nw { copy_span(span) } else { layered_span(span, Layer::Selection) };
        spans.push(p);
        proof {
            assert(spans_v(spans@) =~= before + seq![if current < nw { sv[i as int] } else { with_layer(sv[i as int], Layer::Selection) }]);
        }
        current = current + span_len;
        i = i + 1;
    }
    proof {
        assert(sv.skip(sv.len() as int) =~= Seq::<SpanV>::empty());
        assert(spans_v(spans@) + Seq::<SpanV>::empty() =~= spans_v(spans@));
    }
    line.spans = spans;
}

/// The spans with the chars from `hs` to `he` selected: each span that
/// meets the range is cut around its selected part.
pub open spec fn char_selected(spans: Seq<SpanV>, cur: int, hs: int, he: int) -> Seq<SpanV>
    decreases spans.len(),
{
    if spans.len() == 0 {
        Seq::empty()
    } else {
        let s = spans[0];
        let n = s.text.len() as int;
        let is = if cur > hs { cur } else { hs };
        let ie = if cur + n < he { cur + n } else { he };
        (if is < ie {
            around(s, is - cur, ie - cur, with_layer(part(s, is - cur, ie - cur), Layer::Selection))
        } else {
            seq![s]
        }) + char_selected(spans.drop_first(), cur + n, hs, he)
    }
}

/// The selected chars of line `line_idx` when the selection runs from
/// `start` to `end` (line and char): from the start char on its line (else
/// from the text's first char) to the end char on its line (else to the
/// end), after the line's number.
pub open spec fn selection_bounds(line_idx: int, start: (usize, usize), end: (usize, usize), nw: int) -> (int, int) {
    let hs = if line_idx == start.0 { start.1 + nw } else { nw };
    let he = if line_idx == end.0 { end.1 + 1 + nw } else { usize::MAX as int };
    (hs, he)
}

/// Selects the chars of line `line_idx` between `start` and `end` (see
/// `selection_bounds` and `char_selected`).
pub fn apply_visual_char_selection(line: &mut StyledLine, line_idx: usize, start: (usize, usize), end: (usize, usize))
    requires
        total_len(spans_v(old(line).spans@)) <= usize::MAX,
        start.1 + number_width(spans_v(old(line).spans@)) <= usize::MAX,
        end.1 + 1 + number_width(spans_v(old(line).spans@)) <= usize::MAX,
    ensures
        ({
            let sv = spans_v(old(line).spans@);
            let (hs, he) = selection_bounds(line_idx as int, start, end, number_width(sv) as int);
            spans_v(final(line).spans@) == char_selected(sv, 0, hs, he)
        }),
        final(line).grep_highlight == old(line).grep_highlight,
{
    let ghost sv = spans_v(line.spans@);
    let nw = line_number_width(line);
    let hs = if line_idx == start.0 { start.1 + nw } else { nw };
    let he = if line_idx == end.0 { end.1 + 1 + nw } else { usize::MAX };
    let mut spans: Vec<StyledSpan> = Vec::new();
    let mut current: usize = 0;
    let mut i: usize = 0;
    proof {
        assert(sv.skip(0) =~= sv);
        assert(sv.take(0) =~= Seq::<SpanV>::empty());
        assert(spans_v(spans@) + sv =~= sv);
    }
    while i < line.spans.len()
        invariant
            i <= line.spans@.len(),
            sv == spans_v(line.spans@),
            total_len(sv) <= usize::MAX,
            current == total_len(sv.take(i as int)),
            char_selected(sv, 0, hs as int, he as int) == spans_v(spans@) + char_selected(sv.skip(i as int), current as int, hs as int, he as int),
        decreases line.spans@.len() - i,
    {
        proof {
            lemma_total_len_prefix(sv, i as int);
            assert(sv.skip(i as int).drop_first() =~= sv.skip(i + 1));
            assert(sv.skip(i as int)[0] == sv[i as int]);
        }
        let span = &line.spans[i];
        let chars = chars_of(span.text.as_str());
        let span_len = chars.len();
        let span_end = current + span_len;
        let is = if current > hs { current } else { hs };
        let ie = if span_end < he { span_end } else { he };
        let ghost before = spans_v(spans@);
        if is < ie {
            let ls = is - current;
            let le = ie - current;
            let mid = span_part(span, &chars, ls, le, Some(Layer::Selection));
            push_around(&mut spans, span, &chars, ls, le, mid);
        } else {
            let p = copy_span(span);
            spans.push(p);
            proof {
                assert(spans_v(spans@) =~= before + seq![sv[i as int]]);
            }
        }
        proof {
            assert(spans_v(spans@) + char_selected(sv.skip(i + 1), span_end as int, hs as int, he as int)
                =~= before + char_selected(sv.skip(i as int), current as int, hs as int, he as int));
        }
        current = span_end;
        i = i + 1;
    }
    proof {
        assert(sv.skip(sv.len() as int) =~= Seq::<SpanV>::empty());
        assert(spans_v(spans@) + Seq::<SpanV>::empty() =~= spans_v(spans@));
    }
    line.spans = spans;
}

/// The two positions (line, char) in order.
pub open spec fn ordered(a: (usize, usize), b: (usize, usize)) -> ((usize, usize), (usize, usize)) {
    if a.0 < b.0 || (a.0 == b.0 && a.1 <= b.1) { (a, b) } else { (b, a) }
}

/// The selection's ends in order (see `ordered`).
pub fn normalize_selection(a: (usize, usize), b: (usize, usize)) -> (r: ((usize, usize), (usize, usize)))
    ensures
        r == ordered(a, b),
{
    if a.0 < b.0 || (a.0 == b.0 && a.1 <= b.1) {
        (a, b)
    } else {
        (b, a)
    }
}

/// What the preview shows of the editor: the line the search jumped to,
/// the search query, the mode, the selection's start, the cursor, the
/// scroll, and the area's height.
pub struct PreviewView {
    pub highlight_line: Option<usize>,
    pub search_query: String,
    pub preview_mode: InputMode,
    pub selection_start: Option<(usize, usize)>,
    pub cursor_line: usize,
    pub cursor_char: usize,
    pub scroll: usize,
    pub scroll_char: usize,
    pub area_height: u16,
}

/// Whether line `line_idx` lies in the selection, when the view is in a
/// visual mode with a selection: its ordered ends.
pub open spec fn selection_of(line_idx: int, view: PreviewView) -> Option<((usize, usize), (usize, usize))> {
    if view.preview_mode != InputMode::Visual && view.preview_mode != InputMode::VisualLine {
        None
    } else {
        match view.selection_start {
            None => None,
            Some(a) => {
                let (s, e) = ordered(a, (view.cursor_line, view.cursor_char));
                if line_idx < s.0 || line_idx > e.0 { None } else { Some((s, e)) }
            },
        }
    }
}

/// The selection can be drawn on a line whose number is `nw` chars wide.
pub open spec fn selection_fits(view: PreviewView, nw: int) -> bool {
    match view.selection_start {
        Some(a) => a.1 + 1 + nw <= usize::MAX && view.cursor_char + 1 + nw <= usize::MAX,
        None => true,
    }
}

/// The spans with the selection drawn on line `line_idx`: the whole text
/// in line mode, the selected chars in char mode, nothing off the
/// selection.
pub open spec fn selection_step(sv: Seq<SpanV>, line_idx: int, view: PreviewView) -> Seq<SpanV> {
    let nw = number_width(sv) as int;
    match selection_of(line_idx, view) {
        None => sv,
        Some((s, e)) => if view.preview_mode == InputMode::VisualLine {
            line_selected(sv, 0, nw)
        } else {
            let (hs, he) = selection_bounds(line_idx, s, e, nw);
            char_selected(sv, 0, hs, he)
        },
    }
}

/// The spans with the cursor drawn on line `line_idx`: a bar in insert
/// mode, a block in normal mode.
pub open spec fn cursor_step(sv: Seq<SpanV>, line_idx: int, view: PreviewView) -> Seq<SpanV> {
    let pos = view.cursor_char + number_width(sv);
    if line_idx != view.cursor_line {
        sv
    } else if view.preview_mode == InputMode::Insert {
        with_insert_cursor(sv, 0, pos, false)
    } else if view.preview_mode == InputMode::Normal {
        with_normal_cursor(sv, 0, pos, false)
    } else {
        sv
    }
}

/// Draws the selection on line `line_idx`: the whole text in line mode,
/// the selected chars in char mode; nothing outside a visual mode or off
/// the selected lines.
pub fn apply_visual_selection(line: &mut StyledLine, line_idx: usize, view: &PreviewView)
    requires
        total_len(spans_v(old(line).spans@)) <= usize::MAX,
        selection_fits(*view, number_width(spans_v(old(line).spans@)) as int),
    ensures
        spans_v(final(line).spans@) == selection_step(spans_v(old(line).spans@), line_idx as int, *view),
        final(line).grep_highlight == old(line).grep_highlight,
{
    if view.preview_mode != InputMode::Visual && view.preview_mode != InputMode::VisualLine {
        return;
    }
    let a = match view.selection_start {
        Some(a) => a,
        None => return,
    };
    let (start, end) = normalize_selection(a, (view.cursor_line, view.cursor_char));
    if line_idx < start.0 || line_idx > end.0 {
        return;
    }
    if view.preview_mode == InputMode::VisualLine {
        apply_visual_line_selection(line);
    } else {
        apply_visual_char_selection(line, line_idx, start, end);
    }
}

/// The cursor fits after a number `nw` chars wide.
pub open spec fn cursor_fits(view: PreviewView, nw: int) -> bool {
    view.cursor_char + 1 + nw <= usize::MAX
}

/// Draws the cursor on the cursor's line: a bar in insert mode, a block in
/// normal mode, nothing in the other modes.
pub fn apply_cursor_overlay(line: &mut StyledLine, line_idx: usize, view: &PreviewView)
    requires
        total_len(spans_v(old(line).spans@)) <= usize::MAX,
        cursor_fits(*view, number_width(spans_v(old(line).spans@)) as int),
    ensures
        spans_v(final(line).spans@) == cursor_step(spans_v(old(line).spans@), line_idx as int, *view),
        final(line).grep_highlight == old(line).grep_highlight,
{
    if line_idx != view.cursor_line {
        return;
    }
    if view.preview_mode == InputMode::Insert {
        apply_insert_cursor(line, view.cursor_char);
    } else if view.preview_mode == InputMode::Normal {
        apply_normal_cursor(line, view.cursor_char);
    }
}

/// The lines shown: from the scroll, as many as fit in the area less its
/// two border rows, within the `line_count` lines.
pub fn visible_line_range(view: &PreviewView, line_count: usize) -> (r: (usize, usize))
    ensures
        ({
            let height = if view.area_height >= 2 { view.area_height - 2 } else { 0 };
            let end = if view.scroll + height < line_count { view.scroll + height } else { line_count as int };
            r.0 == view.scroll && r.1 == end
        }),
{
    let height: usize = if view.area_height >= 2 { (view.area_height - 2) as usize } else { 0 };
    let end = if view.scroll < line_count && height < line_count - view.scroll { view.scroll + height } else { line_count };
    (view.scroll, end)
}

/// The text of the spans, one after the other.
pub open spec fn concat_text(s: Seq<SpanV>) -> Seq<char>
    decreases s.len(),
{
    if s.len() == 0 { Seq::empty() } else { concat_text(s.drop_last()) + s.last().text }
}

/// Where `q` occurs in `text` from `from` on, each occurrence searched
/// after the end of the one before (`str::match_indices`).
pub open spec fn match_starts(text: Seq<char>, q: Seq<char>, from: int) -> Seq<int>
    decreases text.len() + 1 - from,
{
    if q.len() == 0 || from < 0 || from > text.len() {
        Seq::empty()
    } else if occurs_at(text, q, from) {
        seq![from] + match_starts(text, q, from + q.len())
    } else {
        match_starts(text, q, from + 1)
    }
}

proof fn lemma_match_starts_skip(text: Seq<char>, q: Seq<char>, from: int, i: int)
    requires
        q.len() > 0,
        0 <= from <= i <= text.len(),
        forall|j: int| from <= j < i ==> !occurs_at(text, q, j),
    ensures
        match_starts(text, q, from) == match_starts(text, q, i),
    decreases i - from,
{
    if from < i {
        lemma_match_starts_skip(text, q, from + 1, i);
    }
}

proof fn lemma_match_starts_none(text: Seq<char>, q: Seq<char>, from: int)
    requires
        q.len() > 0,
        0 <= from,
        forall|j: int| from <= j ==> !occurs_at(text, q, j),
    ensures
        match_starts(text, q, from) == Seq::<int>::empty(),
    decreases text.len() + 1 - from,
{
    if from <= text.len() {
        lemma_match_starts_none(text, q, from + 1);
    }
}

/// Every place `match_starts` gives is an occurrence.
pub proof fn lemma_match_starts_occur(text: Seq<char>, q: Seq<char>, from: int)
    ensures
        forall|k: int| 0 <= k < match_starts(text, q, from).len() ==> occurs_at(text, q, #[trigger] match_starts(text, q, from)[k]),
    decreases text.len() + 1 - from,
{
    if q.len() == 0 || from < 0 || from > text.len() {
    } else if occurs_at(text, q, from) {
        lemma_match_starts_occur(text, q, from + q.len());
        let r = match_starts(text, q, from + q.len());
        assert forall|k: int| 0 <= k < match_starts(text, q, from).len() implies occurs_at(text, q, #[trigger] match_starts(text, q, from)[k]) by {
            if k > 0 {
                assert(match_starts(text, q, from)[k] == r[k - 1]);
            } else {
                assert(match_starts(text, q, from)[0] == from);
            }
        }
    } else {
        lemma_match_starts_occur(text, q, from + 1);
        assert(match_starts(text, q, from) == match_starts(text, q, from + 1));
    }
}

/// The places where `q` occurs in `text` (see `match_starts`).
fn find_matches(text: &Vec<char>, q: &Vec<char>) -> (r: Vec<usize>)
    requires
        q@.len() > 0,
    ensures
        r@.map_values(|m: usize| m as int) == match_starts(text@, q@, 0),
{
    let mut out: Vec<usize> = Vec::new();
    let mut pos: usize = 0;
    loop
        invariant
            q@.len() > 0,
            pos <= text@.len(),
            match_starts(text@, q@, 0) == out@.map_values(|m: usize| m as int) + match_starts(text@, q@, pos as int),
        decreases text@.len() + 1 - pos,
    {
        match find_from(text.as_slice(), q.as_slice(), pos) {
            Some(i) => {
                proof {
                    assert(occurs_at(text@, q@, i as int));
                    lemma_match_starts_skip(text@, q@, pos as int, i as int);
                }
                let ghost before = out@.map_values(|m: usize| m as int);
                out.push(i);
                proof {
                    assert(out@.map_values(|m: usize| m as int) =~= before.push(i as int));
                    assert(before + match_starts(text@, q@, i as int) =~= before.push(i as int) + match_starts(text@, q@, i + q@.len()));
                }
                let text_len = text.len();
                proof {
                    assert(i + q@.len() <= text_len);
                }
                pos = i + q.len();
            },
            None => {
                proof {
                    lemma_match_starts_none(text@, q@, pos as int);
                    assert(out@.map_values(|m: usize| m as int) + Seq::<int>::empty() =~= out@.map_values(|m: usize| m as int));
                }
                return out;
            },
        }
    }
}

/// From position `g` of the text: the next place where a match of length
/// `q` starts or ends, and whether `g` lies in a match (`None` when no
/// match lies ahead).
pub open spec fn boundary_after(starts: Seq<int>, q: int, g: int) -> Option<(int, bool)>
    decreases starts.len(),
{
    if starts.len() == 0 {
        None
    } else {
        let m = starts[0];
        if g < m {
            Some((m, false))
        } else if g < m + q {
            Some((m + q, true))
        } else {
            boundary_after(starts.drop_first(), q, g)
        }
    }
}

pub proof fn lemma_boundary_after_ahead(starts: Seq<int>, q: int, g: int)
    ensures
        boundary_after(starts, q, g) matches Some((b, _)) ==> b > g,
    decreases starts.len(),
{
    if starts.len() > 0 {
        lemma_boundary_after_ahead(starts.drop_first(), q, g);
    }
}

proof fn lemma_boundary_after_skip(starts: Seq<int>, q: int, g: int, k: int)
    requires
        q >= 0,
        0 <= k <= starts.len(),
        forall|j: int| 0 <= j < k ==> starts[j] + q <= g,
    ensures
        boundary_after(starts, q, g) == boundary_after(starts.skip(k), q, g),
    decreases k,
{
    if k == 0 {
        assert(starts.skip(0) =~= starts);
    } else {
        assert(starts[0] + q <= g);
        lemma_boundary_after_skip(starts.drop_first(), q, g, k - 1);
        assert(starts.drop_first().skip(k - 1) =~= starts.skip(k));
    }
}

/// The span `v`, lying at position `cur` of the text, from its char `lo`
/// on, cut at every place a match starts or ends, the parts inside a match
/// highlighted.
pub open spec fn span_pieces(v: SpanV, cur: int, lo: int, starts: Seq<int>, q: int) -> Seq<SpanV>
    decreases v.text.len() - lo,
{
    let n = v.text.len() as int;
    if lo >= n || lo < 0 {
        Seq::empty()
    } else {
        match boundary_after(starts, q, cur + lo) {
            None => seq![part(v, lo, n)],
            Some((b, hit)) => {
                proof {
                    lemma_boundary_after_ahead(starts, q, cur + lo);
                }
                let hi = if b - cur < n { b - cur } else { n };
                let p = part(v, lo, hi);
                seq![if hit { with_layer(p, Layer::SearchMatch) } else { p }] + span_pieces(v, cur, hi, starts, q)
            },
        }
    }
}

/// The spans, lying from position `cur` of the text on, each cut into its
/// pieces (see `span_pieces`).
pub open spec fn highlighted(spans: Seq<SpanV>, cur: int, starts: Seq<int>, q: int) -> Seq<SpanV>
    decreases spans.len(),
{
    if spans.len() == 0 {
        Seq::empty()
    } else {
        span_pieces(spans[0], cur, 0, starts, q) + highlighted(spans.drop_first(), cur + spans[0].text.len(), starts, q)
    }
}

/// The spans with every match of the query highlighted: unchanged for an
/// empty query or when it does not occur.
pub open spec fn search_highlighted(spans: Seq<SpanV>, q: Seq<char>) -> Seq<SpanV> {
    let starts = match_starts(concat_text(spans), q, 0);
    if q.len() == 0 || starts.len() == 0 {
        spans
    } else {
        highlighted(spans, 0, starts, q.len() as int)
    }
}

/// The text of the line's spans, one after the other.
fn joined_text(line: &StyledLine) -> (r: Vec<char>)
    ensures
        r@ == concat_text(spans_v(line.spans@)),
{
    let ghost sv = spans_v(line.spans@);
    let mut text: Vec<char> = Vec::new();
    let mut i: usize = 0;
    proof {
        assert(sv.take(0) =~= Seq::<SpanV>::empty());
    }
    while i < line.spans.len()
        invariant
            i <= line.spans@.len(),
            sv == spans_v(line.spans@),
            text@ == concat_text(sv.take(i as int)),
        decreases line.spans@.len() - i,
    {
        let cs = chars_of(line.spans[i].text.as_str());
        let ghost start = text@;
        let mut k: usize = 0;
        while k < cs.len()
            invariant
                k <= cs@.len(),
                text@ == start + cs@.take(k as int),
            decreases cs@.len() - k,
        {
            text.push(cs[k]);
            proof {
                assert(text@ =~= start + cs@.take(k + 1));
            }
            k = k + 1;
        }
        proof {
            assert(cs@.take(cs@.len() as int) =~= cs@);
            assert(sv.take(i + 1).drop_last() =~= sv.take(i as int));
            assert(sv.take(i + 1).last() == sv[i as int]);
        }
        i = i + 1;
    }
    proof {
        assert(sv.take(sv.len() as int) =~= sv);
    }
    text
}

/// Highlights every match of `query` in the line's text (see
/// `search_highlighted`).
pub fn apply_search_highlight(line: &mut StyledLine, query: &str)
    requires
        total_len(spans_v(old(line).spans@)) <= usize::MAX,
    ensures
        spans_v(final(line).spans@) == search_highlighted(spans_v(old(line).spans@), query@),
        final(line).grep_highlight == old(line).grep_highlight,
{
    let q = chars_of(query);
    if q.len() == 0 {
        return;
    }
    let ghost sv = spans_v(line.spans@);
    let text = joined_text(line);
    let starts = find_matches(&text, &q);
    if starts.len() == 0 {
        return;
    }
    let ghost st = starts@.map_values(|m: usize| m as int);
    proof {
        lemma_match_starts_occur(text@, q@, 0);
    }
    let qlen = q.len();
    let mut out: Vec<StyledSpan> = Vec::new();
    let mut current: usize = 0;
    let mut mi: usize = 0;
    let mut i: usize = 0;
    proof {
        assert(sv.skip(0) =~= sv);
        assert(sv.take(0) =~= Seq::<SpanV>::empty());
        assert(spans_v(out@) + sv =~= sv);
    }
    while i < line.spans.len()
        invariant
            i <= line.spans@.len(),
            sv == spans_v(line.spans@),
            total_len(sv) <= usize::MAX,
            current == total_len(sv.take(i as int)),
            qlen == q@.len(),
            st == starts@.map_values(|m: usize| m as int),
            st == match_starts(text@, q@, 0),
            forall|k: int| 0 <= k < st.len() ==> occurs_at(text@, q@, #[trigger] st[k]),
            mi <= starts@.len(),
            forall|j: int| 0 <= j < mi ==> st[j] + qlen <= current,
            highlighted(sv, 0, st, qlen as int) == spans_v(out@) + highlighted(sv.skip(i as int), current as int, st, qlen as int),
        decreases line.spans@.len() - i,
    {
        proof {
            lemma_total_len_prefix(sv, i as int);
            assert(sv.skip(i as int).drop_first() =~= sv.skip(i + 1));
            assert(sv.skip(i as int)[0] == sv[i as int]);
        }
        let span = &line.spans[i];
        let ghost v = sv[i as int];
        let chars = chars_of(span.text.as_str());
        let span_len = chars.len();
        let span_end = current + span_len;
        let ghost at_start = spans_v(out@);
        let mut local: usize = 0;
        proof {
            assert(at_start + span_pieces(v, current as int, 0, st, qlen as int) =~= at_start + span_pieces(v, current as int, 0, st, qlen as int));
        }
        while local < span_len
            invariant
                local <= span_len == chars@.len(),
                chars@ == v.text,
                v == span_v(*span),
                span_end == current + span_len,
                span_end <= usize::MAX,
                qlen == q@.len(),
                st == starts@.map_values(|m: usize| m as int),
                forall|k: int| 0 <= k < st.len() ==> occurs_at(text@, q@, #[trigger] st[k]),
                mi <= starts@.len(),
                forall|j: int| 0 <= j < mi ==> st[j] + qlen <= current + local,
                spans_v(out@) + span_pieces(v, current as int, local as int, st, qlen as int)
                    == at_start + span_pieces(v, current as int, 0, st, qlen as int),
            decreases span_len - local, starts@.len() - mi,
        {
            let g = current + local;
            proof {
                lemma_boundary_after_skip(st, qlen as int, g as int, mi as int);
                if mi < starts@.len() {
                    assert(st.skip(mi as int)[0] == st[mi as int]);
                    assert(st.skip(mi as int).drop_first() =~= st.skip(mi + 1));
                    assert(occurs_at(text@, q@, st[mi as int]));
                }
            }
            let ghost before = spans_v(out@);
            if mi >= starts.len() || starts[mi] >= span_end {
                let p = span_part(span, &chars, local, span_len, None);
                out.push(p);
                proof {
                    assert(spans_v(out@) =~= before.push(part(v, local as int, span_len as int)));
                }
                local = span_len;
            } else {
                let m_start = starts[mi];
                let text_len = text.len();
                proof {
                    assert(m_start + qlen <= text_len);
                }
                let m_end = m_start + qlen;
                if g < m_start {
                    let end_global = if m_start < span_end { m_start } else { span_end };
                    let end_local = end_global - current;
                    let p = span_part(span, &chars, local, end_local, None);
                    out.push(p);
                    proof {
                        assert(spans_v(out@) =~= before.push(part(v, local as int, end_local as int)));
                    }
                    local = end_local;
                } else if g < m_end {
                    let end_global = if m_end < span_end { m_end } else { span_end };
                    let end_local = end_global - current;
                    let p = span_part(span, &chars, local, end_local, Some(Layer::SearchMatch));
                    out.push(p);
                    proof {
                        assert(spans_v(out@) =~= before.push(with_layer(part(v, local as int, end_local as int), Layer::SearchMatch)));
                    }
                    local = end_local;
                    if m_end <= span_end {
                        mi = mi + 1;
                    }
                } else {
                    mi = mi + 1;
                }
            }
        }
        proof {
            assert(spans_v(out@) + highlighted(sv.skip(i + 1), span_end as int, st, qlen as int)
                =~= at_start + highlighted(sv.skip(i as int), current as int, st, qlen as int));
        }
        current = span_end;
        i = i + 1;
    }
    proof {
        assert(sv.skip(sv.len() as int) =~= Seq::<SpanV>::empty());
        assert(spans_v(out@) + Seq::<SpanV>::empty() =~= spans_v(out@));
    }
    line.spans = out;
}

/// `s` with each tab replaced by four spaces.
pub open spec fn expand_tabs(s: Seq<char>) -> Seq<char>
    decreases s.len(),
{
    if s.len() == 0 {
        Seq::empty()
    } else {
        expand_tabs(s.drop_last()) + (if s.last() == '\t' { "    "@ } else { seq![s.last()] })
    }
}

/// The text of a line as drawn: tabs become four spaces.
pub fn sanitize_content(content: &str) -> (r: String)
    ensures
        r@ == expand_tabs(content@),
{
    let v = chars_of(content);
    let mut r = String::new();
    let mut i: usize = 0;
    while i < v.len()
        invariant
            i <= v@.len(),
            v@ == content@,
            r@ == expand_tabs(v@.take(i as int)),
        decreases v@.len() - i,
    {
        proof {
            assert(v@.take(i + 1).drop_last() =~= v@.take(i as int));
        }
        if v[i] == '\t' {
            push_str(&mut r, "    ");
        } else {
            push_char(&mut r, v[i]);
        }
        proof {
            assert(r@ =~= expand_tabs(v@.take(i + 1)));
        }
        i = i + 1;
    }
    proof {
        assert(v@.take(v@.len() as int) =~= v@);
    }
    r
}

/// The label of line `n`: the number right-aligned in four chars, and a
/// space.
pub open spec fn number_label(n: nat) -> Seq<char> {
    padded_left(decimal(n), 4) + " "@
}

/// The label of line `line_number` (see `number_label`).
pub fn line_number_label(line_number: usize) -> (r: String)
    ensures
        r@ == number_label(line_number as nat),
{
    let digits = crate::chars::usize_to_string(line_number);
    let len = digits.as_str().unicode_len();
    let mut r = String::new();
    let mut k = len;
    while k < 4
        invariant
            len <= k,
            len < 4 ==> k <= 4,
            len >= 4 ==> k == len,
            len == digits@.len(),
            r@ == Seq::new((k - len) as nat, |i: int| ' '),
        decreases 4 - k,
    {
        push_char(&mut r, ' ');
        proof {
            assert(r@ =~= Seq::new((k + 1 - len) as nat, |i: int| ' '));
        }
        k = k + 1;
    }
    push_str(&mut r, digits.as_str());
    push_str(&mut r, " ");
    proof {
        if len >= 4 {
            assert(r@ =~= digits@ + " "@);
        } else {
            assert(r@ =~= Seq::new((4 - len) as nat, |i: int| ' ') + digits@ + " "@);
        }
    }
    r
}

/// `s` without its trailing `\n`s and then its trailing `\r`s (see
/// `trim_line_end`).
pub(crate) fn trim_line_end_str(s: &str) -> (r: String)
    ensures
        r@ == trim_line_end(s@),
{
    let v = chars_of(s);
    let mut n = v.len();
    proof {
        assert(v@.take(n as int) =~= v@);
    }
    while n > 0 && v[n - 1] == '\n'
        invariant
            n <= v@.len(),
            trim_end_char(v@.take(n as int), '\n') == trim_end_char(s@, '\n'),
            v@ == s@,
        decreases n,
    {
        proof {
            assert(v@.take(n as int).drop_last() =~= v@.take(n - 1));
        }
        n = n - 1;
    }
    let ghost t = v@.take(n as int);
    proof {
        assert(trim_end_char(t, '\n') == t);
    }
    let mut m = n;
    proof {
        assert(t.take(m as int) =~= t);
    }
    while m > 0 && v[m - 1] == '\r'
        invariant
            m <= n <= v@.len(),
            t == v@.take(n as int),
            trim_end_char(t.take(m as int), '\r') == trim_end_char(t, '\r'),
        decreases m,
    {
        proof {
            assert(t.take(m as int).drop_last() =~= t.take(m - 1));
        }
        m = m - 1;
    }
    proof {
        assert(trim_end_char(t.take(m as int), '\r') == t.take(m as int));
        assert(v@.subrange(0, m as int) =~= t.take(m as int));
    }
    string_from_chars(v.as_slice(), 0, m)
}

/// The plain line numbered `line_number` whose text is `text`: its label
/// in the line-number style, then its text without the line ending, tabs
/// expanded.
pub fn plain_line(text: &str, line_number: usize) -> (r: StyledLine)
    ensures
        spans_v(r.spans@) == seq![
            SpanV { text: number_label(line_number as nat), base: BaseStyle::LineNumber, layers: Seq::empty() },
            SpanV { text: expand_tabs(trim_line_end(text@)), base: BaseStyle::Default, layers: Seq::empty() },
        ],
        !r.grep_highlight,
{
    let trimmed = trim_line_end_str(text);
    let content = sanitize_content(trimmed.as_str());
    let mut spans: Vec<StyledSpan> = Vec::new();
    spans.push(StyledSpan { text: line_number_label(line_number), base: BaseStyle::LineNumber, layers: Vec::new() });
    spans.push(StyledSpan { text: content, base: BaseStyle::Default, layers: Vec::new() });
    proof {
        assert(spans_v(spans@) =~= seq![
            SpanV { text: number_label(line_number as nat), base: BaseStyle::LineNumber, layers: Seq::empty() },
            SpanV { text: expand_tabs(trim_line_end(text@)), base: BaseStyle::Default, layers: Seq::empty() },
        ]);
    }
    StyledLine { spans, grep_highlight: false }
}

/// The plain lines of the document from `start_line` to `end_line` (as far
/// as it has lines), numbered from one.
pub fn generate_plain_lines_for_range(doc: &RichTextDocument, start_line: usize, end_line: usize) -> (r: Vec<StyledLine>)
    requires
        start_line <= end_line,
    ensures
        ({
            let n = spec_lines(doc.buffer@).len();
            let last = if end_line < n { end_line as int } else if start_line < n { n as int } else { start_line as int };
            &&& r@.len() == last - start_line
            &&& forall|k: int| 0 <= k < r@.len() ==> {
                let i = start_line + k;
                let t = line_text(doc.buffer@, spec_lines(doc.buffer@)[i]);
                &&& spans_v((#[trigger] r@[k]).spans@) == seq![
                    SpanV { text: number_label((i + 1) as nat), base: BaseStyle::LineNumber, layers: Seq::empty() },
                    SpanV { text: expand_tabs(trim_line_end(t)), base: BaseStyle::Default, layers: Seq::empty() },
                ]
                &&& !r@[k].grep_highlight
            }
        }),
{
    let mut lines: Vec<StyledLine> = Vec::new();
    let mut i = start_line;
    let n = doc.buffer.line_count();
    while i < end_line
        invariant
            start_line <= i <= end_line,
            n == spec_lines(doc.buffer@).len(),
            lines@.len() == (if i < n { i as int } else if start_line < n { n as int } else { start_line as int }) - start_line,
            forall|k: int| 0 <= k < lines@.len() ==> {
                let j = start_line + k;
                let t = line_text(doc.buffer@, spec_lines(doc.buffer@)[j]);
                &&& spans_v((#[trigger] lines@[k]).spans@) == seq![
                    SpanV { text: number_label((j + 1) as nat), base: BaseStyle::LineNumber, layers: Seq::empty() },
                    SpanV { text: expand_tabs(trim_line_end(t)), base: BaseStyle::Default, layers: Seq::empty() },
                ]
                &&& !lines@[k].grep_highlight
            },
        decreases end_line - i,
    {
        match doc.buffer.line_slice(i) {
            Some(t) => {
                let l = plain_line(t, i + 1);
                lines.push(l);
            },
            None => {},
        }
        i = i + 1;
    }
    lines
}

/// The text of spans laid one after the other is the texts joined.
pub proof fn lemma_concat_add(a: Seq<SpanV>, b: Seq<SpanV>)
    ensures
        concat_text(a + b) == concat_text(a) + concat_text(b),
    decreases b.len(),
{
    if b.len() == 0 {
        assert(a + b =~= a);
        assert(concat_text(a) + Seq::<char>::empty() =~= concat_text(a));
    } else {
        assert((a + b).drop_last() =~= a + b.drop_last());
        lemma_concat_add(a, b.drop_last());
        assert(concat_text(a + b) =~= concat_text(a) + concat_text(b));
    }
}

proof fn lemma_concat_single(x: SpanV)
    ensures
        concat_text(seq![x]) == x.text,
{
    let one = seq![x];
    assert(one.drop_last() =~= Seq::<SpanV>::empty());
    assert(one.last() == x);
    assert(concat_text(Seq::<SpanV>::empty()) == Seq::<char>::empty());
    assert(Seq::<char>::empty() + x.text =~= x.text);
}

proof fn lemma_concat_first(s: Seq<SpanV>)
    requires
        s.len() > 0,
    ensures
        concat_text(s) == s[0].text + concat_text(s.drop_first()),
{
    assert(s =~= seq![s[0]] + s.drop_first());
    lemma_concat_add(seq![s[0]], s.drop_first());
    assert(seq![s[0]].drop_last() =~= Seq::<SpanV>::empty());
    lemma_concat_single(s[0]);
}

/// The number of chars of the spans is the length of their text.
pub proof fn lemma_total_len_text(s: Seq<SpanV>)
    ensures
        total_len(s) == concat_text(s).len(),
    decreases s.len(),
{
    if s.len() > 0 {
        lemma_total_len_text(s.drop_last());
    }
}

/// The text of `around`: the part before `a`, the middle, the part after
/// `b`.
proof fn lemma_around_text(v: SpanV, a: int, b: int, m: SpanV)
    requires
        0 <= a <= b <= v.text.len(),
    ensures
        concat_text(around(v, a, b, m)) == v.text.take(a) + m.text + v.text.skip(b),
{
    let pre: Seq<SpanV> = if a > 0 { seq![part(v, 0, a)] } else { Seq::empty() };
    let post: Seq<SpanV> = if b < v.text.len() { seq![part(v, b, v.text.len() as int)] } else { Seq::empty() };
    lemma_concat_add(pre + seq![m], post);
    lemma_concat_add(pre, seq![m]);
    assert(seq![m].drop_last() =~= Seq::<SpanV>::empty());
    if a > 0 {
        assert(seq![part(v, 0, a)].drop_last() =~= Seq::<SpanV>::empty());
    }
    if b < v.text.len() {
        assert(seq![part(v, b, v.text.len() as int)].drop_last() =~= Seq::<SpanV>::empty());
    }
    if a > 0 {
        lemma_concat_single(part(v, 0, a));
        assert(v.text.subrange(0, a) =~= v.text.take(a));
    } else {
        assert(v.text.take(0) =~= Seq::<char>::empty());
    }
    if b < v.text.len() {
        lemma_concat_single(part(v, b, v.text.len() as int));
        assert(v.text.subrange(b, v.text.len() as int) =~= v.text.skip(b));
    } else {
        assert(v.text.skip(b) =~= Seq::<char>::empty());
    }
    assert(concat_text(pre) =~= v.text.take(a));
    assert(concat_text(post) =~= v.text.skip(b));
}

/// Highlighting the line the search jumped to keeps its text.
pub proof fn lemma_grep_keeps_text(s: Seq<SpanV>)
    ensures
        concat_text(s.map_values(|v: SpanV| with_layer(v, Layer::GrepLine))) == concat_text(s),
    decreases s.len(),
{
    if s.len() > 0 {
        assert(s.map_values(|v: SpanV| with_layer(v, Layer::GrepLine)).drop_last()
            =~= s.drop_last().map_values(|v: SpanV| with_layer(v, Layer::GrepLine)));
        lemma_grep_keeps_text(s.drop_last());
    }
}

proof fn lemma_pieces_text(v: SpanV, cur: int, lo: int, st: Seq<int>, q: int)
    requires
        0 <= lo <= v.text.len(),
    ensures
        concat_text(span_pieces(v, cur, lo, st, q)) == v.text.skip(lo),
    decreases v.text.len() - lo,
{
    let n = v.text.len() as int;
    if lo >= n {
        assert(v.text.skip(lo) =~= Seq::<char>::empty());
    } else {
        lemma_boundary_after_ahead(st, q, cur + lo);
        match boundary_after(st, q, cur + lo) {
            None => {
                assert(seq![part(v, lo, n)].drop_last() =~= Seq::<SpanV>::empty());
                lemma_concat_single(part(v, lo, n));
            },
            Some((b, hit)) => {
                let hi = if b - cur < n { b - cur } else { n };
                let p = part(v, lo, hi);
                let x = if hit { with_layer(p, Layer::SearchMatch) } else { p };
                lemma_pieces_text(v, cur, hi, st, q);
                lemma_concat_add(seq![x], span_pieces(v, cur, hi, st, q));
                assert(seq![x].drop_last() =~= Seq::<SpanV>::empty());
                lemma_concat_single(x);
                assert(v.text.subrange(lo, hi) + v.text.skip(hi) =~= v.text.skip(lo));
            },
        }
    }
}

proof fn lemma_highlighted_text(spans: Seq<SpanV>, cur: int, st: Seq<int>, q: int)
    ensures
        concat_text(highlighted(spans, cur, st, q)) == concat_text(spans),
    decreases spans.len(),
{
    if spans.len() > 0 {
        lemma_highlighted_text(spans.drop_first(), cur + spans[0].text.len(), st, q);
        lemma_pieces_text(spans[0], cur, 0, st, q);
        lemma_concat_add(span_pieces(spans[0], cur, 0, st, q), highlighted(spans.drop_first(), cur + spans[0].text.len(), st, q));
        lemma_concat_first(spans);
        assert(spans[0].text.skip(0) =~= spans[0].text);
    }
}

/// Highlighting the matches of a search keeps the line's text.
pub proof fn lemma_search_keeps_text(spans: Seq<SpanV>, q: Seq<char>)
    ensures
        concat_text(search_highlighted(spans, q)) == concat_text(spans),
{
    let starts = match_starts(concat_text(spans), q, 0);
    if !(q.len() == 0 || starts.len() == 0) {
        lemma_highlighted_text(spans, 0, starts, q.len() as int);
    }
}

proof fn lemma_char_selected_text(spans: Seq<SpanV>, cur: int, hs: int, he: int)
    ensures
        concat_text(char_selected(spans, cur, hs, he)) == concat_text(spans),
    decreases spans.len(),
{
    if spans.len() > 0 {
        let s = spans[0];
        let n = s.text.len() as int;
        let is = if cur > hs { cur } else { hs };
        let ie = if cur + n < he { cur + n } else { he };
        let head: Seq<SpanV> = if is < ie {
            around(s, is - cur, ie - cur, with_layer(part(s, is - cur, ie - cur), Layer::Selection))
        } else {
            seq![s]
        };
        lemma_char_selected_text(spans.drop_first(), cur + n, hs, he);
        lemma_concat_add(head, char_selected(spans.drop_first(), cur + n, hs, he));
        lemma_concat_first(spans);
        if is < ie {
            lemma_around_text(s, is - cur, ie - cur, with_layer(part(s, is - cur, ie - cur), Layer::Selection));
            assert(s.text.take(is - cur) + s.text.subrange(is - cur, ie - cur) + s.text.skip(ie - cur) =~= s.text);
        } else {
            assert(seq![s].drop_last() =~= Seq::<SpanV>::empty());
            lemma_concat_single(s);
        }
    }
}

proof fn lemma_line_selected_text(spans: Seq<SpanV>, cur: int, nw: int)
    ensures
        concat_text(line_selected(spans, cur, nw)) == concat_text(spans),
    decreases spans.len(),
{
    if spans.len() > 0 {
        let s = spans[0];
        let x = if cur < nw { s } else { with_layer(s, Layer::Selection) };
        lemma_line_selected_text(spans.drop_first(), cur + s.text.len(), nw);
        lemma_concat_add(seq![x], line_selected(spans.drop_first(), cur + s.text.len(), nw));
        lemma_concat_first(spans);
        assert(seq![x].drop_last() =~= Seq::<SpanV>::empty());
        lemma_concat_single(x);
    }
}

/// Drawing a selection, in either visual mode, keeps the line's text.
pub proof fn lemma_selection_keeps_text(spans: Seq<SpanV>, nw: int, hs: int, he: int)
    ensures
        concat_text(line_selected(spans, 0, nw)) == concat_text(spans),
        concat_text(char_selected(spans, 0, hs, he)) == concat_text(spans),
{
    lemma_line_selected_text(spans, 0, nw);
    lemma_char_selected_text(spans, 0, hs, he);
}

proof fn lemma_insert_cursor_text(spans: Seq<SpanV>, cur: int, pos: int, inserted: bool)
    ensures
        concat_text(with_insert_cursor(spans, cur, pos, inserted)) == (if inserted {
            concat_text(spans)
        } else if cur <= pos <= cur + concat_text(spans).len() {
            concat_text(spans).take(pos - cur) + "\u{258c}"@ + concat_text(spans).skip(pos - cur)
        } else {
            concat_text(spans) + "\u{258c}"@
        }),
    decreases spans.len(),
{
    if spans.len() == 0 {
        if !inserted {
            assert(seq![insert_bar(BaseStyle::Default, Seq::empty())].drop_last() =~= Seq::<SpanV>::empty());
            lemma_concat_single(insert_bar(BaseStyle::Default, Seq::<Layer>::empty()));
            assert(concat_text(spans) =~= Seq::<char>::empty());
            assert(Seq::<char>::empty().take(0) + "\u{258c}"@ + Seq::<char>::empty().skip(0) =~= "\u{258c}"@);
            assert(Seq::<char>::empty() + "\u{258c}"@ =~= "\u{258c}"@);
        }
    } else {
        let s = spans[0];
        let n = s.text.len() as int;
        let rest = spans.drop_first();
        lemma_concat_first(spans);
        let t = concat_text(spans);
        let rt = concat_text(rest);
        if !inserted && cur <= pos <= cur + n {
            let bar = insert_bar(s.base, s.layers);
            lemma_insert_cursor_text(rest, cur + n, pos, true);
            lemma_around_text(s, pos - cur, pos - cur, bar);
            lemma_concat_add(around(s, pos - cur, pos - cur, bar), with_insert_cursor(rest, cur + n, pos, true));
            assert(s.text.take(pos - cur) + bar.text + s.text.skip(pos - cur) + rt
                =~= t.take(pos - cur) + "\u{258c}"@ + t.skip(pos - cur));
        } else {
            lemma_insert_cursor_text(rest, cur + n, pos, inserted);
            lemma_concat_add(seq![s], with_insert_cursor(rest, cur + n, pos, inserted));
            assert(seq![s].drop_last() =~= Seq::<SpanV>::empty());
            lemma_concat_single(s);
            if !inserted && cur + n <= pos <= cur + n + rt.len() {
                assert(s.text + (rt.take(pos - cur - n) + "\u{258c}"@ + rt.skip(pos - cur - n))
                    =~= t.take(pos - cur) + "\u{258c}"@ + t.skip(pos - cur));
            } else if !inserted {
                assert(s.text + (rt + "\u{258c}"@) =~= t + "\u{258c}"@);
            }
        }
    }
}

/// The insert cursor is one char put into the text at its position (or
/// after the text when it lies beyond it).
pub proof fn lemma_insert_cursor_adds_bar(spans: Seq<SpanV>, pos: int)
    requires
        0 <= pos,
    ensures
        concat_text(with_insert_cursor(spans, 0, pos, false)) == (if pos <= concat_text(spans).len() {
            concat_text(spans).take(pos) + "\u{258c}"@ + concat_text(spans).skip(pos)
        } else {
            concat_text(spans) + "\u{258c}"@
        }),
{
    lemma_insert_cursor_text(spans, 0, pos, false);
}

proof fn lemma_normal_cursor_text(spans: Seq<SpanV>, cur: int, pos: int, applied: bool)
    ensures
        concat_text(with_normal_cursor(spans, cur, pos, applied)) == (if applied || cur <= pos < cur + concat_text(spans).len() {
            concat_text(spans)
        } else {
            concat_text(spans) + " "@
        }),
    decreases spans.len(),
{
    if spans.len() == 0 {
        if !applied {
            assert(seq![end_block()].drop_last() =~= Seq::<SpanV>::empty());
            lemma_concat_single(end_block());
            assert(Seq::<char>::empty() + " "@ =~= " "@);
        }
    } else {
        let s = spans[0];
        let n = s.text.len() as int;
        let rest = spans.drop_first();
        lemma_concat_first(spans);
        let t = concat_text(spans);
        let rt = concat_text(rest);
        if !applied && cur <= pos < cur + n {
            let k = pos - cur;
            let blk = with_layer(part(s, k, k + 1), Layer::NormalCursor);
            lemma_normal_cursor_text(rest, cur + n, pos, true);
            lemma_around_text(s, k, k + 1, blk);
            lemma_concat_add(around(s, k, k + 1, blk), with_normal_cursor(rest, cur + n, pos, true));
            assert(s.text.take(k) + blk.text + s.text.skip(k + 1) =~= s.text);
        } else {
            lemma_normal_cursor_text(rest, cur + n, pos, applied);
            lemma_concat_add(seq![s], with_normal_cursor(rest, cur + n, pos, applied));
            assert(seq![s].drop_last() =~= Seq::<SpanV>::empty());
            lemma_concat_single(s);
            if !applied && !(cur + n <= pos < cur + n + rt.len()) && !(cur <= pos < cur + t.len()) {
                assert(s.text + (rt + " "@) =~= t + " "@);
            }
        }
    }
}

/// The block cursor keeps the text, but for a space added when it lies
/// past the end of the text.
pub proof fn lemma_normal_cursor_keeps_text(spans: Seq<SpanV>, pos: int)
    requires
        0 <= pos,
    ensures
        concat_text(with_normal_cursor(spans, 0, pos, false)) == (if pos < concat_text(spans).len() {
            concat_text(spans)
        } else {
            concat_text(spans) + " "@
        }),
{
    lemma_normal_cursor_text(spans, 0, pos, false);
}

proof fn lemma_scrolled_text(spans: Seq<SpanV>, cur: int, sc: int)
    requires
        cur <= sc,
    ensures
        concat_text(scrolled(spans, cur, sc)) == (if sc - cur <= concat_text(spans).len() {
            concat_text(spans).skip(sc - cur)
        } else {
            Seq::<char>::empty()
        }),
    decreases spans.len(),
{
    if spans.len() > 0 {
        let s = spans[0];
        let n = s.text.len() as int;
        let rest = spans.drop_first();
        lemma_concat_first(spans);
        let t = concat_text(spans);
        let rt = concat_text(rest);
        if cur + n <= sc {
            lemma_scrolled_text(rest, cur + n, sc);
            if sc - cur <= t.len() {
                assert(rt.skip(sc - cur - n) =~= t.skip(sc - cur));
            }
        } else {
            let x = if cur < sc { part(s, sc - cur, n) } else { s };
            assert(s.text.subrange(sc - cur, n) =~= s.text.skip(sc - cur));
            assert(s.text.skip(0) =~= s.text);
            lemma_scrolled_text_all(rest, cur + n, sc);
            lemma_concat_add(seq![x], scrolled(rest, cur + n, sc));
            assert(seq![x].drop_last() =~= Seq::<SpanV>::empty());
            lemma_concat_single(x);
            assert(s.text.skip(sc - cur) + rt =~= t.skip(sc - cur));
        }
    } else {
        assert(Seq::<char>::empty().skip(0) =~= Seq::<char>::empty());
    }
}

/// Spans lying wholly after the scroll are all kept.
proof fn lemma_scrolled_text_all(spans: Seq<SpanV>, cur: int, sc: int)
    requires
        cur >= sc,
    ensures
        concat_text(scrolled(spans, cur, sc)) == concat_text(spans),
    decreases spans.len(),
{
    if spans.len() > 0 {
        let s = spans[0];
        let n = s.text.len() as int;
        lemma_concat_first(spans);
        lemma_scrolled_text_all(spans.drop_first(), cur + n, sc);
        if cur + n <= sc {
            assert(n == 0);
            assert(s.text =~= Seq::<char>::empty());
            assert(Seq::<char>::empty() + concat_text(spans.drop_first()) =~= concat_text(spans.drop_first()));
        } else if cur < sc {
        } else {
            lemma_concat_add(seq![s], scrolled(spans.drop_first(), cur + n, sc));
            assert(seq![s].drop_last() =~= Seq::<SpanV>::empty());
            lemma_concat_single(s);
        }
    }
}

/// Scrolling `scroll` chars to the right drops exactly the first `scroll`
/// chars of the text.
pub proof fn lemma_scroll_drops_chars(spans: Seq<SpanV>, scroll: int)
    requires
        0 <= scroll,
    ensures
        concat_text(scrolled(spans, 0, scroll)) == (if scroll <= concat_text(spans).len() {
            concat_text(spans).skip(scroll)
        } else {
            Seq::<char>::empty()
        }),
{
    lemma_scrolled_text(spans, 0, scroll);
}

/// The spans of line `line_idx` with the jump line highlighted when it is
/// the one the search jumped to (one-based).
pub open spec fn grep_step(sv: Seq<SpanV>, line_idx: int, highlight_line: Option<usize>) -> Seq<SpanV> {
    match highlight_line {
        Some(t) => if line_idx + 1 == t { sv.map_values(|v: SpanV| with_layer(v, Layer::GrepLine)) } else { sv },
        None => sv,
    }
}

/// The spans scrolled `scroll` chars to the right.
pub open spec fn scroll_step(sv: Seq<SpanV>, scroll: int) -> Seq<SpanV> {
    if scroll == 0 { sv } else { scrolled(sv, 0, scroll) }
}

/// The spans after the search's jump line and matches are drawn.
pub open spec fn searched_step(sv: Seq<SpanV>, line_idx: int, view: PreviewView) -> Seq<SpanV> {
    search_highlighted(grep_step(sv, line_idx, view.highlight_line), view.search_query@)
}

/// Line `line_idx` as drawn: the jump line, the search matches, the
/// selection and the cursor laid over it, then scrolled.
pub open spec fn transformed(sv: Seq<SpanV>, line_idx: int, view: PreviewView) -> Seq<SpanV> {
    let a = searched_step(sv, line_idx, view);
    scroll_step(cursor_step(selection_step(a, line_idx, view), line_idx, view), view.scroll_char as int)
}

/// Drawing line `line_idx` stays within `usize`: the text with one more
/// char, and the selection and cursor after the line's number.
pub open spec fn transform_fits(sv: Seq<SpanV>, line_idx: int, view: PreviewView) -> bool {
    let a = searched_step(sv, line_idx, view);
    &&& total_len(sv) + 1 <= usize::MAX
    &&& selection_fits(view, number_width(a) as int)
    &&& cursor_fits(view, number_width(selection_step(a, line_idx, view)) as int)
}

proof fn lemma_cursor_step_len(sv: Seq<SpanV>, line_idx: int, view: PreviewView)
    ensures
        total_len(cursor_step(sv, line_idx, view)) <= total_len(sv) + 1,
{
    let pos = view.cursor_char + number_width(sv);
    let t = concat_text(sv);
    lemma_total_len_text(sv);
    lemma_total_len_text(cursor_step(sv, line_idx, view));
    reveal_strlit("\u{258c}");
    reveal_strlit(" ");
    if pos <= t.len() {
        assert((t.take(pos) + "\u{258c}"@ + t.skip(pos)).len() == t.len() + 1);
    }
    if line_idx == view.cursor_line {
        if view.preview_mode == InputMode::Insert {
            lemma_insert_cursor_adds_bar(sv, pos);
        } else if view.preview_mode == InputMode::Normal {
            lemma_normal_cursor_keeps_text(sv, pos);
        }
    }
}

/// Draws line `line_idx` of the preview (see `transformed`).
pub fn transform_line(line: &mut StyledLine, line_idx: usize, view: &PreviewView)
    requires
        transform_fits(spans_v(old(line).spans@), line_idx as int, *view),
    ensures
        spans_v(final(line).spans@) == transformed(spans_v(old(line).spans@), line_idx as int, *view),
{
    let ghost sv = spans_v(line.spans@);
    apply_grep_highlight(line, line_idx, view.highlight_line);
    proof {
        lemma_total_len_text(sv);
        lemma_total_len_text(spans_v(line.spans@));
        lemma_grep_keeps_text(sv);
        assert(spans_v(line.spans@) == grep_step(sv, line_idx as int, view.highlight_line));
    }
    let ghost g = spans_v(line.spans@);
    apply_search_highlight(line, view.search_query.as_str());
    proof {
        lemma_search_keeps_text(g, view.search_query@);
        lemma_total_len_text(spans_v(line.spans@));
    }
    let ghost a = spans_v(line.spans@);
    apply_visual_selection(line, line_idx, view);
    proof {
        let nw = number_width(a) as int;
        lemma_total_len_text(a);
        lemma_total_len_text(spans_v(line.spans@));
        match selection_of(line_idx as int, *view) {
            None => {},
            Some((st, e)) => {
                let (hs, he) = selection_bounds(line_idx as int, st, e, nw);
                lemma_selection_keeps_text(a, nw, hs, he);
            },
        }
    }
    let ghost b = spans_v(line.spans@);
    apply_cursor_overlay(line, line_idx, view);
    proof {
        lemma_cursor_step_len(b, line_idx as int, *view);
    }
    apply_horizontal_scroll(line, view.scroll_char);
}

} // verus!

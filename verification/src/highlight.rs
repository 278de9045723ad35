//! Lines of highlighted source: the colors of syntax captures, and how a
//! stream of highlight events becomes numbered lines of styled spans.
use vstd::prelude::*;
use crate::buffer::trim_end_char;
use crate::chars::{chars_of, str_eq, string_from_chars};
use crate::line_render::{
    expand_tabs, line_number_label, number_label, sanitize_content, span_v, spans_v, BaseStyle, SpanV, StyledLine,
    StyledSpan,
};
use crate::log_parse::index_of_from;

verus! {

/// The color a syntax capture is drawn in.
#[derive(Debug, Clone, Copy, PartialEq, Eq, Structural)]
pub enum CaptureColor {
    Cyan,
    Red,
    LightBlue,
    Blue,
    Magenta,
    White,
    LightCyan,
    DarkGray,
    Green,
    LightRed,
    Yellow,
    GrayItalic,
    LightGreen,
    Plain,
}

/// The color of the capture named `n`.
pub open spec fn capture_color(n: Seq<char>) -> CaptureColor {
    if n == "attribute"@ {
        CaptureColor::Cyan
    } else if n == "constant"@ || n == "variable.builtin"@ || n == "number"@ {
        CaptureColor::Red
    } else if n == "function.builtin"@ {
        CaptureColor::LightBlue
    } else if n == "function"@ {
        CaptureColor::Blue
    } else if n == "keyword"@ || n == "escape"@ {
        CaptureColor::Magenta
    } else if n == "operator"@ || n == "variable"@ {
        CaptureColor::White
    } else if n == "property"@ {
        CaptureColor::LightCyan
    } else if n == "punctuation"@ || n == "punctuation.bracket"@ || n == "punctuation.delimiter"@ {
        CaptureColor::DarkGray
    } else if n == "string"@ || n == "string.special"@ {
        CaptureColor::Green
    } else if n == "tag"@ || n == "variable.parameter"@ {
        CaptureColor::LightRed
    } else if n == "type"@ || n == "type.builtin"@ || n == "constructor"@ || n == "namespace"@ {
        CaptureColor::Yellow
    } else if n == "comment"@ {
        CaptureColor::GrayItalic
    } else if n == "label"@ {
        CaptureColor::LightGreen
    } else {
        CaptureColor::Plain
    }
}

/// The color of the capture named `name` (see `capture_color`).
pub fn style_for_capture(name: &str) -> (c: CaptureColor)
    ensures
        c == capture_color(name@),
{
    if str_eq(name, "attribute") {
        CaptureColor::Cyan
    } else if str_eq(name, "constant") || str_eq(name, "variable.builtin") || str_eq(name, "number") {
        CaptureColor::Red
    } else if str_eq(name, "function.builtin") {
        CaptureColor::LightBlue
    } else if str_eq(name, "function") {
        CaptureColor::Blue
    } else if str_eq(name, "keyword") || str_eq(name, "escape") {
        CaptureColor::Magenta
    } else if str_eq(name, "operator") || str_eq(name, "variable") {
        CaptureColor::White
    } else if str_eq(name, "property") {
        CaptureColor::LightCyan
    } else if str_eq(name, "punctuation") || str_eq(name, "punctuation.bracket") || str_eq(name, "punctuation.delimiter") {
        CaptureColor::DarkGray
    } else if str_eq(name, "string") || str_eq(name, "string.special") {
        CaptureColor::Green
    } else if str_eq(name, "tag") || str_eq(name, "variable.parameter") {
        CaptureColor::LightRed
    } else if str_eq(name, "type") || str_eq(name, "type.builtin") || str_eq(name, "constructor") || str_eq(name, "namespace") {
        CaptureColor::Yellow
    } else if str_eq(name, "comment") {
        CaptureColor::GrayItalic
    } else if str_eq(name, "label") {
        CaptureColor::LightGreen
    } else {
        CaptureColor::Plain
    }
}

/// The capture names the highlighter is configured with, in order.
pub open spec fn highlight_names() -> Seq<Seq<char>> {
    seq![
        "attribute"@, "constant"@, "function.builtin"@, "function"@, "keyword"@, "operator"@, "property"@,
        "punctuation"@, "punctuation.bracket"@, "punctuation.delimiter"@, "string"@, "string.special"@, "tag"@,
        "type"@, "type.builtin"@, "variable"@, "variable.builtin"@, "variable.parameter"@, "comment"@,
        "constructor"@, "label"@, "namespace"@, "number"@, "escape"@, "embedded"@,
    ]
}

/// The name of capture `idx` (the empty name past the configured ones).
pub fn highlight_name(idx: usize) -> (r: &'static str)
    ensures
        r@ == (if idx < highlight_names().len() { highlight_names()[idx as int] } else { ""@ }),
{
    let names: [&'static str; 25] = [
        "attribute", "constant", "function.builtin", "function", "keyword", "operator", "property",
        "punctuation", "punctuation.bracket", "punctuation.delimiter", "string", "string.special", "tag",
        "type", "type.builtin", "variable", "variable.builtin", "variable.parameter", "comment",
        "constructor", "label", "namespace", "number", "escape", "embedded",
    ];
    if idx < 25 {
        proof {
            assert(names@ =~= seq![
                "attribute", "constant", "function.builtin", "function", "keyword", "operator", "property",
                "punctuation", "punctuation.bracket", "punctuation.delimiter", "string", "string.special", "tag",
                "type", "type.builtin", "variable", "variable.builtin", "variable.parameter", "comment",
                "constructor", "label", "namespace", "number", "escape", "embedded",
            ]);
        }
        names[idx]
    } else {
        ""
    }
}

/// The color of capture `idx`.
pub fn get_style(highlight_idx: usize) -> (c: CaptureColor)
    ensures
        c == capture_color(if highlight_idx < highlight_names().len() { highlight_names()[highlight_idx as int] } else { ""@ }),
{
    style_for_capture(highlight_name(highlight_idx))
}

/// A step of the highlighter's output: source text, the start of a
/// capture (by its index), the end of the innermost capture, or a failure.
pub enum HighlightEvent {
    Source(String),
    Start(usize),
    End,
    Failed,
}

/// The span holding the label of line `n`.
pub open spec fn number_span(n: nat) -> SpanV {
    SpanV { text: number_label(n), base: BaseStyle::LineNumber, layers: Seq::empty() }
}

/// What the builder has made: the finished lines, the spans of the line
/// being built, its number, and the open captures.
pub struct BuilderV {
    pub lines: Seq<Seq<SpanV>>,
    pub current: Seq<SpanV>,
    pub line_idx: nat,
    pub stack: Seq<usize>,
}

/// The style of text inside the open captures `stack`: the innermost
/// one's, or the default.
pub open spec fn style_of(stack: Seq<usize>) -> BaseStyle {
    if stack.len() > 0 { BaseStyle::Capture(stack.last()) } else { BaseStyle::Default }
}

/// A piece of one line's text is added (without trailing `\r`s, tabs
/// expanded, in the current style), unless it is empty.
pub open spec fn segment_step(st: BuilderV, seg: Seq<char>) -> BuilderV {
    let t = trim_end_char(seg, '\r');
    if t.len() == 0 {
        st
    } else {
        BuilderV {
            current: st.current.push(SpanV { text: expand_tabs(t), base: style_of(st.stack), layers: Seq::empty() }),
            ..st
        }
    }
}

/// The line being built is finished, and the next one starts with its
/// number.
pub open spec fn break_step(st: BuilderV) -> BuilderV {
    BuilderV {
        lines: st.lines.push(st.current),
        current: seq![number_span(st.line_idx + 1)],
        line_idx: st.line_idx + 1,
        stack: st.stack,
    }
}

/// `s` split at each `\n` (`str::split`).
pub open spec fn split_lines(s: Seq<char>) -> Seq<Seq<char>>
    decreases s.len(),
{
    match index_of_from(s, '\n', 0) {
        None => seq![s],
        Some(p) => {
            proof {
                crate::log_parse::lemma_index_of_bounds(s, '\n', 0);
            }
            seq![s.take(p)] + split_lines(s.skip(p + 1))
        },
    }
}

/// The parts fed in turn, a line break before each but the first (when
/// `first`).
pub open spec fn feed_parts(st: BuilderV, parts: Seq<Seq<char>>, first: bool) -> BuilderV
    decreases parts.len(),
{
    if parts.len() == 0 {
        st
    } else {
        let st1 = if first { st } else { break_step(st) };
        feed_parts(segment_step(st1, parts[0]), parts.drop_first(), false)
    }
}

/// Source text is fed: its lines are added, a break between each two.
pub open spec fn source_step(st: BuilderV, text: Seq<char>) -> BuilderV {
    feed_parts(st, split_lines(text), true)
}

/// The builder before any event: an empty first line holding its number.
pub open spec fn builder_start() -> BuilderV {
    BuilderV { lines: Seq::empty(), current: seq![number_span(1)], line_idx: 1, stack: Seq::empty() }
}

/// The builder with the open captures `stack`.
pub open spec fn with_stack(st: BuilderV, stack: Seq<usize>) -> BuilderV {
    BuilderV { stack, ..st }
}

/// The open captures once the innermost is closed (none when none is
/// open).
pub open spec fn popped(stack: Seq<usize>) -> Seq<usize> {
    if stack.len() > 0 { stack.drop_last() } else { stack }
}


proof fn lemma_index_of_at(t: Seq<char>, c: char, i: int, p: int)
    requires
        0 <= i <= p < t.len(),
        t[p] == c,
        forall|k: int| i <= k < p ==> t[k] != c,
    ensures
        index_of_from(t, c, i) == Some(p),
    decreases p - i,
{
    if i < p {
        lemma_index_of_at(t, c, i + 1, p);
    }
}

proof fn lemma_index_of_none(t: Seq<char>, c: char, i: int)
    requires
        0 <= i,
        forall|k: int| i <= k < t.len() ==> t[k] != c,
    ensures
        index_of_from(t, c, i) is None,
    decreases t.len() - i,
{
    if i < t.len() {
        lemma_index_of_none(t, c, i + 1);
    }
}

proof fn lemma_split_nonempty(s: Seq<char>)
    ensures
        split_lines(s).len() > 0,
{
    crate::log_parse::lemma_index_of_bounds(s, '\n', 0);
}

proof fn lemma_feed_break(st: BuilderV, parts: Seq<Seq<char>>)
    requires
        parts.len() > 0,
    ensures
        feed_parts(st, parts, false) == feed_parts(break_step(st), parts, true),
{
}

/// The parts joined with a `\n` between each two.
pub open spec fn joined_lines(parts: Seq<Seq<char>>) -> Seq<char>
    decreases parts.len(),
{
    if parts.len() == 0 {
        seq![]
    } else if parts.len() == 1 {
        parts[0]
    } else {
        parts[0] + seq!['\n'] + joined_lines(parts.drop_first())
    }
}

proof fn lemma_index_of_first(s: Seq<char>, c: char, i: int)
    requires
        0 <= i,
    ensures
        match index_of_from(s, c, i) {
            Some(p) => forall|k: int| i <= k < p ==> #[trigger] s[k] != c,
            None => forall|k: int| i <= k < s.len() ==> #[trigger] s[k] != c,
        },
    decreases s.len() - i,
{
    if i < s.len() && s[i] != c {
        lemma_index_of_first(s, c, i + 1);
    }
}

/// Splitting text into lines loses nothing and keeps no line break: no
/// line holds a `\n`, and joining the lines with `\n` gives the text back.
pub proof fn lemma_split_lines_round_trip(s: Seq<char>)
    ensures
        split_lines(s).len() > 0,
        joined_lines(split_lines(s)) == s,
        forall|i: int, k: int| 0 <= i < split_lines(s).len() && 0 <= k < split_lines(s)[i].len()
            ==> #[trigger] split_lines(s)[i][k] != '\n',
    decreases s.len(),
{
    crate::log_parse::lemma_index_of_bounds(s, '\n', 0);
    lemma_index_of_first(s, '\n', 0);
    match index_of_from(s, '\n', 0) {
        None => {},
        Some(p) => {
            let rest = s.skip(p + 1);
            lemma_split_lines_round_trip(rest);
            let parts = split_lines(s);
            assert(parts == seq![s.take(p)] + split_lines(rest));
            assert(parts.drop_first() == split_lines(rest));
            assert(joined_lines(parts) == s.take(p) + seq!['\n'] + joined_lines(split_lines(rest)));
            assert(s.take(p) + seq!['\n'] + rest =~= s);
            assert forall|i: int, k: int| 0 <= i < parts.len() && 0 <= k < parts[i].len() implies #[trigger] parts[i][k] != '\n' by {
                if i > 0 {
                    assert(parts[i] == split_lines(rest)[i - 1]);
                    assert(split_lines(rest)[i - 1][k] != '\n');
                } else {
                    assert(parts[0][k] == s[k]);
                }
            }
        },
    }
}

/// Feeding text to the builder finishes one line per line break: with
/// `parts` the text's lines, the number of finished lines and the current
/// line number both grow by one less than the number of parts, the lines
/// finished before are kept, and each newly started line begins with its
/// number.
pub proof fn lemma_feed_counts_lines(st: BuilderV, parts: Seq<Seq<char>>)
    requires
        parts.len() > 0,
    ensures
        ({
            let r = feed_parts(st, parts, true);
            &&& r.lines.len() == st.lines.len() + parts.len() - 1
            &&& r.line_idx == st.line_idx + parts.len() - 1
            &&& r.lines.subrange(0, st.lines.len() as int) == st.lines
            &&& r.stack == st.stack
            &&& (parts.len() > 1 ==> r.current.len() > 0 && r.current[0] == number_span(r.line_idx))
        }),
    decreases parts.len(),
{
    let st1 = segment_step(st, parts[0]);
    if parts.len() > 1 {
        let st2 = break_step(st1);
        lemma_feed_break(st1, parts.drop_first());
        lemma_feed_counts_lines(st2, parts.drop_first());
        let r = feed_parts(st, parts, true);
        assert(r == feed_parts(st2, parts.drop_first(), true));
        if parts.len() == 2 {
            let pd = parts.drop_first();
            let st3 = segment_step(st2, pd[0]);
            assert(feed_parts(st2, pd, true) == feed_parts(st3, pd.drop_first(), false));
            assert(pd.drop_first().len() == 0);
            assert(feed_parts(st3, pd.drop_first(), false) == st3);
            assert(st3.current[0] == st2.current[0]);
        }
        assert(r.lines.subrange(0, st.lines.len() as int) =~= st2.lines.subrange(0, st.lines.len() as int));
    } else {
        assert(feed_parts(st, parts, true) == feed_parts(st1, parts.drop_first(), false));
        assert(st.lines.subrange(0, st.lines.len() as int) =~= st.lines);
    }
}

/// Builds numbered lines of styled spans from highlight events.
pub struct HighlightedLineBuilder {
    pub lines: Vec<StyledLine>,
    pub current_line_spans: Vec<StyledSpan>,
    pub line_idx: usize,
    pub style_stack: Vec<usize>,
}

pub open spec fn builder_v(b: HighlightedLineBuilder) -> BuilderV {
    BuilderV {
        lines: lines_v(b.lines@),
        current: spans_v(b.current_line_spans@),
        line_idx: b.line_idx as nat,
        stack: b.style_stack@,
    }
}

/// The finished lines are not marked as the search's jump line.
pub open spec fn builder_wf(b: HighlightedLineBuilder) -> bool {
    forall|k: int| 0 <= k < b.lines@.len() ==> !(#[trigger] b.lines@[k]).grep_highlight
}

/// The number span of line `n`.
fn number_styled(n: usize) -> (r: StyledSpan)
    ensures
        span_v(r) == number_span(n as nat),
{
    StyledSpan { text: line_number_label(n), base: BaseStyle::LineNumber, layers: Vec::new() }
}

impl HighlightedLineBuilder {
    pub fn new() -> (b: Self)
        ensures
            builder_v(b) == builder_start(),
            builder_wf(b),
    {
        let mut cur: Vec<StyledSpan> = Vec::new();
        cur.push(number_styled(1));
        let b = HighlightedLineBuilder { lines: Vec::new(), current_line_spans: cur, line_idx: 1, style_stack: Vec::new() };
        proof {
            assert(builder_v(b).current =~= seq![number_span(1)]);
            assert(builder_v(b).lines =~= Seq::<Seq<SpanV>>::empty());
        }
        b
    }

    /// The style of text at this point (see `style_of`).
    pub fn current_style(&self) -> (r: BaseStyle)
        ensures
            r == style_of(self.style_stack@),
    {
        if self.style_stack.len() > 0 {
            BaseStyle::Capture(self.style_stack[self.style_stack.len() - 1])
        } else {
            BaseStyle::Default
        }
    }

    pub fn push_style(&mut self, style: usize)
        ensures
            builder_v(*final(self)) == with_stack(builder_v(*old(self)), builder_v(*old(self)).stack.push(style)),
            final(self).lines == old(self).lines,
            final(self).line_idx == old(self).line_idx,
    {
        self.style_stack.push(style);
    }

    /// Closes the innermost capture (nothing when none is open).
    pub fn pop_style(&mut self)
        ensures
            builder_v(*final(self)) == with_stack(builder_v(*old(self)), popped(builder_v(*old(self)).stack)),
            final(self).lines == old(self).lines,
            final(self).line_idx == old(self).line_idx,
    {
        if self.style_stack.len() > 0 {
            self.style_stack.pop();
        }
    }

    /// Adds a piece of one line's text (see `segment_step`).
    pub fn push_text_segment(&mut self, segment: &str)
        ensures
            builder_v(*final(self)) == segment_step(builder_v(*old(self)), segment@),
            final(self).lines == old(self).lines,
    {
        let v = chars_of(segment);
        let mut n = v.len();
        proof {
            assert(v@.take(n as int) =~= v@);
        }
        while n > 0 && v[n - 1] == '\r'
            invariant
                n <= v@.len(),
                v@ == segment@,
                trim_end_char(v@.take(n as int), '\r') == trim_end_char(segment@, '\r'),
            decreases n,
        {
            proof {
                assert(v@.take(n as int).drop_last() =~= v@.take(n - 1));
            }
            n = n - 1;
        }
        proof {
            assert(trim_end_char(v@.take(n as int), '\r') == v@.take(n as int));
            assert(v@.subrange(0, n as int) =~= v@.take(n as int));
        }
        if n == 0 {
            return;
        }
        let trimmed = string_from_chars(v.as_slice(), 0, n);
        let style = self.current_style();
        let text = sanitize_content(trimmed.as_str());
        let ghost before = builder_v(*self);
        self.current_line_spans.push(StyledSpan { text, base: style, layers: Vec::new() });
        proof {
            assert(builder_v(*self).current =~= before.current.push(SpanV { text: expand_tabs(trimmed@), base: style, layers: Seq::empty() }));
            assert(builder_v(*self).lines =~= before.lines);
        }
    }

    /// Finishes the line being built and starts the next (see
    /// `break_step`).
    pub fn push_line_break(&mut self)
        requires
            old(self).line_idx < usize::MAX,
            builder_wf(*old(self)),
        ensures
            builder_v(*final(self)) == break_step(builder_v(*old(self))),
            builder_wf(*final(self)),
    {
        let ghost before = builder_v(*self);
        let mut done: Vec<StyledSpan> = Vec::new();
        std::mem::swap(&mut done, &mut self.current_line_spans);
        self.lines.push(StyledLine { spans: done, grep_highlight: false });
        self.line_idx = self.line_idx + 1;
        let num = number_styled(self.line_idx);
        self.current_line_spans.push(num);
        proof {
            assert(builder_v(*self).lines =~= before.lines.push(before.current));
            assert(builder_v(*self).current =~= seq![number_span(before.line_idx + 1)]);
        }
    }

    /// Adds source text: its lines, a break between each two (see
    /// `source_step`).
    pub fn push_source(&mut self, text: &str)
        requires
            old(self).line_idx + text@.len() <= usize::MAX,
            builder_wf(*old(self)),
        ensures
            builder_v(*final(self)) == source_step(builder_v(*old(self)), text@),
            builder_wf(*final(self)),
            final(self).line_idx <= old(self).line_idx + text@.len(),
    {
        let ghost st0 = builder_v(*self);
        let ghost idx0 = self.line_idx;
        let v = chars_of(text);
        let mut start: usize = 0;
        let mut j: usize = 0;
        proof {
            assert(v@.skip(0) =~= v@);
        }
        while j < v.len()
            invariant
                v@ == text@,
                start <= j <= v@.len(),
                forall|k: int| start <= k < j ==> v@[k] != '\n',
                source_step(st0, text@) == feed_parts(builder_v(*self), split_lines(v@.skip(start as int)), true),
                self.line_idx <= idx0 + start,
                idx0 + text@.len() <= usize::MAX,
                builder_wf(*self),
            decreases v@.len() - j,
        {
            if v[j] == '\n' {
                let ghost rest = v@.skip(start as int);
                proof {
                    lemma_index_of_at(rest, '\n', 0, j - start);
                    assert(rest.take(j - start) =~= v@.subrange(start as int, j as int));
                    assert(rest.skip(j - start + 1) =~= v@.skip(j + 1));
                    lemma_split_nonempty(v@.skip(j + 1));
                }
                let ghost parts = split_lines(rest);
                let ghost b0 = builder_v(*self);
                proof {
                    assert(parts == seq![rest.take(j - start)] + split_lines(rest.skip(j - start + 1)));
                    assert(parts[0] == v@.subrange(start as int, j as int));
                    assert(parts.drop_first() =~= split_lines(v@.skip(j + 1)));
                }
                let seg = string_from_chars(v.as_slice(), start, j);
                self.push_text_segment(seg.as_str());
                proof {
                    assert(feed_parts(b0, parts, true) == feed_parts(builder_v(*self), split_lines(v@.skip(j + 1)), false));
                    lemma_feed_break(builder_v(*self), split_lines(v@.skip(j + 1)));
                }
                self.push_line_break();
                start = j + 1;
            }
            j = j + 1;
        }
        let ghost rest = v@.skip(start as int);
        proof {
            lemma_index_of_none(rest, '\n', 0);
            assert(rest =~= v@.subrange(start as int, v@.len() as int));
            assert(split_lines(rest) == seq![rest]);
            assert(seq![rest].drop_first() =~= Seq::<Seq<char>>::empty());
            assert(feed_parts(builder_v(*self), seq![rest], true)
                == feed_parts(segment_step(builder_v(*self), rest), Seq::<Seq<char>>::empty(), false));
        }
        let seg = string_from_chars(v.as_slice(), start, v.len());
        self.push_text_segment(seg.as_str());
    }

    /// The lines made: the finished ones and the one being built, unless it
    /// holds nothing.
    pub fn finish(self) -> (r: Vec<StyledLine>)
        requires
            builder_wf(self),
        ensures
            lines_v(r@) == finished(builder_v(self)),
            forall|k: int| 0 <= k < r@.len() ==> !(#[trigger] r@[k]).grep_highlight,
    {
        let ghost st = builder_v(self);
        let mut all = self.lines;
        if self.current_line_spans.len() > 0 {
            let ghost before = lines_v(all@);
            all.push(StyledLine { spans: self.current_line_spans, grep_highlight: false });
            proof {
                assert(lines_v(all@) =~= before.push(st.current));
            }
        }
        all
    }
}

/// The spans of each line.
pub open spec fn lines_v(ls: Seq<StyledLine>) -> Seq<Seq<SpanV>> {
    ls.map_values(|l: StyledLine| spans_v(l.spans@))
}

/// The lines made once the events are over (see `finish`).
pub open spec fn finished(st: BuilderV) -> Seq<Seq<SpanV>> {
    if st.current.len() > 0 { st.lines.push(st.current) } else { st.lines }
}

/// What an event does to the builder.
pub open spec fn event_step(st: BuilderV, e: HighlightEvent) -> BuilderV {
    match e {
        HighlightEvent::Source(t) => source_step(st, t@),
        HighlightEvent::Start(h) => with_stack(st, st.stack.push(h)),
        HighlightEvent::End => with_stack(st, popped(st.stack)),
        HighlightEvent::Failed => st,
    }
}

/// The builder after the events, in order.
pub open spec fn run_events(evs: Seq<HighlightEvent>) -> BuilderV
    decreases evs.len(),
{
    if evs.len() == 0 { builder_start() } else { event_step(run_events(evs.drop_last()), evs.last()) }
}

/// The number of chars of the source text in the events.
pub open spec fn source_len(evs: Seq<HighlightEvent>) -> nat
    decreases evs.len(),
{
    if evs.len() == 0 {
        0
    } else {
        source_len(evs.drop_last()) + match evs.last() {
            HighlightEvent::Source(t) => t@.len(),
            _ => 0,
        }
    }
}

proof fn lemma_source_len_prefix(evs: Seq<HighlightEvent>, i: int)
    requires
        0 <= i <= evs.len(),
    ensures
        source_len(evs.take(i)) <= source_len(evs),
    decreases evs.len() - i,
{
    if i < evs.len() {
        lemma_source_len_prefix(evs, i + 1);
        assert(evs.take(i + 1).drop_last() =~= evs.take(i));
    } else {
        assert(evs.take(i) =~= evs);
    }
}

/// The lines, followed by lines holding only their number up to `count`
/// lines.
pub open spec fn padded_lines(lines: Seq<Seq<SpanV>>, count: nat) -> Seq<Seq<SpanV>> {
    if lines.len() >= count {
        lines
    } else {
        lines + Seq::new((count - lines.len()) as nat, |k: int| seq![number_span((lines.len() + k + 1) as nat)])
    }
}

/// The highlighted lines of a text of `line_count` lines from the
/// highlighter's events: `None` when an event reports a failure; else the
/// lines built (see `run_events`), padded with numbered empty lines to
/// `line_count`.
pub fn build_highlighted_lines(events: &[HighlightEvent], line_count: usize) -> (r: Option<Vec<StyledLine>>)
    requires
        source_len(events@) < usize::MAX,
    ensures
        r is None <==> exists|i: int| 0 <= i < events@.len() && events@[i] is Failed,
        r matches Some(ls) ==> lines_v(ls@) == padded_lines(finished(run_events(events@)), line_count as nat)
            && forall|k: int| 0 <= k < ls@.len() ==> !(#[trigger] ls@[k]).grep_highlight,
{
    let mut builder = HighlightedLineBuilder::new();
    let mut i: usize = 0;
    proof {
        assert(events@.take(0) =~= Seq::<HighlightEvent>::empty());
    }
    while i < events.len()
        invariant
            i <= events@.len(),
            builder_v(builder) == run_events(events@.take(i as int)),
            builder.line_idx <= 1 + source_len(events@.take(i as int)),
            builder_wf(builder),
            source_len(events@) < usize::MAX,
            forall|k: int| 0 <= k < i ==> !(events@[k] is Failed),
        decreases events@.len() - i,
    {
        proof {
            lemma_source_len_prefix(events@, i + 1);
            assert(events@.take(i + 1).drop_last() =~= events@.take(i as int));
            assert(events@.take(i + 1).last() == events@[i as int]);
        }
        match &events[i] {
            HighlightEvent::Source(t) => builder.push_source(t.as_str()),
            HighlightEvent::Start(h) => builder.push_style(*h),
            HighlightEvent::End => builder.pop_style(),
            HighlightEvent::Failed => return None,
        }
        i = i + 1;
    }
    proof {
        assert(events@.take(events@.len() as int) =~= events@);
    }
    let mut lines = builder.finish();
    let ghost made = lines_v(lines@);
    proof {
        assert(Seq::new(0nat, |k: int| seq![number_span((made.len() + k + 1) as nat)]) =~= Seq::<Seq<SpanV>>::empty());
        assert(made + Seq::<Seq<SpanV>>::empty() =~= made);
    }
    while lines.len() < line_count
        invariant
            made.len() <= lines@.len(),
            made.len() < line_count ==> lines@.len() <= line_count,
            made.len() >= line_count ==> lines@.len() == made.len(),
            lines_v(lines@) == made + Seq::new((lines@.len() - made.len()) as nat, |k: int| seq![number_span((made.len() + k + 1) as nat)]),
            forall|k: int| 0 <= k < lines@.len() ==> !(#[trigger] lines@[k]).grep_highlight,
        decreases line_count - lines@.len(),
    {
        let n = lines.len() + 1;
        let mut spans: Vec<StyledSpan> = Vec::new();
        spans.push(number_styled(n));
        let ghost before = lines_v(lines@);
        lines.push(StyledLine { spans, grep_highlight: false });
        proof {
            assert(spans_v(spans@) =~= seq![number_span(n as nat)]);
            assert(lines_v(lines@) =~= before.push(seq![number_span(n as nat)]));
            assert(lines_v(lines@) =~= made + Seq::new((lines@.len() - made.len()) as nat, |k: int| seq![number_span((made.len() + k + 1) as nat)]));
        }
    }
    proof {
        if made.len() >= line_count {
            assert(Seq::new(0nat, |k: int| seq![number_span((made.len() + k + 1) as nat)]) =~= Seq::<Seq<SpanV>>::empty());
            assert(lines_v(lines@) =~= made);
        }
    }
    Some(lines)
}

/// Whether some line is longer than highlighting is tried for.
pub fn has_huge_line(raw_lines: &[(usize, usize)]) -> (b: bool)
    requires
        forall|k: int| 0 <= k < raw_lines@.len() ==> raw_lines@[k].0 <= raw_lines@[k].1,
    ensures
        b == exists|k: int| 0 <= k < raw_lines@.len() && raw_lines@[k].1 - raw_lines@[k].0 > MAX_LINE_BYTES_FOR_HIGHLIGHTING,
{
    let mut i: usize = 0;
    while i < raw_lines.len()
        invariant
            i <= raw_lines@.len(),
            forall|k: int| 0 <= k < raw_lines@.len() ==> raw_lines@[k].0 <= raw_lines@[k].1,
            forall|k: int| 0 <= k < i ==> raw_lines@[k].1 - raw_lines@[k].0 <= MAX_LINE_BYTES_FOR_HIGHLIGHTING,
        decreases raw_lines@.len() - i,
    {
        let (s, e) = raw_lines[i];
        if e - s > MAX_LINE_BYTES_FOR_HIGHLIGHTING {
            return true;
        }
        i = i + 1;
    }
    false
}

/// Lines longer than this many bytes are shown plain.
pub const MAX_LINE_BYTES_FOR_HIGHLIGHTING: usize = 8000;

/// A highlighted piece of a line: without its line ending, tabs
/// expanded, in its color; nothing when empty.
pub open spec fn colored_piece(color: (u8, u8, u8), text: Seq<char>) -> Seq<SpanV> {
    let t = crate::buffer::trim_line_end(text);
    if t.len() == 0 {
        Seq::empty()
    } else {
        seq![SpanV { text: expand_tabs(t), base: BaseStyle::Color(color.0, color.1, color.2), layers: Seq::empty() }]
    }
}

/// The pieces of a line, each in its color.
pub open spec fn colored_pieces(ranges: Seq<((u8, u8, u8), String)>) -> Seq<SpanV>
    decreases ranges.len(),
{
    if ranges.len() == 0 {
        Seq::empty()
    } else {
        colored_pieces(ranges.drop_last()) + colored_piece(ranges.last().0, ranges.last().1@)
    }
}

/// Line `line_number` highlighted by color: its number, then its pieces
/// (see `colored_piece`).
pub fn colored_line(line_number: usize, ranges: &[((u8, u8, u8), String)]) -> (r: StyledLine)
    ensures
        spans_v(r.spans@) == seq![number_span(line_number as nat)] + colored_pieces(ranges@),
        !r.grep_highlight,
{
    let mut spans: Vec<StyledSpan> = Vec::new();
    spans.push(number_styled(line_number));
    let mut i: usize = 0;
    proof {
        assert(ranges@.take(0) =~= Seq::<((u8, u8, u8), String)>::empty());
        assert(spans_v(spans@) =~= seq![number_span(line_number as nat)] + colored_pieces(ranges@.take(0)));
    }
    while i < ranges.len()
        invariant
            i <= ranges@.len(),
            spans_v(spans@) == seq![number_span(line_number as nat)] + colored_pieces(ranges@.take(i as int)),
        decreases ranges@.len() - i,
    {
        proof {
            assert(ranges@.take(i + 1).drop_last() =~= ranges@.take(i as int));
            assert(ranges@.take(i + 1).last() == ranges@[i as int]);
        }
        let (color, text) = &ranges[i];
        let ghost before = spans_v(spans@);
        let trimmed = crate::line_render::trim_line_end_str(text.as_str());
        if trimmed.as_str().unicode_len() > 0 {
            let content = sanitize_content(trimmed.as_str());
            spans.push(StyledSpan { text: content, base: BaseStyle::Color(color.0, color.1, color.2), layers: Vec::new() });
            proof {
                assert(spans_v(spans@) =~= before + colored_piece(*color, text@));
            }
        } else {
            proof {
                assert(before + colored_piece(*color, text@) =~= before);
            }
        }
        proof {
            assert(spans_v(spans@) =~= seq![number_span(line_number as nat)] + colored_pieces(ranges@.take(i + 1)));
        }
        i = i + 1;
    }
    proof {
        assert(ranges@.take(ranges@.len() as int) =~= ranges@);
    }
    StyledLine { spans, grep_highlight: false }
}

} // verus!

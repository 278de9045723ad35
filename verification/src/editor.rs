//! The state of the rich-text preview editor (document, cursor, scroll,
//! undo history) and the helpers that read it.
use vstd::prelude::*;
use crate::buffer::{spec_lines, TextBuffer, TextEdit, TextUndoFrame, lemma_lines_bounds};
use crate::chars::{
    byte_len, byte_offset, char_index_of, char_utf8_len, chars_of, is_alphanumeric, is_boundary,
    is_whitespace, is_ws, lemma_byte_offset_full, lemma_byte_offset_mono, lemma_byte_offset_step,
    spec_is_alphanumeric, str_byte_len, to_owned_string,
};

verus! {

/// Editing mode of the preview.
#[derive(Debug, Clone, Copy, PartialEq, Eq, Structural)]
pub enum InputMode {
    Normal,
    Insert,
    Visual,
    VisualLine,
    Command,
}

/// A text document shown in the preview: its buffer, and whether the
/// rendered lines are stale.
pub struct RichTextDocument {
    pub buffer: TextBuffer,
    pub dirty: bool,
}

impl RichTextDocument {
    pub fn content(&self) -> (r: &str)
        ensures
            r@ == self.buffer@,
    {
        self.buffer.as_str()
    }

    pub fn raw_lines(&self) -> (r: &[(usize, usize)])
        ensures
            crate::buffer::pairs_match(r@, self.buffer.spec_line_ranges()),
    {
        self.buffer.line_ranges()
    }

    pub fn line_count(&self) -> (n: usize)
        ensures
            n == spec_lines(self.buffer@).len(),
    {
        self.buffer.line_count()
    }

    pub fn len_bytes(&self) -> (n: usize)
        ensures
            n == byte_len(self.buffer@),
    {
        self.buffer.len_bytes()
    }

    pub fn invalidate_caches(&mut self)
        ensures
            final(self).dirty,
            final(self).buffer@ == old(self).buffer@,
    {
        self.dirty = true;
    }
}

/// Cursor, scroll, selection and undo history of the preview.
pub struct PreviewState {
    pub cursor_line: usize,
    pub cursor_char: usize,
    pub scroll: usize,
    pub scroll_char: usize,
    pub mode: InputMode,
    pub selection_start: Option<(usize, usize)>,
    pub undo_stack: Vec<TextUndoFrame>,
    pub redo_stack: Vec<TextUndoFrame>,
    pub status_message: Option<String>,
    pub search_query: String,
}

/// The preview editor: the document (when the preview shows editable text),
/// its state, and the size of the preview area.
pub struct App {
    pub content: Option<RichTextDocument>,
    pub state: PreviewState,
    pub preview_height: u16,
    pub preview_width: u16,
}

/// The text of the document, if any.
pub open spec fn text_of(app: &App) -> Option<Seq<char>> {
    match app.content {
        Some(doc) => Some(doc.buffer@),
        None => None,
    }
}

/// Number of lines of the document (0 without one).
pub open spec fn line_count_of(app: &App) -> int {
    match app.content {
        Some(doc) => spec_lines(doc.buffer@).len() as int,
        None => 0,
    }
}

/// The chars of line `i` (with its line ending), if it exists.
pub open spec fn line_of(app: &App, i: int) -> Option<Seq<char>> {
    match app.content {
        Some(doc) => if 0 <= i < spec_lines(doc.buffer@).len() {
            Some(
                doc.buffer@.subrange(spec_lines(doc.buffer@)[i].0, spec_lines(doc.buffer@)[i].1),
            )
        } else {
            None
        },
        None => None,
    }
}

/// Number of chars of line `i` (with its line ending), 0 when it does not exist.
pub open spec fn line_size(app: &App, i: int) -> int {
    match line_of(app, i) {
        Some(l) => l.len() as int,
        None => 0,
    }
}

/// `s` without its trailing run of `'\n'` and `'\r'`.
pub open spec fn trim_newlines(s: Seq<char>) -> Seq<char>
    decreases s.len(),
{
    if s.len() > 0 && (s.last() == '\n' || s.last() == '\r') {
        trim_newlines(s.drop_last())
    } else {
        s
    }
}

/// Length of line `i` without its line ending (0 when it does not exist).
pub open spec fn line_length(app: &App, i: int) -> int {
    match line_of(app, i) {
        Some(l) => trim_newlines(l).len() as int,
        None => 0,
    }
}

pub proof fn lemma_trim_newlines_len(s: Seq<char>)
    ensures
        trim_newlines(s).len() <= s.len(),
    decreases s.len(),
{
    if s.len() > 0 && (s.last() == '\n' || s.last() == '\r') {
        lemma_trim_newlines_len(s.drop_last());
    }
}

/// Line `line_idx` of the document, with its line ending.
pub fn get_line_content(app: &App, line_idx: usize) -> (r: Option<String>)
    ensures
        match line_of(app, line_idx as int) {
            Some(l) => r is Some && r->0@ == l,
            None => r is None,
        },
{
    match &app.content {
        Some(doc) => match doc.buffer.line_slice(line_idx) {
            Some(t) => Some(to_owned_string(t)),
            None => None,
        },
        None => None,
    }
}

/// Number of lines of the document.
pub fn get_line_count(app: &App) -> (n: usize)
    ensures
        n == line_count_of(app),
{
    match &app.content {
        Some(doc) => doc.buffer.line_count(),
        None => 0,
    }
}

/// Line number of char index `k` of `s` (newlines before it).
pub open spec fn pos_line(s: Seq<char>, k: int) -> int
    decreases k,
{
    if k <= 0 {
        0
    } else {
        pos_line(s, k - 1) + if s[k - 1] == '\n' {
            1int
        } else {
            0int
        }
    }
}

/// Column of char index `k` of `s` (chars since the last newline before it).
pub open spec fn pos_col(s: Seq<char>, k: int) -> int
    decreases k,
{
    if k <= 0 {
        0
    } else if s[k - 1] == '\n' {
        0
    } else {
        pos_col(s, k - 1) + 1
    }
}

/// The char index (up to and including the end) at line `line`, column
/// `c`, if there is one.
pub open spec fn index_at_pos(s: Seq<char>, line: int, c: int) -> Option<int> {
    if exists|k: int| 0 <= k <= s.len() && pos_line(s, k) == line && pos_col(s, k) == c {
        Some(choose|k: int| 0 <= k <= s.len() && pos_line(s, k) == line && pos_col(s, k) == c)
    } else {
        None
    }
}

/// Positions are distinct: no two char indices share line and column.
proof fn lemma_pos_injective(s: Seq<char>, i: int, j: int)
    requires
        0 <= i < j <= s.len(),
    ensures
        pos_line(s, i) < pos_line(s, j) || pos_col(s, i) < pos_col(s, j),
    decreases j - i,
{
    if j == i + 1 {
    } else {
        lemma_pos_injective(s, i, j - 1);
        lemma_pos_line_mono(s, i, j - 1);
    }
}

proof fn lemma_pos_line_mono(s: Seq<char>, i: int, j: int)
    requires
        0 <= i <= j <= s.len(),
    ensures
        pos_line(s, i) <= pos_line(s, j),
    decreases j - i,
{
    if i < j {
        lemma_pos_line_mono(s, i, j - 1);
    }
}

/// The byte index of line `line`, column `c` of `s`: that of the char
/// index there, or the text's byte length when there is none.
pub open spec fn byte_index_at(s: Seq<char>, line: int, c: int) -> int {
    match index_at_pos(s, line, c) {
        Some(k) => byte_offset(s, k) as int,
        None => byte_len(s) as int,
    }
}

/// The line and column of byte `b` of `s`: those of the char starting
/// there, or of the end of the text when no char starts there.
pub open spec fn line_char_at(s: Seq<char>, b: int) -> (int, int) {
    if is_boundary(s, b) {
        (pos_line(s, char_index_of(s, b)), pos_col(s, char_index_of(s, b)))
    } else {
        (pos_line(s, s.len() as int), pos_col(s, s.len() as int))
    }
}

/// Every char index of the text, the end included, is the position of
/// its own line and column.
pub proof fn lemma_positions_in_range(s: Seq<char>, k: int)
    requires
        0 <= k <= s.len(),
    ensures
        index_at_pos(s, pos_line(s, k), pos_col(s, k)) == Some(k),
{
    lemma_index_at_pos_found(s, k, pos_line(s, k), pos_col(s, k));
}

/// Going from a line and column to a byte index and back gives the same
/// line and column, for every line and column some position of the text
/// has.
pub proof fn lemma_byte_index_round_trip(s: Seq<char>, line: int, c: int)
    requires
        index_at_pos(s, line, c) is Some,
    ensures
        line_char_at(s, byte_index_at(s, line, c)) == (line, c),
{
    let k = index_at_pos(s, line, c)->0;
    crate::buffer::lemma_char_index_of(s, k);
}

/// Byte index of line `line`, column `char_idx` of `content`, counting
/// lines by newlines; the content's length when there is no such position.
pub fn get_byte_index(content: &str, line: usize, char_idx: usize) -> (r: usize)
    ensures
        r == byte_index_at(content@, line as int, char_idx as int),
{
    let v = chars_of(content);
    let ghost s = content@;
    let _ = str_byte_len(content);
    proof {
        lemma_byte_offset_full(s);
    }
    let n = v.len();
    let mut current_line: usize = 0;
    let mut current_char: usize = 0;
    let mut byte_idx: usize = 0;
    let mut k: usize = 0;
    while k < n
        invariant
            v@ == s,
            s == content@,
            n == s.len(),
            k <= n,
            current_line == pos_line(s, k as int),
            current_char == pos_col(s, k as int),
            byte_idx == byte_offset(s, k as int),
            byte_offset(s, n as int) == byte_len(s),
            byte_len(s) <= usize::MAX,
            forall|j: int|
                0 <= j < k ==> !(pos_line(s, j) == line && pos_col(s, j) == char_idx),
        decreases n - k,
    {
        if current_line == line && current_char == char_idx {
            proof {
                lemma_index_at_pos_found(s, k as int, line as int, char_idx as int);
            }
            return byte_idx;
        }
        let c = v[k];
        proof {
            lemma_byte_offset_step(s, k as int);
            lemma_byte_offset_mono(s, k + 1, n as int);
            lemma_pos_line_mono(s, 0, k as int);
            lemma_pos_col_bound(s, k as int);
        }
        if c == '\n' {
            current_line = current_line + 1;
            current_char = 0;
        } else {
            current_char = current_char + 1;
        }
        byte_idx = byte_idx + char_utf8_len(c);
        k = k + 1;
    }
    if current_line == line && current_char == char_idx {
        proof {
            lemma_index_at_pos_found(s, k as int, line as int, char_idx as int);
        }
        return byte_idx;
    }
    proof {
        assert(!exists|j: int| 0 <= j <= s.len() && pos_line(s, j) == line && pos_col(s, j) == char_idx);
    }
    byte_idx
}

proof fn lemma_pos_col_bound(s: Seq<char>, k: int)
    requires
        0 <= k <= s.len(),
    ensures
        0 <= pos_col(s, k) <= k,
        0 <= pos_line(s, k) <= k,
    decreases k,
{
    if k > 0 {
        lemma_pos_col_bound(s, k - 1);
    }
}

pub proof fn lemma_index_at_pos_found(s: Seq<char>, k: int, line: int, c: int)
    requires
        0 <= k <= s.len(),
        pos_line(s, k) == line,
        pos_col(s, k) == c,
    ensures
        index_at_pos(s, line, c) == Some(k),
{
    let j = choose|j: int| 0 <= j <= s.len() && pos_line(s, j) == line && pos_col(s, j) == c;
    if j < k {
        lemma_pos_injective(s, j, k);
    } else if j > k {
        lemma_pos_injective(s, k, j);
    }
}


/// The char index at line `line`, column `c` of `s`, or the end of the text
/// when there is no such position.
pub open spec fn pos_index(s: Seq<char>, line: int, c: int) -> int {
    match index_at_pos(s, line, c) {
        Some(k) => k,
        None => s.len() as int,
    }
}

/// `pos_index` is a char index of the text; its byte offset is what
/// `get_byte_index` computes; line 0, column 0 is index 0.
pub proof fn lemma_pos_index(s: Seq<char>, line: int, c: int)
    ensures
        0 <= pos_index(s, line, c) <= s.len(),
        byte_offset(s, pos_index(s, line, c)) == (match index_at_pos(s, line, c) {
            Some(k) => byte_offset(s, k) as int,
            None => byte_len(s) as int,
        }),
        is_boundary(s, byte_offset(s, pos_index(s, line, c)) as int),
        char_index_of(s, byte_offset(s, pos_index(s, line, c)) as int) == pos_index(s, line, c),
        byte_offset(s, pos_index(s, line, c)) <= byte_len(s),
        pos_index(s, 0, 0) == 0,
{
    lemma_byte_offset_full(s);
    let k = pos_index(s, line, c);
    crate::buffer::lemma_char_index_of(s, k);
    lemma_byte_offset_mono(s, k, s.len() as int);
    lemma_index_at_pos_found(s, 0, 0, 0);
}

/// Line and column of byte `byte_idx` of `content`: those of the char
/// starting there, or of the end when no char starts there.
pub fn get_line_char_from_byte(content: &str, byte_idx: usize) -> (r: (usize, usize))
    ensures
        (r.0 as int, r.1 as int) == line_char_at(content@, byte_idx as int),
{
    let v = chars_of(content);
    let ghost s = content@;
    let _ = str_byte_len(content);
    proof {
        lemma_byte_offset_full(s);
    }
    let n = v.len();
    let mut line: usize = 0;
    let mut char_idx: usize = 0;
    let mut current_byte: usize = 0;
    let mut k: usize = 0;
    while k < n
        invariant
            v@ == s,
            s == content@,
            n == s.len(),
            k <= n,
            line == pos_line(s, k as int),
            char_idx == pos_col(s, k as int),
            current_byte == byte_offset(s, k as int),
            byte_offset(s, n as int) == byte_len(s),
            byte_len(s) <= usize::MAX,
            forall|j: int| 0 <= j < k ==> byte_offset(s, j) != byte_idx,
        decreases n - k,
    {
        if current_byte == byte_idx {
            proof {
                crate::buffer::lemma_char_index_of(s, k as int);
            }
            return (line, char_idx);
        }
        let c = v[k];
        proof {
            lemma_byte_offset_step(s, k as int);
            lemma_byte_offset_mono(s, k + 1, n as int);
            lemma_pos_col_bound(s, k as int);
        }
        if c == '\n' {
            line = line + 1;
            char_idx = 0;
        } else {
            char_idx = char_idx + 1;
        }
        current_byte = current_byte + char_utf8_len(c);
        k = k + 1;
    }
    proof {
        if is_boundary(s, byte_idx as int) {
            let j = char_index_of(s, byte_idx as int);
            assert(j == n);
        }
    }
    (line, char_idx)
}

/// Length of line `line_idx` without its trailing newlines and carriage
/// returns (0 when it does not exist).
pub fn line_len(app: &App, line_idx: usize) -> (n: usize)
    ensures
        n == line_length(app, line_idx as int),
{
    match get_line_content(app, line_idx) {
        Some(content) => {
            let chars = chars_of(content.as_str());
            let mut len = chars.len();
            proof {
                assert(chars@.take(len as int) =~= chars@);
            }
            while len > 0 && (chars[len - 1] == '\n' || chars[len - 1] == '\r')
                invariant
                    len <= chars@.len(),
                    trim_newlines(chars@) == trim_newlines(chars@.take(len as int)),
                decreases len,
            {
                assert(chars@.take(len as int).drop_last() =~= chars@.take(len - 1));
                len = len - 1;
            }
            proof {
                assert(chars@.take(chars@.len() as int) =~= chars@);
            }
            len
        },
        None => 0,
    }
}

/// Class of a char for word motions: 2 for word chars, 0 for white space,
/// 1 for anything else.
pub open spec fn char_class(c: char) -> u8 {
    if spec_is_alphanumeric(c) || c == '_' {
        2
    } else if is_ws(c) {
        0
    } else {
        1
    }
}

pub fn char_type(c: char) -> (t: u8)
    ensures
        t == char_class(c),
{
    if is_alphanumeric(c) || c == '_' {
        2
    } else if is_whitespace(c) {
        0
    } else {
        1
    }
}


/// The char at `col` of line `line`, if there is one.
pub open spec fn char_at_pos(app: &App, line: int, col: int) -> Option<char> {
    match line_of(app, line) {
        Some(l) => if 0 <= col < l.len() {
            Some(l[col])
        } else {
            None
        },
        None => None,
    }
}

/// Class of the char at a position (0 where there is none).
pub open spec fn class_at(app: &App, line: int, col: int) -> u8 {
    match char_at_pos(app, line, col) {
        Some(c) => char_class(c),
        None => 0,
    }
}

/// The position after `(line, col)`: the next char of the line, else the
/// start of the next line (below `lc` lines).
pub open spec fn next_pos(app: &App, lc: int, line: int, col: int) -> Option<(int, int)> {
    if col + 1 < line_size(app, line) {
        Some((line, col + 1))
    } else if line + 1 < lc {
        Some((line + 1, 0))
    } else {
        None
    }
}

/// The position before `(line, col)`: the previous char of the line, else
/// the last char of the previous line.
pub open spec fn prev_pos(app: &App, line: int, col: int) -> Option<(int, int)> {
    if col > 0 {
        Some((line, col - 1))
    } else if line > 0 {
        Some((line - 1, if line_size(app, line - 1) > 0 { line_size(app, line - 1) - 1 } else { 0 }))
    } else {
        None
    }
}

/// A walker over the positions of the document.
pub struct DocIter {
    pub line: usize,
    pub col: usize,
    /// Number of lines the walker may visit.
    pub line_count: usize,
}

impl DocIter {
    pub open spec fn line_total(&self) -> usize {
        self.line_count
    }

    pub fn new(app: &App, line: usize, col: usize) -> (it: Self)
        ensures
            it.line == line,
            it.col == col,
            it.line_total() == line_count_of(app),
    {
        Self { line, col, line_count: get_line_count(app) }
    }

    pub fn from_cursor(app: &App) -> (it: Self)
        ensures
            it.line == app.state.cursor_line,
            it.col == app.state.cursor_char,
            it.line_total() == line_count_of(app),
    {
        Self::new(app, app.state.cursor_line, app.state.cursor_char)
    }

    pub fn char_at(&self, app: &App) -> (r: Option<char>)
        ensures
            r == char_at_pos(app, self.line as int, self.col as int),
    {
        match get_line_content(app, self.line) {
            Some(s) => {
                let v = chars_of(s.as_str());
                if self.col < v.len() {
                    Some(v[self.col])
                } else {
                    None
                }
            },
            None => None,
        }
    }

    pub fn char_type_at(&self, app: &App) -> (t: u8)
        ensures
            t == class_at(app, self.line as int, self.col as int),
    {
        match self.char_at(app) {
            Some(c) => char_type(c),
            None => 0,
        }
    }

    /// Moves to the next position; false (and no move) at the end.
    pub fn advance(&mut self, app: &App) -> (moved: bool)
        ensures
            final(self).line_total() == old(self).line_total(),
            match next_pos(app, old(self).line_total() as int, old(self).line as int, old(self).col as int) {
                Some(p) => moved && final(self).line == p.0 && final(self).col == p.1,
                None => !moved && final(self).line == old(self).line && final(self).col == old(self).col,
            },
    {
        let len = match get_line_content(app, self.line) {
            Some(s) => s.as_str().unicode_len(),
            None => 0,
        };
        if self.col < usize::MAX && self.col + 1 < len {
            self.col = self.col + 1;
            true
        } else if self.line < usize::MAX && self.line + 1 < self.line_count {
            self.line = self.line + 1;
            self.col = 0;
            true
        } else {
            false
        }
    }

    /// Moves to the previous position; false (and no move) at the start.
    pub fn retreat(&mut self, app: &App) -> (moved: bool)
        ensures
            final(self).line_total() == old(self).line_total(),
            match prev_pos(app, old(self).line as int, old(self).col as int) {
                Some(p) => moved && final(self).line == p.0 && final(self).col == p.1,
                None => !moved && final(self).line == old(self).line && final(self).col == old(self).col,
            },
    {
        if self.col > 0 {
            self.col = self.col - 1;
            true
        } else if self.line > 0 {
            self.line = self.line - 1;
            let len = match get_line_content(app, self.line) {
                Some(s) => s.as_str().unicode_len(),
                None => 0,
            };
            self.col = if len > 0 { len - 1 } else { 0 };
            true
        } else {
            false
        }
    }

    /// Puts the cursor at the walker's position.
    pub fn apply(&self, app: &mut App)
        ensures
            final(app).state.cursor_line == self.line,
            final(app).state.cursor_char == self.col,
            same_but_cursor(old(app), final(app)),
    {
        app.state.cursor_line = self.line;
        app.state.cursor_char = self.col;
    }
}

/// Length of line `i` of `s` without its trailing newlines and carriage
/// returns (0 when there is no such line).
pub open spec fn line_len_in(s: Seq<char>, i: int) -> int {
    if 0 <= i < spec_lines(s).len() {
        trim_newlines(s.subrange(spec_lines(s)[i].0, spec_lines(s)[i].1)).len() as int
    } else {
        0
    }
}

/// The position `(line, col)` clamped to the text `s`: line within the
/// lines, column within the line (up to its end in insert mode, up to its
/// last char otherwise).
pub open spec fn clamp_in(s: Seq<char>, mode: InputMode, line: usize, col: usize) -> (usize, usize) {
    let lc = spec_lines(s).len();
    let l = if line >= lc { (lc - 1) as usize } else { line };
    let len = line_len_in(s, l as int);
    let c = if len == 0 {
        0
    } else if mode == InputMode::Insert {
        if col > len { len as usize } else { col }
    } else if col >= len {
        (len - 1) as usize
    } else {
        col
    };
    (l, c)
}

/// The cursor after clamping it to the document ((0, 0) without one).
pub open spec fn clamped_cursor(app: &App) -> (usize, usize) {
    match text_of(app) {
        Some(s) => clamp_in(s, app.state.mode, app.state.cursor_line, app.state.cursor_char),
        None => (0, 0),
    }
}

/// Everything but the cursor is unchanged from `a` to `b`.
pub open spec fn same_but_cursor(a: &App, b: &App) -> bool {
    &&& b.content == a.content
    &&& b.preview_height == a.preview_height
    &&& b.preview_width == a.preview_width
    &&& b.state.mode == a.state.mode
    &&& b.state.scroll == a.state.scroll
    &&& b.state.scroll_char == a.state.scroll_char
    &&& b.state.selection_start == a.state.selection_start
    &&& b.state.undo_stack@ == a.state.undo_stack@
    &&& b.state.redo_stack@ == a.state.redo_stack@
    &&& b.state.status_message == a.state.status_message
    &&& b.state.search_query == a.state.search_query
}

/// The settings of the preview (everything but document, cursor, history
/// and status) are the same in `a` and `b`.
pub open spec fn same_view(a: &App, b: &App) -> bool {
    &&& b.preview_height == a.preview_height
    &&& b.preview_width == a.preview_width
    &&& b.state.mode == a.state.mode
    &&& b.state.scroll == a.state.scroll
    &&& b.state.scroll_char == a.state.scroll_char
    &&& b.state.selection_start == a.state.selection_start
    &&& b.state.search_query == a.state.search_query
}

/// Clamps the cursor to the document.
pub fn ensure_cursor_in_bounds(app: &mut App)
    ensures
        (final(app).state.cursor_line, final(app).state.cursor_char) == clamped_cursor(old(app)),
        same_but_cursor(old(app), final(app)),
{
    proof {
        if app.content is Some {
            lemma_lines_bounds(app.content->0.buffer@);
        }
    }
    let line_count = get_line_count(app);
    if line_count == 0 {
        app.state.cursor_line = 0;
        app.state.cursor_char = 0;
        return;
    }
    if app.state.cursor_line >= line_count {
        app.state.cursor_line = line_count - 1;
    }
    let len = line_len(app, app.state.cursor_line);
    if len == 0 {
        app.state.cursor_char = 0;
    } else if app.state.mode == InputMode::Insert {
        if app.state.cursor_char > len {
            app.state.cursor_char = len;
        }
    } else if app.state.cursor_char >= len {
        app.state.cursor_char = len - 1;
    }
}

/// Height of the preview's text area (at least 1).
pub open spec fn viewport_height(app: &App) -> int {
    if app.preview_height > 2 { app.preview_height - 2 } else { 1 }
}

/// Width of the preview's text area (at least 1).
pub open spec fn viewport_width(app: &App) -> int {
    if app.preview_width > 2 { app.preview_width - 2 } else { 1 }
}

/// `a - b`, or 0 when `b` is larger.
pub open spec fn sat_sub(a: int, b: int) -> int {
    if a >= b { a - b } else { 0 }
}

/// The scroll offsets `(line, column)` after scrolling so that position
/// `(line, ch)` is visible, vertically and horizontally (the line numbers
/// take 5 columns), from the offsets of `app`.
pub open spec fn scroll_for(app: &App, line: int, ch: int) -> (int, int) {
    let vh = viewport_height(app);
    let scroll = if line < app.state.scroll {
        line
    } else if line >= app.state.scroll + vh {
        sat_sub(line + 1, vh)
    } else {
        app.state.scroll as int
    };
    let cv = sat_sub(viewport_width(app), 5);
    let sc1 = if ch < app.state.scroll_char { ch } else { app.state.scroll_char as int };
    let scroll_char = if ch >= sc1 + cv { sat_sub(ch + 1, cv) } else { sc1 };
    (scroll, scroll_char)
}

/// The scroll offsets of `app` allow `scroll_for` without overflow.
pub open spec fn scroll_fits(app: &App) -> bool {
    &&& app.state.scroll + viewport_height(app) <= usize::MAX
    &&& app.state.scroll_char + viewport_width(app) <= usize::MAX
}

/// Everything but the cursor and the scroll offsets is unchanged from `a` to `b`.
pub open spec fn same_but_position(a: &App, b: &App) -> bool {
    &&& b.content == a.content
    &&& b.preview_height == a.preview_height
    &&& b.preview_width == a.preview_width
    &&& b.state.mode == a.state.mode
    &&& b.state.selection_start == a.state.selection_start
    &&& b.state.undo_stack@ == a.state.undo_stack@
    &&& b.state.redo_stack@ == a.state.redo_stack@
    &&& b.state.status_message == a.state.status_message
    &&& b.state.search_query == a.state.search_query
}

/// Scrolls so that the cursor is visible.
pub fn adjust_scroll(app: &mut App)
    requires
        scroll_fits(old(app)),
        old(app).state.cursor_line < usize::MAX,
        old(app).state.cursor_char < usize::MAX,
    ensures
        (final(app).state.scroll as int, final(app).state.scroll_char as int) == scroll_for(
            old(app),
            old(app).state.cursor_line as int,
            old(app).state.cursor_char as int,
        ),
        final(app).state.cursor_line == old(app).state.cursor_line,
        final(app).state.cursor_char == old(app).state.cursor_char,
        same_but_position(old(app), final(app)),
{
    let viewport_height: u16 = if app.preview_height > 2 { app.preview_height - 2 } else { 1 };
    let viewport_width: u16 = if app.preview_width > 2 { app.preview_width - 2 } else { 1 };
    let line_num_width: usize = 5;
    if app.state.cursor_line < app.state.scroll {
        app.state.scroll = app.state.cursor_line;
    } else if app.state.cursor_line >= app.state.scroll + viewport_height as usize {
        let next = app.state.cursor_line + 1;
        app.state.scroll = if next >= viewport_height as usize { next - viewport_height as usize } else { 0 };
    }
    let content_viewport: usize = if viewport_width as usize >= line_num_width {
        viewport_width as usize - line_num_width
    } else {
        0
    };
    if app.state.cursor_char < app.state.scroll_char {
        app.state.scroll_char = app.state.cursor_char;
    }
    let visible_end = app.state.scroll_char + content_viewport;
    if app.state.cursor_char >= visible_end {
        let next = app.state.cursor_char + 1;
        app.state.scroll_char = if next >= content_viewport { next - content_viewport } else { 0 };
    }
}

} // verus!

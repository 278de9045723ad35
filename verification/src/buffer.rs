//! The editable text buffer behind rich-text previews: content plus the
//! byte ranges of its lines, and the edits that change it.
use vstd::prelude::*;
use crate::chars::{push_char, to_owned_string, lemma_byte_len_single, lemma_byte_len_add, lemma_byte_len_subrange, string_from_chars, byte_len, byte_offset, char_index_of, char_len, char_utf8_len, chars_of, is_boundary, lemma_byte_offset_full, lemma_byte_offset_injective, lemma_byte_offset_mono, lemma_byte_offset_prefix, lemma_byte_offset_step, occurs_at, str_byte_len};
use std::ops::Range;

verus! {

/// Line ranges of `s`, as char index pairs: every line ends after its
/// `'\n'`, and a (possibly empty) last line follows the last newline.
pub open spec fn spec_lines(s: Seq<char>) -> Seq<(int, int)>
    decreases s.len(),
{
    if s.len() == 0 {
        seq![(0int, 0int)]
    } else {
        let prev = spec_lines(s.drop_last());
        let n = s.len() as int;
        let last = prev.len() - 1;
        let ext = prev.update(last, (prev[last].0, n));
        if s.last() == '\n' {
            ext.push((n, n))
        } else {
            ext
        }
    }
}

/// Line ranges of `s` in bytes.
pub open spec fn spec_byte_lines(s: Seq<char>) -> Seq<(int, int)> {
    spec_lines(s).map_values(|r: (int, int)| (byte_offset(s, r.0) as int, byte_offset(s, r.1) as int))
}

/// `v` holds exactly the pairs of `r`.
pub open spec fn pairs_match(v: Seq<(usize, usize)>, r: Seq<(int, int)>) -> bool {
    &&& v.len() == r.len()
    &&& forall|k: int| 0 <= k < v.len() ==> v[k].0 == r[k].0 && v[k].1 == r[k].1
}

/// Lines are well ordered and within the text.
pub proof fn lemma_lines_bounds(s: Seq<char>)
    ensures
        spec_lines(s).len() >= 1,
        spec_lines(s)[0].0 == 0,
        spec_lines(s).last().1 == s.len(),
        forall|k: int|
            0 <= k < spec_lines(s).len() ==> 0 <= #[trigger] spec_lines(s)[k].0 <= spec_lines(
                s,
            )[k].1 <= s.len(),
    decreases s.len(),
{
    if s.len() > 0 {
        lemma_lines_bounds(s.drop_last());
    }
}

/// Consecutive lines meet, every line but the last ends with its only
/// newline, and the last line holds no newline.
pub proof fn lemma_lines_shape(s: Seq<char>)
    ensures
        forall|k: int|
            0 <= k < spec_lines(s).len() - 1 ==> (#[trigger] spec_lines(s)[k]).1 == spec_lines(
                s,
            )[k + 1].0,
        forall|k: int|
            0 <= k < spec_lines(s).len() - 1 ==> (#[trigger] spec_lines(s)[k]).0 < spec_lines(
                s,
            )[k].1 && s[spec_lines(s)[k].1 - 1] == '\n',
        forall|k: int, j: int|
            0 <= k < spec_lines(s).len() && (#[trigger] spec_lines(s)[k]).0 <= j && j
                < spec_lines(s)[k].1 && (k == spec_lines(s).len() - 1 || j < spec_lines(s)[k].1
                - 1) ==> #[trigger] s[j] != '\n',
    decreases s.len(),
{
    lemma_lines_bounds(s);
    if s.len() > 0 {
        let p = s.drop_last();
        lemma_lines_shape(p);
        lemma_lines_bounds(p);
        let r = spec_lines(s);
        let q = spec_lines(p);
        assert forall|k: int, j: int|
            0 <= k < r.len() && (#[trigger] r[k]).0 <= j && j < r[k].1 && (k == r.len() - 1 || j
                < r[k].1 - 1) implies #[trigger] s[j] != '\n' by {
            if j < s.len() - 1 {
                assert(s[j] == p[j]);
                if k < q.len() - 1 {
                    assert(r[k] == q[k]);
                } else {
                    assert(k == q.len() - 1);
                }
            }
        }
    }
}

/// The number of newlines in `s`.
pub open spec fn newline_count(s: Seq<char>) -> nat
    decreases s.len(),
{
    if s.len() == 0 {
        0
    } else {
        newline_count(s.drop_last()) + (if s.last() == '\n' { 1nat } else { 0nat })
    }
}

/// There is one line more than there are newlines.
pub proof fn lemma_line_count(s: Seq<char>)
    ensures
        spec_lines(s).len() == newline_count(s) + 1,
    decreases s.len(),
{
    if s.len() > 0 {
        lemma_line_count(s.drop_last());
    }
}

/// The shape of a text's byte line ranges: they start at 0, end at the
/// text's byte length, follow one another without gap, and each range
/// covers the bytes of its line's chars, which hold exactly one newline, at
/// their end, for every line but the last, and none for the last; there
/// is one line more than there are newlines.
pub proof fn lemma_byte_lines_shape(s: Seq<char>)
    ensures
        spec_byte_lines(s).len() == newline_count(s) + 1,
        spec_byte_lines(s)[0].0 == 0,
        spec_byte_lines(s).last().1 == byte_len(s),
        forall|k: int| 0 <= k < spec_byte_lines(s).len() - 1 ==>
            (#[trigger] spec_byte_lines(s)[k]).1 == spec_byte_lines(s)[k + 1].0,
        forall|k: int| 0 <= k < spec_byte_lines(s).len() ==>
            (#[trigger] spec_byte_lines(s)[k]).0 <= spec_byte_lines(s)[k].1,
        forall|k: int| 0 <= k < spec_byte_lines(s).len() ==> {
            let (cs, ce) = spec_lines(s)[k];
            &&& 0 <= cs <= ce <= s.len()
            &&& (#[trigger] spec_byte_lines(s)[k]).0 == byte_offset(s, cs)
            &&& spec_byte_lines(s)[k].1 == byte_offset(s, ce)
        },
        forall|k: int| 0 <= k < spec_byte_lines(s).len() - 1 ==> {
            let (cs, ce) = #[trigger] spec_lines(s)[k];
            &&& cs < ce
            &&& s[ce - 1] == '\n'
            &&& forall|j: int| cs <= j < ce - 1 ==> #[trigger] s[j] != '\n'
        },
        forall|j: int| spec_lines(s).last().0 <= j < s.len() ==> #[trigger] s[j] != '\n',
{
    lemma_lines_bounds(s);
    lemma_lines_shape(s);
    lemma_line_count(s);
    lemma_byte_offset_full(s);
    let r = spec_lines(s);
    let b = spec_byte_lines(s);
    assert(s.take(0) =~= Seq::<char>::empty());
    assert forall|k: int| 0 <= k < b.len() implies (#[trigger] b[k]).0 <= b[k].1 by {
        lemma_byte_offset_mono(s, r[k].0, r[k].1);
    }
    assert forall|k: int| 0 <= k < b.len() - 1 implies {
        let (cs, ce) = #[trigger] spec_lines(s)[k];
        &&& cs < ce
        &&& s[ce - 1] == '\n'
        &&& forall|j: int| cs <= j < ce - 1 ==> #[trigger] s[j] != '\n'
    } by {
        let rk = r[k];
        assert forall|j: int| rk.0 <= j < rk.1 - 1 implies #[trigger] s[j] != '\n' by {
            assert(r[k].0 <= j && j < r[k].1 && j < r[k].1 - 1);
        }
    }
    assert forall|j: int| r.last().0 <= j < s.len() implies #[trigger] s[j] != '\n' by {
        let k = r.len() - 1;
        assert(r[k].0 <= j && j < r[k].1);
    }
}

/// Chars without a newline encode to bytes without the newline byte.
proof fn lemma_no_newline_bytes(s: Seq<char>, cs: int, ce: int)
    requires
        0 <= cs <= ce <= s.len(),
        forall|m: int| cs <= m < ce ==> #[trigger] s[m] != '\n',
    ensures
        forall|j: int| byte_offset(s, cs) <= j < byte_offset(s, ce) ==> #[trigger] vstd::utf8::encode_utf8(s)[j] != 10u8,
{
    lemma_byte_offset_full(s);
    lemma_byte_offset_mono(s, ce, s.len() as int);
    assert forall|j: int| byte_offset(s, cs) <= j < byte_offset(s, ce) implies #[trigger] vstd::utf8::encode_utf8(s)[j] != 10u8 by {
        crate::chars::lemma_newline_bytes(s, j);
        if vstd::utf8::encode_utf8(s)[j] == 10u8 {
            let m = char_index_of(s, j);
            assert(0 <= m <= s.len() && byte_offset(s, m) == j) by {
                let w = choose|w: int| 0 <= w <= s.len() && byte_offset(s, w) == j;
            }
            if m < cs {
                lemma_byte_offset_mono(s, m, cs);
            } else if m >= ce {
                lemma_byte_offset_mono(s, ce, m);
            }
            assert(s[m] != '\n');
        }
    }
}

/// One byte line range but the last: it ends with the newline byte and
/// holds no other.
proof fn lemma_byte_line_newline(s: Seq<char>, k: int)
    requires
        0 <= k < spec_lines(s).len() - 1,
    ensures
        ({
            let (bs, be) = spec_byte_lines(s)[k];
            &&& bs < be
            &&& vstd::utf8::encode_utf8(s)[be - 1] == 10u8
            &&& forall|j: int| bs <= j < be - 1 ==> #[trigger] vstd::utf8::encode_utf8(s)[j] != 10u8
        }),
{
    lemma_lines_bounds(s);
    lemma_lines_shape(s);
    lemma_byte_offset_full(s);
    let (cs, ce) = spec_lines(s)[k];
    assert(cs < ce && s[ce - 1] == '\n');
    assert forall|m: int| cs <= m < ce - 1 implies #[trigger] s[m] != '\n' by {
        assert(spec_lines(s)[k].0 <= m && m < spec_lines(s)[k].1 && m < spec_lines(s)[k].1 - 1);
    }
    lemma_byte_offset_step(s, ce - 1);
    lemma_byte_offset_mono(s, ce, s.len() as int);
    lemma_byte_offset_mono(s, cs, ce - 1);
    lemma_char_index_of(s, ce - 1);
    crate::chars::lemma_newline_bytes(s, byte_offset(s, ce) - 1);
    lemma_no_newline_bytes(s, cs, ce - 1);
}

/// In the bytes of the text, each byte line range but the last ends with
/// the newline byte and holds no other; the last holds none.
pub proof fn lemma_byte_lines_newlines(s: Seq<char>)
    ensures
        forall|k: int| 0 <= k < spec_byte_lines(s).len() - 1 ==> {
            let (bs, be) = #[trigger] spec_byte_lines(s)[k];
            &&& bs < be
            &&& vstd::utf8::encode_utf8(s)[be - 1] == 10u8
            &&& forall|j: int| bs <= j < be - 1 ==> #[trigger] vstd::utf8::encode_utf8(s)[j] != 10u8
        },
        forall|j: int| spec_byte_lines(s).last().0 <= j < byte_len(s) ==> #[trigger] vstd::utf8::encode_utf8(s)[j] != 10u8,
{
    lemma_lines_bounds(s);
    assert forall|k: int| 0 <= k < spec_byte_lines(s).len() - 1 implies {
        let (bs, be) = #[trigger] spec_byte_lines(s)[k];
        &&& bs < be
        &&& vstd::utf8::encode_utf8(s)[be - 1] == 10u8
        &&& forall|j: int| bs <= j < be - 1 ==> #[trigger] vstd::utf8::encode_utf8(s)[j] != 10u8
    } by {
        lemma_byte_line_newline(s, k);
    }
    let last = spec_lines(s).len() - 1;
    lemma_lines_shape(s);
    assert forall|m: int| spec_lines(s)[last].0 <= m < s.len() implies #[trigger] s[m] != '\n' by {
        assert(spec_lines(s)[last].0 <= m && m < spec_lines(s)[last].1);
    }
    lemma_no_newline_bytes(s, spec_lines(s)[last].0, s.len() as int);
    lemma_byte_offset_full(s);
}

/// The chars in `s` from `r.0` to `r.1`.
pub open spec fn line_text(s: Seq<char>, r: (int, int)) -> Seq<char> {
    s.subrange(r.0, r.1)
}

/// `s` without the trailing run of `c`.
pub open spec fn trim_end_char(s: Seq<char>, c: char) -> Seq<char>
    decreases s.len(),
{
    if s.len() > 0 && s.last() == c {
        trim_end_char(s.drop_last(), c)
    } else {
        s
    }
}

/// A line without its trailing `'\n'`s and then its trailing `'\r'`s.
pub open spec fn trim_line_end(s: Seq<char>) -> Seq<char> {
    trim_end_char(trim_end_char(s, '\n'), '\r')
}

pub proof fn lemma_trim_end_char_prefix(s: Seq<char>, c: char)
    ensures
        trim_end_char(s, c).len() <= s.len(),
        trim_end_char(s, c) =~= s.take(trim_end_char(s, c).len() as int),
    decreases s.len(),
{
    if s.len() > 0 && s.last() == c {
        lemma_trim_end_char_prefix(s.drop_last(), c);
    }
}

/// The kind of a text edit.
#[derive(Debug, Clone, Copy, PartialEq, Eq)]
pub enum TextEditKind {
    Insert,
    Delete,
}

/// An insertion or deletion of `text` at byte position `byte_idx`.
#[derive(Debug, Clone, PartialEq, Eq)]
pub struct TextEdit {
    pub kind: TextEditKind,
    pub byte_idx: usize,
    pub text: String,
}

impl TextEdit {
    pub fn insert(byte_idx: usize, text: String) -> (e: Self)
        ensures
            e.kind == TextEditKind::Insert,
            e.byte_idx == byte_idx,
            e.text@ == text@,
    {
        Self { kind: TextEditKind::Insert, byte_idx, text }
    }

    pub fn delete(byte_idx: usize, text: String) -> (e: Self)
        ensures
            e.kind == TextEditKind::Delete,
            e.byte_idx == byte_idx,
            e.text@ == text@,
    {
        Self { kind: TextEditKind::Delete, byte_idx, text }
    }
}

/// The edit that reverses `e`.
pub open spec fn inverse_kind(k: TextEditKind) -> TextEditKind {
    match k {
        TextEditKind::Insert => TextEditKind::Delete,
        TextEditKind::Delete => TextEditKind::Insert,
    }
}

/// The content after inserting `t` at byte `b` of `s`, if `b` is a char boundary.
pub open spec fn spec_insert(s: Seq<char>, b: int, t: Seq<char>) -> Option<Seq<char>> {
    if is_boundary(s, b) {
        let k = char_index_of(s, b);
        Some(s.take(k) + t + s.skip(k))
    } else {
        None
    }
}

/// The content after deleting `t` at byte `b` of `s`, if `t` stands there.
pub open spec fn spec_delete_text(s: Seq<char>, b: int, t: Seq<char>) -> Option<Seq<char>> {
    if is_boundary(s, b) && occurs_at(s, t, char_index_of(s, b)) {
        let k = char_index_of(s, b);
        Some(s.take(k) + s.skip(k + t.len()))
    } else {
        None
    }
}

/// The content after applying an edit of the given kind, if it applies.
pub open spec fn spec_apply(s: Seq<char>, kind: TextEditKind, b: int, t: Seq<char>) -> Option<
    Seq<char>,
> {
    match kind {
        TextEditKind::Insert => spec_insert(s, b, t),
        TextEditKind::Delete => spec_delete_text(s, b, t),
    }
}

/// Removing `[a, e)` (bytes) from `s`: the new content and the removed chars.
pub open spec fn spec_delete_range(s: Seq<char>, a: int, e: int) -> Option<(Seq<char>, Seq<char>)> {
    if a <= e && e <= byte_len(s) && is_boundary(s, a) && is_boundary(s, e) {
        let i = char_index_of(s, a);
        let j = char_index_of(s, e);
        Some((s.take(i) + s.skip(j), s.subrange(i, j)))
    } else {
        None
    }
}

pub proof fn lemma_char_index_of(s: Seq<char>, k: int)
    requires
        0 <= k <= s.len(),
    ensures
        is_boundary(s, byte_offset(s, k) as int),
        char_index_of(s, byte_offset(s, k) as int) == k,
{
    let b = byte_offset(s, k) as int;
    assert(0 <= k <= s.len() && byte_offset(s, k) == b);
    let j = char_index_of(s, b);
    lemma_byte_offset_injective(s, j, k);
}

/// Undoing an edit restores the content: applying an edit and then its
/// inverse (same position and text, opposite kind) gives back the content it started from.
pub proof fn lemma_undo_restores(s: Seq<char>, kind: TextEditKind, b: int, t: Seq<char>)
    requires
        spec_apply(s, kind, b, t) is Some,
    ensures
        spec_apply(spec_apply(s, kind, b, t)->0, inverse_kind(kind), b, t) == Some(s),
{
    let k = char_index_of(s, b);
    lemma_byte_offset_injective(s, k, k);
    let s2 = spec_apply(s, kind, b, t)->0;
    match kind {
        TextEditKind::Insert => {
            assert(s2 == s.take(k) + t + s.skip(k));
            assert(s2 =~= s.take(k) + (t + s.skip(k)));
            lemma_byte_offset_prefix(s.take(k), t + s.skip(k), k);
            assert(s.take(k).take(k) =~= s.take(k));
            assert(s2.take(k) =~= s.take(k));
            assert(byte_offset(s2, k) == byte_offset(s, k));
            lemma_char_index_of(s2, k);
            assert(s2.subrange(k, k + t.len()) =~= t);
            assert(s2.take(k) + s2.skip(k + t.len()) =~= s);
        },
        TextEditKind::Delete => {
            assert(s2 == s.take(k) + s.skip(k + t.len()));
            assert(s2.take(k) =~= s.take(k));
            assert(byte_offset(s2, k) == byte_offset(s, k));
            lemma_char_index_of(s2, k);
            assert(s.subrange(k, k + t.len()) == t);
            assert(s2.take(k) + t + s2.skip(k) =~= s);
        },
    }
}

/// Editable text with the byte ranges of its lines.
#[derive(Debug, PartialEq, Eq)]
pub struct TextBuffer {
    content: String,
    chars: Vec<char>,
    char_ranges: Vec<(usize, usize)>,
    line_ranges: Vec<(usize, usize)>,
}

impl View for TextBuffer {
    type V = Seq<char>;

    closed spec fn view(&self) -> Seq<char> {
        self.content@
    }
}

impl TextBuffer {
    #[verifier::type_invariant]
    spec fn inv(self) -> bool {
        &&& self.chars@ == self.content@
        &&& pairs_match(self.char_ranges@, spec_lines(self.content@))
        &&& pairs_match(self.line_ranges@, spec_byte_lines(self.content@))
        &&& byte_len(self.content@) <= usize::MAX
    }

    /// Byte ranges of the lines.
    pub open spec fn spec_line_ranges(&self) -> Seq<(int, int)> {
        spec_byte_lines(self@)
    }

    /// Number of bytes of the content.
    pub open spec fn spec_len(&self) -> nat {
        byte_len(self@)
    }

    fn build(content: String, chars: Vec<char>) -> (b: Self)
        requires
            content@ == chars@,
            byte_len(chars@) <= usize::MAX,
        ensures
            b@ == content@,
    {
        let ghost s = chars@;
        let n = chars.len();
        let mut char_ranges: Vec<(usize, usize)> = Vec::new();
        let mut line_ranges: Vec<(usize, usize)> = Vec::new();
        let mut start: usize = 0;
        let mut bstart: usize = 0;
        let mut bi: usize = 0;
        let mut i: usize = 0;
        proof {
            lemma_byte_offset_full(s);
        }
        while i < n
            invariant
                s == chars@,
                n == s.len(),
                byte_len(s) <= usize::MAX,
                byte_offset(s, n as int) == byte_len(s),
                start <= i <= n,
                bi == byte_offset(s, i as int),
                bstart == byte_offset(s, start as int),
                pairs_match(char_ranges@.push((start, i)), spec_lines(s.take(i as int))),
                char_ranges@.len() == line_ranges@.len(),
                forall|k: int|
                    0 <= k < line_ranges@.len() ==> line_ranges@[k].0 == byte_offset(
                        s,
                        char_ranges@[k].0 as int,
                    ) && line_ranges@[k].1 == byte_offset(s, char_ranges@[k].1 as int),
            decreases n - i,
        {
            let c = chars[i];
            proof {
                lemma_byte_offset_step(s, i as int);
                lemma_byte_offset_mono(s, i as int + 1, n as int);
                assert(s.take(i + 1).drop_last() =~= s.take(i as int));
                lemma_lines_bounds(s.take(i as int));
            }
            bi = bi + char_utf8_len(c);
            i = i + 1;
            if c == '\n' {
                char_ranges.push((start, i));
                line_ranges.push((bstart, bi));
                start = i;
                bstart = bi;
                assert(pairs_match(char_ranges@.push((start, i)), spec_lines(s.take(i as int))));
            } else {
                assert(pairs_match(char_ranges@.push((start, i)), spec_lines(s.take(i as int))));
            }
        }
        char_ranges.push((start, n));
        line_ranges.push((bstart, bi));
        assert(s.take(n as int) =~= s);
        assert(pairs_match(line_ranges@, spec_byte_lines(s)));
        TextBuffer { content, chars, char_ranges, line_ranges }
    }

    pub fn new(content: String) -> (b: Self)
        ensures
            b@ == content@,
    {
        let chars = chars_of(content.as_str());
        let _ = str_byte_len(content.as_str());
        Self::build(content, chars)
    }

    fn from_chars(chars: Vec<char>) -> (b: Self)
        requires
            byte_len(chars@) <= usize::MAX,
        ensures
            b@ == chars@,
    {
        let content = string_from_chars(chars.as_slice(), 0, chars.len());
        assert(chars@.subrange(0, chars@.len() as int) =~= chars@);
        Self::build(content, chars)
    }

    pub fn as_str(&self) -> (r: &str)
        ensures
            r@ == self@,
    {
        self.content.as_str()
    }

    pub fn len_bytes(&self) -> (n: usize)
        ensures
            n == self.spec_len(),
    {
        str_byte_len(self.content.as_str())
    }

    pub fn line_ranges(&self) -> (r: &[(usize, usize)])
        ensures
            pairs_match(r@, self.spec_line_ranges()),
    {
        proof {
            use_type_invariant(self);
        }
        self.line_ranges.as_slice()
    }

    pub fn line_range(&self, line_idx: usize) -> (r: Option<(usize, usize)>)
        ensures
            match r {
                Some(p) => line_idx < self.spec_line_ranges().len() && p.0
                    == self.spec_line_ranges()[line_idx as int].0 && p.1
                    == self.spec_line_ranges()[line_idx as int].1,
                None => line_idx >= self.spec_line_ranges().len(),
            },
    {
        proof {
            use_type_invariant(self);
        }
        if line_idx < self.line_ranges.len() {
            Some(self.line_ranges[line_idx])
        } else {
            None
        }
    }

    /// The chars of the content.
    pub fn chars(&self) -> (r: &[char])
        ensures
            r@ == self@,
    {
        proof {
            use_type_invariant(self);
        }
        self.chars.as_slice()
    }

    /// Char index range of line `line_idx`, with its line break.
    pub fn line_char_range(&self, line_idx: usize) -> (r: Option<(usize, usize)>)
        ensures
            match r {
                Some(p) => line_idx < spec_lines(self@).len() && p.0 == spec_lines(self@)[line_idx as int].0
                    && p.1 == spec_lines(self@)[line_idx as int].1,
                None => line_idx >= spec_lines(self@).len(),
            },
    {
        proof {
            use_type_invariant(self);
        }
        if line_idx < self.char_ranges.len() {
            Some(self.char_ranges[line_idx])
        } else {
            None
        }
    }

    pub fn line_count(&self) -> (n: usize)
        ensures
            n == self.spec_line_ranges().len(),
    {
        proof {
            use_type_invariant(self);
        }
        self.line_ranges.len()
    }

    pub fn line_slice(&self, line_idx: usize) -> (r: Option<&str>)
        ensures
            match r {
                Some(t) => line_idx < spec_lines(self@).len() && t@ == line_text(
                    self@,
                    spec_lines(self@)[line_idx as int],
                ),
                None => line_idx >= spec_lines(self@).len(),
            },
    {
        proof {
            use_type_invariant(self);
            lemma_lines_bounds(self@);
        }
        if line_idx < self.char_ranges.len() {
            let (cs, ce) = self.char_ranges[line_idx];
            proof {
                assert(0 <= spec_lines(self@)[line_idx as int].0);
            }
            Some(self.content.as_str().substring_char(cs, ce))
        } else {
            None
        }
    }

    /// Byte offset of char index `k`, given a char index `from` at or before it
    /// and its byte offset.
    fn offset_from(&self, from: usize, from_byte: usize, k: usize) -> (b: usize)
        requires
            from <= k <= self@.len(),
            from_byte == byte_offset(self@, from as int),
        ensures
            b == byte_offset(self@, k as int),
    {
        proof {
            use_type_invariant(self);
            lemma_byte_offset_full(self@);
        }
        let mut j = from;
        let mut off = from_byte;
        while j < k
            invariant
                from <= j <= k <= self.chars@.len(),
                self.chars@ == self@,
                off == byte_offset(self@, j as int),
                byte_offset(self@, self@.len() as int) == byte_len(self@),
                byte_len(self@) <= usize::MAX,
            decreases k - j,
        {
            proof {
                lemma_byte_offset_step(self@, j as int);
                lemma_byte_offset_mono(self@, j + 1, self@.len() as int);
            }
            off = off + char_utf8_len(self.chars[j]);
            j = j + 1;
        }
        off
    }

    /// The char index at byte `b`, when `b` is a char boundary.
    fn char_index_at(&self, b: usize) -> (r: Option<usize>)
        ensures
            match r {
                Some(k) => is_boundary(self@, b as int) && k == char_index_of(self@, b as int)
                    && k <= self@.len(),
                None => !is_boundary(self@, b as int),
            },
    {
        proof {
            use_type_invariant(self);
            lemma_byte_offset_full(self@);
        }
        let n = self.chars.len();
        let mut k: usize = 0;
        let mut off: usize = 0;
        while k < n && off < b
            invariant
                k <= n == self.chars@.len(),
                self.chars@ == self@,
                off == byte_offset(self@, k as int),
                forall|j: int| 0 <= j < k ==> byte_offset(self@, j) < b,
                byte_offset(self@, self@.len() as int) == byte_len(self@),
                byte_len(self@) <= usize::MAX,
            decreases n - k,
        {
            proof {
                lemma_byte_offset_step(self@, k as int);
                lemma_byte_offset_mono(self@, k + 1, self@.len() as int);
            }
            off = off + char_utf8_len(self.chars[k]);
            k = k + 1;
        }
        if off == b {
            proof {
                lemma_char_index_of(self@, k as int);
            }
            Some(k)
        } else {
            proof {
                assert forall|j: int| 0 <= j <= self@.len() implies byte_offset(self@, j) != b by {
                    if j > k {
                        lemma_byte_offset_mono(self@, k as int, j);
                    } else if j == k {
                    } else {
                    }
                    if k == n && j < k {
                    }
                    if k == n && j == k {
                    }
                }
            }
            None
        }
    }

    /// Byte index of char `char_idx` of line `line` (clamped to the line's
    /// end), or the content's length when the line does not exist.
    pub fn byte_index(&self, line: usize, char_idx: usize) -> (r: usize)
        ensures
            r == spec_byte_index(self@, line as int, char_idx as int),
    {
        proof {
            use_type_invariant(self);
            lemma_lines_bounds(self@);
        }
        if line >= self.char_ranges.len() {
            return self.len_bytes();
        }
        let (cs, ce) = self.char_ranges[line];
        let (bs, be) = self.line_ranges[line];
        if char_idx <= ce - cs {
            self.offset_from(cs, bs, cs + char_idx)
        } else {
            be
        }
    }

    /// Line and char position of byte `byte_idx`: the first line whose byte
    /// range holds it (else the last line), and the number of chars from the
    /// line's start to the byte, clamped to the line.
    pub fn line_char_from_byte(&self, byte_idx: usize) -> (r: (usize, usize))
        requires
            byte_idx > self.spec_len() || is_boundary(self@, byte_idx as int),
        ensures
            r == spec_line_char_from_byte(self@, byte_idx as int),
    {
        proof {
            use_type_invariant(self);
            lemma_lines_bounds(self@);
            lemma_lines_shape(self@);
        }
        let ghost s = self@;
        let ghost lines = spec_lines(s);
        let ghost bl = spec_byte_lines(s);
        let n = self.line_ranges.len();
        let mut li: usize = 0;
        let mut found = false;
        while li < n && !found
            invariant
                n == bl.len(),
                li <= n,
                pairs_match(self.line_ranges@, bl),
                found ==> li < n && line_containing_from(bl, byte_idx as int, 0) == li,
                !found ==> line_containing_from(bl, byte_idx as int, 0) == line_containing_from(
                    bl,
                    byte_idx as int,
                    li as int,
                ),
            decreases n - li + (if found { 0int } else { 1int }),
        {
            let (st, en) = self.line_ranges[li];
            if st <= byte_idx && byte_idx <= en {
                found = true;
            } else {
                li = li + 1;
            }
        }
        if !found {
            li = n - 1;
        }
        let (cs, ce) = self.char_ranges[li];
        let (bs, be) = self.line_ranges[li];
        let clamped = if byte_idx < bs {
            bs
        } else if byte_idx > be {
            be
        } else {
            byte_idx
        };
        proof {
            assert(lines[li as int].0 <= lines[li as int].1);
            lemma_char_index_of(s, cs as int);
            lemma_char_index_of(s, ce as int);
        }
        let mut j = cs;
        let mut off = bs;
        assert(bs == byte_offset(s, cs as int) && be == byte_offset(s, ce as int));
        assert(is_boundary(s, clamped as int)) by {
            if clamped == bs {
            } else if clamped == be {
            } else {
                lemma_byte_offset_mono(s, ce as int, s.len() as int);
                lemma_byte_offset_full(s);
            }
        }
        let ghost kc = char_index_of(s, clamped as int);
        assert(cs <= kc <= ce) by {
            if kc < cs {
                lemma_byte_offset_mono(s, kc, cs as int);
            }
            if kc > ce {
                lemma_byte_offset_mono(s, ce as int, kc);
            }
        }
        while off < clamped
            invariant
                cs <= j <= kc <= ce <= s.len(),
                self.chars@ == s,
                s == self@,
                off == byte_offset(s, j as int),
                clamped == byte_offset(s, kc),
                byte_len(s) <= usize::MAX,
            decreases kc - j,
        {
            proof {
                lemma_byte_offset_step(s, j as int);
                if j == kc {
                }
                lemma_byte_offset_mono(s, j + 1, kc);
            }
            off = off + char_utf8_len(self.chars[j]);
            j = j + 1;
        }
        proof {
            if j < kc {
                lemma_byte_offset_mono(s, j as int + 1, kc);
                lemma_byte_offset_step(s, j as int);
            }
        }
        (li, j - cs)
    }

    /// Number of chars of line `line_idx` without its line ending (0 when
    /// the line does not exist).
    pub fn line_len_chars(&self, line_idx: usize) -> (n: usize)
        ensures
            n == if line_idx < spec_lines(self@).len() {
                trim_line_end(line_text(self@, spec_lines(self@)[line_idx as int])).len()
            } else {
                0
            },
    {
        proof {
            use_type_invariant(self);
            lemma_lines_bounds(self@);
        }
        if line_idx >= self.char_ranges.len() {
            return 0;
        }
        let (cs, ce) = self.char_ranges[line_idx];
        let ghost t = line_text(self@, spec_lines(self@)[line_idx as int]);
        let mut e = ce;
        while e > cs && self.chars[e - 1] == '\n'
            invariant
                cs <= e <= ce <= self.chars@.len(),
                self.chars@ == self@,
                t == self@.subrange(cs as int, ce as int),
                trim_end_char(t, '\n') == trim_end_char(self@.subrange(cs as int, e as int), '\n'),
            decreases e,
        {
            assert(self@.subrange(cs as int, e as int).drop_last() =~= self@.subrange(
                cs as int,
                e - 1,
            ));
            e = e - 1;
        }
        assert(trim_end_char(self@.subrange(cs as int, e as int), '\n') == self@.subrange(
            cs as int,
            e as int,
        ));
        let e1 = e;
        while e > cs && self.chars[e - 1] == '\r'
            invariant
                cs <= e <= e1 <= self.chars@.len(),
                self.chars@ == self@,
                trim_line_end(t) == trim_end_char(self@.subrange(cs as int, e as int), '\r'),
            decreases e,
        {
            assert(self@.subrange(cs as int, e as int).drop_last() =~= self@.subrange(
                cs as int,
                e - 1,
            ));
            e = e - 1;
        }
        e - cs
    }

    /// The char starting at byte `byte_idx`, if it is a char boundary
    /// before the end.
    pub fn char_at_byte(&self, byte_idx: usize) -> (r: Option<char>)
        ensures
            r == (if is_boundary(self@, byte_idx as int) && char_index_of(self@, byte_idx as int)
                < self@.len() {
                Some(self@[char_index_of(self@, byte_idx as int)])
            } else {
                None
            }),
    {
        proof {
            use_type_invariant(self);
        }
        match self.char_index_at(byte_idx) {
            Some(k) => {
                if k < self.chars.len() {
                    Some(self.chars[k])
                } else {
                    None
                }
            },
            None => None,
        }
    }

    /// The char ending at byte `byte_idx` and its start, if `byte_idx` is a
    /// char boundary after the start.
    pub fn char_before_byte(&self, byte_idx: usize) -> (r: Option<(usize, char)>)
        ensures
            r == (if is_boundary(self@, byte_idx as int) && char_index_of(self@, byte_idx as int)
                > 0 {
                Some(
                    (
                        byte_offset(self@, char_index_of(self@, byte_idx as int) - 1) as usize,
                        self@[char_index_of(self@, byte_idx as int) - 1],
                    ),
                )
            } else {
                None
            }),
    {
        proof {
            use_type_invariant(self);
        }
        match self.char_index_at(byte_idx) {
            Some(k) => {
                if k > 0 {
                    let start = self.offset_from(0, 0, k - 1);
                    Some((start, self.chars[k - 1]))
                } else {
                    None
                }
            },
            None => None,
        }
    }
}


impl TextBuffer {
    /// Replaces the chars `[i, j)` by `mid`.
    fn splice(&mut self, i: usize, j: usize, mid: &[char])
        requires
            i <= j <= old(self)@.len(),
            byte_len(old(self)@.take(i as int) + mid@ + old(self)@.skip(j as int)) <= usize::MAX,
        ensures
            final(self)@ == old(self)@.take(i as int) + mid@ + old(self)@.skip(j as int),
    {
        proof {
            use_type_invariant(&*self);
        }
        let mut v: Vec<char> = Vec::new();
        let mut k: usize = 0;
        while k < i
            invariant
                k <= i <= j <= self.chars@.len(),
                v@ == self.chars@.take(k as int),
            decreases i - k,
        {
            v.push(self.chars[k]);
            k = k + 1;
            assert(v@ =~= self.chars@.take(k as int));
        }
        let mut m: usize = 0;
        while m < mid.len()
            invariant
                m <= mid@.len(),
                i <= j <= self.chars@.len(),
                v@ == self.chars@.take(i as int) + mid@.take(m as int),
            decreases mid@.len() - m,
        {
            v.push(mid[m]);
            m = m + 1;
            assert(v@ =~= self.chars@.take(i as int) + mid@.take(m as int));
        }
        assert(mid@.take(mid@.len() as int) =~= mid@);
        let mut k = j;
        let n = self.chars.len();
        while k < n
            invariant
                j <= k <= n == self.chars@.len(),
                v@ == self.chars@.take(i as int) + mid@ + self.chars@.subrange(j as int, k as int),
            decreases n - k,
        {
            v.push(self.chars[k]);
            k = k + 1;
            assert(v@ =~= self.chars@.take(i as int) + mid@ + self.chars@.subrange(
                j as int,
                k as int,
            ));
        }
        assert(self.chars@.subrange(j as int, n as int) =~= self.chars@.skip(j as int));
        *self = TextBuffer::from_chars(v);
    }

    fn insert(&mut self, byte_idx: usize, text: &str) -> (ok: bool)
        requires
            byte_len(old(self)@) + byte_len(text@) <= usize::MAX,
        ensures
            ok == spec_insert(old(self)@, byte_idx as int, text@) is Some,
            final(self)@ == (if ok {
                spec_insert(old(self)@, byte_idx as int, text@)->0
            } else {
                old(self)@
            }),
    {
        match self.char_index_at(byte_idx) {
            None => false,
            Some(k) => {
                let t = chars_of(text);
                proof {
                    let s = self@;
                    assert(s =~= s.take(k as int) + s.skip(k as int));
                    lemma_byte_len_add(s.take(k as int), s.skip(k as int));
                    lemma_byte_len_add(s.take(k as int), t@);
                    lemma_byte_len_add(s.take(k as int) + t@, s.skip(k as int));
                }
                self.splice(k, k, t.as_slice());
                proof {
                    assert(self@ =~= spec_insert(old(self)@, byte_idx as int, text@)->0);
                }
                true
            },
        }
    }

    /// Inserts `c` at byte `byte_idx`; the edit made, when it is a char boundary.
    pub fn insert_char(&mut self, byte_idx: usize, c: char) -> (r: Option<TextEdit>)
        requires
            byte_len(old(self)@) + 4 <= usize::MAX,
        ensures
            r is Some == spec_insert(old(self)@, byte_idx as int, seq![c]) is Some,
            r is Some ==> r->0.kind == TextEditKind::Insert && r->0.byte_idx == byte_idx
                && r->0.text@ == seq![c],
            final(self)@ == (if r is Some {
                spec_insert(old(self)@, byte_idx as int, seq![c])->0
            } else {
                old(self)@
            }),
    {
        let mut text = String::new();
        push_char(&mut text, c);
        proof {
            assert(text@ =~= seq![c]);
            lemma_byte_len_single(c);
        }
        self.insert_text(byte_idx, text)
    }

    /// Inserts `text` at byte `byte_idx`; the edit made, when it is a char boundary.
    pub fn insert_text(&mut self, byte_idx: usize, text: String) -> (r: Option<TextEdit>)
        requires
            byte_len(old(self)@) + byte_len(text@) <= usize::MAX,
        ensures
            r is Some == spec_insert(old(self)@, byte_idx as int, text@) is Some,
            r is Some ==> r->0.kind == TextEditKind::Insert && r->0.byte_idx == byte_idx
                && r->0.text@ == text@,
            final(self)@ == (if r is Some {
                spec_insert(old(self)@, byte_idx as int, text@)->0
            } else {
                old(self)@
            }),
    {
        if !self.insert(byte_idx, text.as_str()) {
            return None;
        }
        Some(TextEdit::insert(byte_idx, text))
    }

    /// Removes the bytes `range`; the removed text, when the range is valid
    /// and on char boundaries.
    pub fn delete_range(&mut self, range: Range<usize>) -> (r: Option<String>)
        ensures
            match spec_delete_range(old(self)@, range.start as int, range.end as int) {
                Some(p) => r is Some && r->0@ == p.1 && final(self)@ == p.0,
                None => r is None && final(self)@ == old(self)@,
            },
    {
        let start = range.start;
        let end = range.end;
        let len = self.len_bytes();
        if start > end || end > len {
            return None;
        }
        let i = match self.char_index_at(start) {
            Some(i) => i,
            None => return None,
        };
        let j = match self.char_index_at(end) {
            Some(j) => j,
            None => return None,
        };
        proof {
            use_type_invariant(&*self);
            if j < i {
                lemma_byte_offset_mono(self@, j as int, i as int);
            }
        }
        let removed = string_from_chars(self.chars.as_slice(), i, j);
        let empty: Vec<char> = Vec::new();
        proof {
            let s = self@;
            assert(s =~= s.take(i as int) + s.subrange(i as int, j as int) + s.skip(j as int));
            lemma_byte_len_add(s.take(i as int), s.subrange(i as int, j as int));
            lemma_byte_len_add(s.take(i as int) + s.subrange(i as int, j as int), s.skip(j as int));
            lemma_byte_len_add(s.take(i as int), s.skip(j as int));
            assert(s.take(i as int) + empty@ =~= s.take(i as int));
        }
        self.splice(i, j, empty.as_slice());
        proof {
            assert(self@ =~= old(self)@.take(i as int) + old(self)@.skip(j as int));
        }
        Some(removed)
    }

    /// Deletes the char before byte `byte_idx`; the edit made.
    pub fn delete_char_before(&mut self, byte_idx: usize) -> (r: Option<TextEdit>)
        ensures
            ({
                let s = old(self)@;
                let k = char_index_of(s, byte_idx as int);
                if is_boundary(s, byte_idx as int) && k > 0 {
                    &&& r is Some
                    &&& r->0.kind == TextEditKind::Delete
                    &&& r->0.byte_idx == byte_offset(s, k - 1)
                    &&& r->0.text@ == seq![s[k - 1]]
                    &&& final(self)@ == s.take(k - 1) + s.skip(k)
                } else {
                    r is None && final(self)@ == s
                }
            }),
    {
        let ghost s = self@;
        let (start, c) = match self.char_before_byte(byte_idx) {
            Some(p) => p,
            None => return None,
        };
        let ghost k = char_index_of(s, byte_idx as int);
        proof {
            use_type_invariant(&*self);
            lemma_byte_offset_step(s, k - 1);
            lemma_char_index_of(s, k - 1);
            lemma_char_index_of(s, k);
            lemma_byte_offset_mono(s, k, s.len() as int);
            lemma_byte_offset_full(s);
        }
        let end = start + char_utf8_len(c);
        let deleted = match self.delete_range(start..end) {
            Some(d) => d,
            None => return None,
        };
        proof {
            assert(s.subrange(k - 1, k) =~= seq![s[k - 1]]);
        }
        Some(TextEdit::delete(start, deleted))
    }

    /// Deletes the char at byte `byte_idx`; the edit made.
    pub fn delete_char_at(&mut self, byte_idx: usize) -> (r: Option<TextEdit>)
        ensures
            ({
                let s = old(self)@;
                let k = char_index_of(s, byte_idx as int);
                if is_boundary(s, byte_idx as int) && k < s.len() {
                    &&& r is Some
                    &&& r->0.kind == TextEditKind::Delete
                    &&& r->0.byte_idx == byte_idx
                    &&& r->0.text@ == seq![s[k]]
                    &&& final(self)@ == s.take(k) + s.skip(k + 1)
                } else {
                    r is None && final(self)@ == s
                }
            }),
    {
        let ghost s = self@;
        let c = match self.char_at_byte(byte_idx) {
            Some(c) => c,
            None => return None,
        };
        let ghost k = char_index_of(s, byte_idx as int);
        proof {
            use_type_invariant(&*self);
            lemma_byte_offset_step(s, k);
            lemma_char_index_of(s, k);
            lemma_char_index_of(s, k + 1);
            lemma_byte_offset_mono(s, k + 1, s.len() as int);
            lemma_byte_offset_full(s);
        }
        let end = byte_idx + char_utf8_len(c);
        let deleted = match self.delete_range(byte_idx..end) {
            Some(d) => d,
            None => return None,
        };
        proof {
            assert(s.subrange(k, k + 1) =~= seq![s[k]]);
        }
        Some(TextEdit::delete(byte_idx, deleted))
    }

    /// Applies an edit; whether it applied (an insertion at a char boundary,
    /// or a deletion whose text stands at its position).
    pub fn apply_edit(&mut self, edit: &TextEdit) -> (ok: bool)
        requires
            edit.byte_idx + byte_len(edit.text@) <= usize::MAX,
            byte_len(old(self)@) + byte_len(edit.text@) <= usize::MAX,
        ensures
            ok == spec_apply(old(self)@, edit.kind, edit.byte_idx as int, edit.text@) is Some,
            final(self)@ == (if ok {
                spec_apply(old(self)@, edit.kind, edit.byte_idx as int, edit.text@)->0
            } else {
                old(self)@
            }),
    {
        let ghost s = self@;
        match edit.kind {
            TextEditKind::Insert => {
                let ok = self.insert(edit.byte_idx, edit.text.as_str());
                assert(spec_apply(s, edit.kind, edit.byte_idx as int, edit.text@) == spec_insert(
                    s,
                    edit.byte_idx as int,
                    edit.text@,
                ));
                ok
            },
            TextEditKind::Delete => {
                assert(spec_apply(s, edit.kind, edit.byte_idx as int, edit.text@)
                    == spec_delete_text(s, edit.byte_idx as int, edit.text@));
                let t = chars_of(edit.text.as_str());
                let tlen = str_byte_len(edit.text.as_str());
                let end = edit.byte_idx + tlen;
                let k = match self.char_index_at(edit.byte_idx) {
                    Some(k) => k,
                    None => return false,
                };
                proof {
                    use_type_invariant(&*self);
                }
                let n = self.chars.len();
                if t.len() > n - k {
                    return false;
                }
                let mut m: usize = 0;
                while m < t.len()
                    invariant
                        n == self.chars@.len(),
                        t@ == edit.text@,
                        s == old(self)@,
                        is_boundary(s, edit.byte_idx as int),
                        k == char_index_of(s, edit.byte_idx as int),
                        spec_apply(s, edit.kind, edit.byte_idx as int, edit.text@)
                            == spec_delete_text(s, edit.byte_idx as int, edit.text@),
                        k + t@.len() <= n,
                        self.chars@ == s,
                        s == self@,
                        m <= t@.len(),
                        forall|x: int| 0 <= x < m ==> s[k + x] == t@[x],
                    decreases t@.len() - m,
                {
                    if self.chars[k + m] != t[m] {
                        proof {
                            assert(s.subrange(k as int, k + t@.len())[m as int] != t@[m as int]);
                            assert(s.subrange(k as int, k + t@.len()) != t@);
                            assert(!occurs_at(s, edit.text@, k as int));
                        }
                        return false;
                    }
                    m = m + 1;
                }
                proof {
                    assert(s.subrange(k as int, k + t@.len()) =~= t@);
                    lemma_byte_len_subrange(s, k as int, k + t@.len());
                    lemma_char_index_of(s, k + t@.len());
                    lemma_byte_offset_mono(s, k + t@.len(), s.len() as int);
                    lemma_byte_offset_full(s);
                    assert(spec_delete_range(s, edit.byte_idx as int, end as int) is Some);
                }
                let r = self.delete_range(edit.byte_idx..end);
                r.is_some()
            },
        }
    }
}

/// Undo information for one edit: the edit that reverses it, the edit
/// itself, and the cursor before and after.
#[derive(Debug, PartialEq, Eq)]
pub struct TextUndoFrame {
    pub undo_edit: TextEdit,
    pub redo_edit: TextEdit,
    pub before_cursor: (usize, usize),
    pub after_cursor: (usize, usize),
}

impl TextUndoFrame {
    pub fn from_forward_edit(
        edit: TextEdit,
        before_cursor: (usize, usize),
        after_cursor: (usize, usize),
    ) -> (f: Self)
        ensures
            f.redo_edit == edit,
            f.undo_edit.kind == inverse_kind(edit.kind),
            f.undo_edit.byte_idx == edit.byte_idx,
            f.undo_edit.text@ == edit.text@,
            f.before_cursor == before_cursor,
            f.after_cursor == after_cursor,
    {
        let text = to_owned_string(edit.text.as_str());
        let inverse = match edit.kind {
            TextEditKind::Insert => TextEdit::delete(edit.byte_idx, text),
            TextEditKind::Delete => TextEdit::insert(edit.byte_idx, text),
        };
        Self { undo_edit: inverse, redo_edit: edit, before_cursor, after_cursor }
    }
}

/// A frame made from an edit that took `s` to a new text (as
/// `from_forward_edit` makes it) undoes the edit and redoes it: its undo
/// edit brings the new text back to `s`, and its redo edit takes `s` to the
/// new text again.
pub proof fn lemma_forward_frame_round_trip(s: Seq<char>, f: TextUndoFrame)
    requires
        f.undo_edit.kind == inverse_kind(f.redo_edit.kind),
        f.undo_edit.byte_idx == f.redo_edit.byte_idx,
        f.undo_edit.text@ == f.redo_edit.text@,
        spec_apply(s, f.redo_edit.kind, f.redo_edit.byte_idx as int, f.redo_edit.text@) is Some,
    ensures
        ({
            let s1 = spec_apply(s, f.redo_edit.kind, f.redo_edit.byte_idx as int, f.redo_edit.text@)->0;
            &&& spec_apply(s1, f.undo_edit.kind, f.undo_edit.byte_idx as int, f.undo_edit.text@) == Some(s)
            &&& spec_apply(s, f.redo_edit.kind, f.redo_edit.byte_idx as int, f.redo_edit.text@) == Some(s1)
        }),
{
    lemma_undo_restores(s, f.redo_edit.kind, f.redo_edit.byte_idx as int, f.redo_edit.text@);
}

/// Byte index of char `c` of line `line` in `s`, clamped to the line's end;
/// the content's length when there is no such line.
pub open spec fn spec_byte_index(s: Seq<char>, line: int, c: int) -> int {
    if 0 <= line < spec_lines(s).len() {
        let r = spec_lines(s)[line];
        if c <= r.1 - r.0 {
            byte_offset(s, r.0 + c) as int
        } else {
            byte_offset(s, r.1) as int
        }
    } else {
        byte_len(s) as int
    }
}

/// The first line at or after `k` whose byte range holds `b`, or the last line.
pub open spec fn line_containing_from(bl: Seq<(int, int)>, b: int, k: int) -> int
    decreases bl.len() - k,
{
    if k >= bl.len() {
        bl.len() - 1
    } else if bl[k].0 <= b && b <= bl[k].1 {
        k
    } else {
        line_containing_from(bl, b, k + 1)
    }
}

/// Line and char position of byte `b` in `s`.
pub open spec fn spec_line_char_from_byte(s: Seq<char>, b: int) -> (usize, usize) {
    let bl = spec_byte_lines(s);
    let li = line_containing_from(bl, b, 0);
    let clamped = if b < bl[li].0 {
        bl[li].0
    } else if b > bl[li].1 {
        bl[li].1
    } else {
        b
    };
    (li as usize, (char_index_of(s, clamped) - spec_lines(s)[li].0) as usize)
}

/// The char index that `spec_byte_index` points at.
pub open spec fn line_char_index(s: Seq<char>, line: int, c: int) -> int {
    if 0 <= line < spec_lines(s).len() {
        let r = spec_lines(s)[line];
        if c <= r.1 - r.0 {
            r.0 + c
        } else {
            r.1
        }
    } else {
        s.len() as int
    }
}

/// `spec_byte_index` is the byte offset of a char index of the text, so it
/// is a char boundary.
pub proof fn lemma_byte_index(s: Seq<char>, line: int, c: int)
    requires
        c >= 0,
    ensures
        0 <= line_char_index(s, line, c) <= s.len(),
        spec_byte_index(s, line, c) == byte_offset(s, line_char_index(s, line, c)),
        is_boundary(s, spec_byte_index(s, line, c)),
        char_index_of(s, spec_byte_index(s, line, c)) == line_char_index(s, line, c),
        spec_byte_index(s, line, c) <= byte_len(s),
{
    lemma_lines_bounds(s);
    lemma_byte_offset_full(s);
    let k = line_char_index(s, line, c);
    if 0 <= line < spec_lines(s).len() {
        let r = spec_lines(s)[line];
        assert(0 <= r.0 <= r.1 <= s.len());
    }
    lemma_char_index_of(s, k);
    lemma_byte_offset_mono(s, k, s.len() as int);
}

/// Line starts grow with the line number.
pub proof fn lemma_lines_order(s: Seq<char>, i: int, j: int)
    requires
        0 <= i <= j < spec_lines(s).len(),
    ensures
        spec_lines(s)[i].0 <= spec_lines(s)[j].0,
{
    lemma_lines_shape(s);
    lemma_lines_bounds(s);
    lemma_lines_order_from(spec_lines(s), i, j);
}

proof fn lemma_lines_order_from(r: Seq<(int, int)>, i: int, j: int)
    requires
        0 <= i <= j < r.len(),
        forall|k: int| 0 <= k < r.len() - 1 ==> (#[trigger] r[k]).1 == r[k + 1].0,
        forall|k: int| 0 <= k < r.len() ==> (#[trigger] r[k]).0 <= r[k].1,
    ensures
        r[i].0 <= r[j].0,
    decreases j - i,
{
    if i < j {
        lemma_lines_order_from(r, i, j - 1);
        assert(r[j - 1].1 == r[j].0);
        assert(r[j - 1].0 <= r[j - 1].1);
    }
}

} // verus!

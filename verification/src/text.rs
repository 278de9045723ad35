//! Text helpers for display: char-boundary slicing, replacement of
//! non-printable characters, and column lookup in grep results.
use vstd::prelude::*;
use vstd::string::*;
use vstd::utf8::{decode_utf8, encode_utf8, valid_utf8};
use crate::chars::{lemma_ceil_index, lemma_floor_index, lemma_byte_len_encode, lemma_byte_offset_step, lemma_char_len_pos, to_owned_string, push_char, push_str, 
    byte_len, byte_offset, ceil_char_index, ceil_index, chars_of, floor_char_index, floor_index,
    lemma_byte_offset_full, lemma_byte_offset_mono, str_byte_len,
};

verus! {

pub const TAB_WIDTH: usize = 4;

/// At most `max_chars` chars of `s` (whether it was cut), cutting only when
/// `s` has more than `max_chars` bytes and more than `max_chars` chars.
pub fn truncate_str_chars(s: &str, max_chars: usize) -> (r: (&str, bool))
    ensures
        r.0@ == (if byte_len(s@) > max_chars && max_chars < s@.len() {
            s@.take(max_chars as int)
        } else {
            s@
        }),
        r.1 == (byte_len(s@) > max_chars && max_chars < s@.len()),
{
    if str_byte_len(s) <= max_chars {
        return (s, false);
    }
    let n = s.unicode_len();
    if max_chars < n {
        (s.substring_char(0, max_chars), true)
    } else {
        (s, false)
    }
}

/// The first char boundary at or after `start` (the length when `start` is
/// at or past the end).
pub fn next_char_boundary(s: &str, start: usize) -> (r: usize)
    ensures
        r == (if start >= byte_len(s@) {
            byte_len(s@) as int
        } else {
            byte_offset(s@, ceil_index(s@, start as int)) as int
        }),
{
    let len = str_byte_len(s);
    if start >= len {
        return len;
    }
    let v = chars_of(s);
    let k = ceil_char_index(v.as_slice(), start);
    crate::chars::byte_offset_of(v.as_slice(), k)
}

/// The last char boundary at or before `start` (the length when `start` is
/// past the end).
pub fn prev_char_boundary(s: &str, start: usize) -> (r: usize)
    ensures
        r == byte_offset(s@, floor_index(s@, start as int)),
{
    let _ = str_byte_len(s);
    let v = chars_of(s);
    let k = floor_char_index(v.as_slice(), start);
    crate::chars::byte_offset_of(v.as_slice(), k)
}

/// The chars of `s` from the char boundary at or before `start_byte_index`
/// to the one at or after `end_byte_index`; empty when the range is invalid.
pub fn slice_at_char_boundaries(s: &str, start_byte_index: usize, end_byte_index: usize) -> (r:
    &str)
    ensures
        r@ == (if start_byte_index > end_byte_index || start_byte_index > byte_len(s@)
            || end_byte_index > byte_len(s@) {
            Seq::<char>::empty()
        } else {
            s@.subrange(
                floor_index(s@, start_byte_index as int),
                ceil_index(s@, end_byte_index as int),
            )
        }),
{
    let len = str_byte_len(s);
    if start_byte_index > end_byte_index || start_byte_index > len || end_byte_index > len {
        proof {
            reveal_strlit("");
        }
        return "";
    }
    let v = chars_of(s);
    let a = floor_char_index(v.as_slice(), start_byte_index);
    let b = ceil_char_index(v.as_slice(), end_byte_index);
    proof {
        if a > b {
            lemma_byte_offset_mono(s@, b as int, a as int);
        }
    }
    s.substring_char(a, b)
}

/// The chars of `s` up to the char boundary at or after `byte_index`.
pub fn slice_up_to_char_boundary(s: &str, byte_index: usize) -> (r: &str)
    ensures
        r@ == (if byte_index >= byte_len(s@) {
            s@
        } else {
            s@.take(ceil_index(s@, byte_index as int))
        }),
{
    let len = str_byte_len(s);
    let v = chars_of(s);
    if byte_index >= len {
        let n = v.len();
        let r = s.substring_char(0, n);
        assert(r@ =~= s@);
        return r;
    }
    let k = ceil_char_index(v.as_slice(), byte_index);
    s.substring_char(0, k)
}


/// Calls `std::str::from_utf8`: some string exactly when the bytes are valid
/// UTF-8, and then the string they encode.
#[verifier::external_body]
pub(crate) fn str_from_utf8(bytes: &[u8]) -> (r: Option<&str>)
    ensures
        r is Some == valid_utf8(bytes@),
        r is Some ==> r->0@ == decode_utf8(bytes@),
{
    std::str::from_utf8(bytes).ok()
}

/// Length (1 to 4) of the shortest prefix of `input` that is valid UTF-8,
/// or 0 when none of those is.
pub open spec fn utf8_prefix_len(input: Seq<u8>) -> int {
    if input.len() >= 1 && valid_utf8(input.take(1)) {
        1
    } else if input.len() >= 2 && valid_utf8(input.take(2)) {
        2
    } else if input.len() >= 3 && valid_utf8(input.take(3)) {
        3
    } else if input.len() >= 4 && valid_utf8(input.take(4)) {
        4
    } else {
        0
    }
}

/// The first char decoded from the shortest valid UTF-8 prefix of `input`.
pub open spec fn utf8_prefix_char(input: Seq<u8>) -> char {
    decode_utf8(input.take(utf8_prefix_len(input)))[0]
}

proof fn lemma_decode_nonempty(b: Seq<u8>)
    requires
        valid_utf8(b),
        b.len() > 0,
    ensures
        decode_utf8(b).len() > 0,
{
}

/// Decodes `input[from..from + n]` when it is valid UTF-8.
fn try_prefix(input: &[u8], from: usize, n: usize) -> (r: Option<char>)
    requires
        1 <= n,
        from + n <= input@.len(),
    ensures
        r is Some == valid_utf8(input@.skip(from as int).take(n as int)),
        r is Some ==> r->0 == decode_utf8(input@.skip(from as int).take(n as int))[0],
{
    let mut pre: Vec<u8> = Vec::new();
    let mut i: usize = 0;
    let len = input.len();
    while i < n
        invariant
            i <= n,
            len == input@.len(),
            from + n <= input@.len(),
            pre@ == input@.skip(from as int).take(i as int),
        decreases n - i,
    {
        pre.push(input[from + i]);
        i = i + 1;
        assert(pre@ =~= input@.skip(from as int).take(i as int));
    }
    match str_from_utf8(pre.as_slice()) {
        Some(t) => {
            proof {
                lemma_decode_nonempty(pre@);
            }
            let v = chars_of(t);
            Some(v[0])
        },
        None => None,
    }
}

/// The char at byte `from` of `input` and its length, as `try_parse_utf8_char`
/// gives them for `input[from..]`.
fn parse_char_at(input: &[u8], from: usize) -> (r: Option<(char, usize)>)
    requires
        from <= input@.len(),
    ensures
        r == (if utf8_prefix_len(input@.skip(from as int)) > 0 {
            Some(
                (
                    utf8_prefix_char(input@.skip(from as int)),
                    utf8_prefix_len(input@.skip(from as int)) as usize,
                ),
            )
        } else {
            None
        }),
{
    let ghost t = input@.skip(from as int);
    let mut n: usize = 1;
    while n <= 4 && n <= input.len() - from
        invariant
            1 <= n <= 5,
            from <= input@.len(),
            t == input@.skip(from as int),
            forall|m: int| 1 <= m < n ==> !(t.len() >= m && valid_utf8(t.take(m))),
        decreases 5 - n,
    {
        match try_prefix(input, from, n) {
            Some(c) => {
                return Some((c, n));
            },
            None => {},
        }
        n = n + 1;
    }
    None
}

/// The char at the start of `input` and its length in bytes, when one of
/// the first four prefixes is valid UTF-8.
pub fn try_parse_utf8_char(input: &[u8]) -> (r: Option<(char, usize)>)
    ensures
        r == (if utf8_prefix_len(input@) > 0 {
            Some((utf8_prefix_char(input@), utf8_prefix_len(input@) as usize))
        } else {
            None
        }),
{
    assert(input@.skip(0) =~= input@);
    parse_char_at(input, 0)
}

/// How `replace_non_printable` treats tabs, line feeds and control chars.
pub struct ReplaceNonPrintableConfig {
    pub replace_tab: bool,
    pub tab_width: usize,
    pub replace_line_feed: bool,
    pub replace_control_characters: bool,
}

impl ReplaceNonPrintableConfig {
    pub fn tab_width(&mut self, tab_width: usize) -> (r: &mut Self)
        ensures
            *r == (ReplaceNonPrintableConfig { tab_width, ..*old(self) }),
            *final(self) == *final(r),
    {
        self.tab_width = tab_width;
        self
    }

    pub fn keep_line_feed(&mut self) -> (r: &mut Self)
        ensures
            *r == (ReplaceNonPrintableConfig { replace_line_feed: false, ..*old(self) }),
            *final(self) == *final(r),
    {
        self.replace_line_feed = false;
        self
    }

    pub fn keep_control_characters(&mut self) -> (r: &mut Self)
        ensures
            *r == (ReplaceNonPrintableConfig { replace_control_characters: false, ..*old(self) }),
            *final(self) == *final(r),
    {
        self.replace_control_characters = false;
        self
    }
}

impl Default for ReplaceNonPrintableConfig {
    fn default() -> (r: Self)
        ensures
            r == (ReplaceNonPrintableConfig {
                replace_tab: true,
                tab_width: TAB_WIDTH,
                replace_line_feed: true,
                replace_control_characters: true,
            }),
    {
        Self {
            replace_tab: true,
            tab_width: TAB_WIDTH,
            replace_line_feed: true,
            replace_control_characters: true,
        }
    }
}

/// The symbol shown for characters that cannot be displayed.
pub const NULL_SYMBOL: char = '\u{2400}';

/// `n` spaces.
pub open spec fn spaces(n: nat) -> Seq<char> {
    Seq::new(n, |i: int| ' ')
}

/// Whether `c` is a control char that the configuration can replace.
pub open spec fn is_control_char(c: char) -> bool {
    (c as u32) <= 0x1f || (0x7f <= (c as u32) && (c as u32) <= 0x9f) || c == '\u{feff}'
}

/// What one decoded char becomes, and how it moves later offsets.
pub open spec fn replace_char(c: char, cfg: ReplaceNonPrintableConfig) -> (Seq<char>, int) {
    if c == '\t' && cfg.replace_tab {
        (spaces(cfg.tab_width as nat), cfg.tab_width - 1)
    } else if c == '\n' {
        if cfg.replace_line_feed {
            (Seq::<char>::empty(), -1)
        } else {
            (seq![c], 0)
        }
    } else if c == '\r' {
        (Seq::<char>::empty(), -1)
    } else if is_control_char(c) && cfg.replace_control_characters {
        (seq![NULL_SYMBOL], 0)
    } else if (c as u32) > 0x700 {
        (seq![NULL_SYMBOL], 0)
    } else {
        (seq![c], 0)
    }
}

/// The printable text and per-byte offsets for `input`, with `off` the
/// offset reached so far.
pub open spec fn replace_spec(input: Seq<u8>, cfg: ReplaceNonPrintableConfig, off: int) -> (
    Seq<char>,
    Seq<int>,
)
    decreases input.len(),
{
    if input.len() == 0 {
        (Seq::<char>::empty(), Seq::<int>::empty())
    } else {
        let n = utf8_prefix_len(input);
        if n > 0 {
            let rc = replace_char(utf8_prefix_char(input), cfg);
            let rest = replace_spec(input.skip(n), cfg, off + rc.1);
            (rc.0 + rest.0, Seq::new(n as nat, |i: int| off) + rest.1)
        } else {
            let rest = replace_spec(input.skip(1), cfg, off);
            (seq![NULL_SYMBOL] + rest.0, seq![off] + rest.1)
        }
    }
}

/// Every offset reached while replacing `input` fits in an `i16`.
pub open spec fn replace_fits(input: Seq<u8>, cfg: ReplaceNonPrintableConfig, off: int) -> bool
    decreases input.len(),
{
    if input.len() == 0 {
        true
    } else {
        let n = utf8_prefix_len(input);
        if n > 0 {
            let c = utf8_prefix_char(input);
            let rc = replace_char(c, cfg);
            &&& (c == '\t' && cfg.replace_tab ==> cfg.tab_width <= 32767)
            &&& -32768 <= off + rc.1 <= 32767
            &&& replace_fits(input.skip(n), cfg, off + rc.1)
        } else {
            replace_fits(input.skip(1), cfg, off)
        }
    }
}

proof fn lemma_prefix_len_bounds(input: Seq<u8>)
    ensures
        0 <= utf8_prefix_len(input) <= 4,
        utf8_prefix_len(input) <= input.len(),
{
}

/// Offsets stay within `i16` when the input is short and tabs are narrow.
pub proof fn lemma_replace_fits(input: Seq<u8>, cfg: ReplaceNonPrintableConfig, off: int)
    requires
        1 <= cfg.tab_width <= 8,
        -32768 + input.len() <= off,
        off + 7 * input.len() <= 32767,
    ensures
        replace_fits(input, cfg, off),
    decreases input.len(),
{
    if input.len() > 0 {
        lemma_prefix_len_bounds(input);
        let n = utf8_prefix_len(input);
        if n > 0 {
            let rc = replace_char(utf8_prefix_char(input), cfg);
            lemma_replace_fits(input.skip(n), cfg, off + rc.1);
        } else {
            lemma_replace_fits(input.skip(1), cfg, off);
        }
    }
}

/// Replaces tabs by spaces and non-printable characters by a symbol, drops
/// line endings, and gives for each input byte the shift of its position in
/// the output.
pub fn replace_non_printable(input: &[u8], config: &ReplaceNonPrintableConfig) -> (r: (
    String,
    Vec<i16>,
))
    requires
        replace_fits(input@, *config, 0),
    ensures
        r.0@ == replace_spec(input@, *config, 0).0,
        r.1@.len() == replace_spec(input@, *config, 0).1.len(),
        forall|i: int| 0 <= i < r.1@.len() ==> r.1@[i] as int == replace_spec(input@, *config, 0).1[i],
{
    let mut output = String::new();
    let mut offsets: Vec<i16> = Vec::new();
    let mut cumulative_offset: i16 = 0;
    let mut idx: usize = 0;
    let len = input.len();
    proof {
        assert(input@.skip(0) =~= input@);
        assert(output@ + replace_spec(input@, *config, 0).0 =~= replace_spec(input@, *config, 0).0);
    }
    while idx < len
        invariant
            idx <= len == input@.len(),
            replace_fits(input@.skip(idx as int), *config, cumulative_offset as int),
            output@ + replace_spec(input@.skip(idx as int), *config, cumulative_offset as int).0
                == replace_spec(input@, *config, 0).0,
            offsets@.len() + replace_spec(input@.skip(idx as int), *config, cumulative_offset as int).1.len()
                == replace_spec(input@, *config, 0).1.len(),
            forall|i: int| 0 <= i < offsets@.len() ==> offsets@[i] as int == replace_spec(input@, *config, 0).1[i],
            forall|i: int| 0 <= i < replace_spec(input@.skip(idx as int), *config, cumulative_offset as int).1.len() ==>
                replace_spec(input@.skip(idx as int), *config, cumulative_offset as int).1[i]
                == replace_spec(input@, *config, 0).1[offsets@.len() + i],
        decreases len - idx,
    {
        let ghost rest = input@.skip(idx as int);
        let ghost off = cumulative_offset as int;
        let ghost out0 = output@;
        let ghost offs0 = offsets@;
        proof {
            lemma_prefix_len_bounds(rest);
        }
        match parse_char_at(input, idx) {
            Some((chr, skip_ahead)) => {
                let mut k: usize = 0;
                while k < skip_ahead
                    invariant
                        k <= skip_ahead,
                        offsets@ == offs0 + Seq::new(k as nat, |i: int| cumulative_offset),
                    decreases skip_ahead - k,
                {
                    offsets.push(cumulative_offset);
                    k = k + 1;
                    assert(offsets@ =~= offs0 + Seq::new(k as nat, |i: int| cumulative_offset));
                }
                idx = idx + skip_ahead;
                let ghost rc = replace_char(chr, *config);
                if chr == '\t' && config.replace_tab {
                    let sp = spaces_string(config.tab_width);
                    push_str(&mut output, sp.as_str());
                    cumulative_offset = cumulative_offset + ((config.tab_width as i16) - 1);
                } else if chr == '\n' {
                    if config.replace_line_feed {
                        cumulative_offset = cumulative_offset - 1;
                    } else {
                        push_char(&mut output, chr);
                    }
                } else if chr == '\r' {
                    cumulative_offset = cumulative_offset - 1;
                } else if (chr <= '\u{1f}' || ('\u{7f}' <= chr && chr <= '\u{9f}') || chr == '\u{feff}')
                    && config.replace_control_characters {
                    push_char(&mut output, NULL_SYMBOL);
                } else if chr > '\u{700}' {
                    push_char(&mut output, NULL_SYMBOL);
                } else {
                    push_char(&mut output, chr);
                }
                proof {
                    assert(input@.skip(idx as int) =~= rest.skip(skip_ahead as int));
                    assert(output@ == out0 + rc.0);
                    assert(cumulative_offset as int == off + rc.1);
                    let rs = replace_spec(rest.skip(skip_ahead as int), *config, off + rc.1);
                    assert(replace_spec(rest, *config, off).0 == rc.0 + rs.0);
                    assert(output@ + rs.0 =~= out0 + replace_spec(rest, *config, off).0);
                    let whole = replace_spec(input@, *config, 0).1;
                    assert forall|i: int| 0 <= i < offsets@.len() implies offsets@[i] as int == whole[i] by {
                        if i >= offs0.len() {
                            assert(replace_spec(rest, *config, off).1[i - offs0.len()] == off);
                        }
                    }
                    assert forall|i: int| 0 <= i < rs.1.len() implies rs.1[i] == whole[offsets@.len() + i] by {
                        assert(replace_spec(rest, *config, off).1[skip_ahead + i] == rs.1[i]);
                    }
                }
            },
            None => {
                offsets.push(cumulative_offset);
                push_char(&mut output, NULL_SYMBOL);
                idx = idx + 1;
                proof {
                    assert(input@.skip(idx as int) =~= rest.skip(1));
                    let rs = replace_spec(rest.skip(1), *config, off);
                    assert(output@ + rs.0 =~= out0 + replace_spec(rest, *config, off).0);
                    let whole = replace_spec(input@, *config, 0).1;
                    assert forall|i: int| 0 <= i < offsets@.len() implies offsets@[i] as int == whole[i] by {
                        if i >= offs0.len() {
                            assert(replace_spec(rest, *config, off).1[0] == off);
                        }
                    }
                    assert forall|i: int| 0 <= i < rs.1.len() implies rs.1[i] == whole[offsets@.len() + i] by {
                        assert(replace_spec(rest, *config, off).1[1 + i] == rs.1[i]);
                    }
                }
            },
        }
    }
    proof {
        assert(input@.skip(len as int).len() == 0);
        assert(output@ =~= replace_spec(input@, *config, 0).0);
    }
    (output, offsets)
}

/// A string of `n` spaces.
fn spaces_string(n: usize) -> (s: String)
    ensures
        s@ == spaces(n as nat),
{
    let mut s = String::new();
    let mut i: usize = 0;
    while i < n
        invariant
            i <= n,
            s@ == spaces(i as nat),
        decreases n - i,
    {
        push_char(&mut s, ' ');
        i = i + 1;
        assert(s@ =~= spaces(i as nat));
    }
    s
}


const MAX_LINE_LENGTH: usize = 300;

/// The part of `line` that `preprocess_line` works on: the whole line, or,
/// for a line over 300 bytes, its chars up to the boundary at byte 300.
pub open spec fn preprocess_source(line: Seq<char>) -> Seq<char> {
    if byte_len(line) > 300 {
        line.take(ceil_index(line, 300))
    } else {
        line
    }
}

/// The default replacement configuration.
pub open spec fn default_config() -> ReplaceNonPrintableConfig {
    ReplaceNonPrintableConfig {
        replace_tab: true,
        tab_width: 4,
        replace_line_feed: true,
        replace_control_characters: true,
    }
}

/// Printable form of a line (at most about 300 bytes of it) with the
/// default configuration.
pub fn preprocess_line(line: &str) -> (r: (String, Vec<i16>))
    ensures
        r.0@ == replace_spec(encode_utf8(preprocess_source(line@)), default_config(), 0).0,
        r.1@.len() == replace_spec(encode_utf8(preprocess_source(line@)), default_config(), 0).1.len(),
        forall|i: int|
            0 <= i < r.1@.len() ==> r.1@[i] as int == replace_spec(
                encode_utf8(preprocess_source(line@)),
                default_config(),
                0,
            ).1[i],
{
    let src = if str_byte_len(line) > MAX_LINE_LENGTH {
        slice_up_to_char_boundary(line, MAX_LINE_LENGTH)
    } else {
        line
    };
    proof {
        if byte_len(line@) > 300 {
            lemma_ceil_index(line@, 300);
            let k = ceil_index(line@, 300);
            if k > 0 {
                lemma_byte_offset_step(line@, k - 1);
                lemma_char_len_pos(line@[k - 1]);
            }
        }
        lemma_byte_len_encode(src@);
    }
    let cfg = ReplaceNonPrintableConfig::default();
    let bytes = src.as_bytes();
    proof {
        lemma_replace_fits(bytes@, cfg, 0);
    }
    replace_non_printable(bytes, &cfg)
}

/// Whether every char of `s` is printable ASCII (32 to 126).
pub open spec fn is_plain_printable(s: Seq<char>) -> bool {
    forall|i: int| 0 <= i < s.len() ==> ' ' <= #[trigger] s[i] && s[i] <= '~'
}

/// Match indices moved by the offsets of the sanitized text: indices past
/// the offsets are dropped, negative results become 0.
pub open spec fn shift_indices(indices: Seq<u32>, offs: Seq<int>) -> Seq<u32>
    decreases indices.len(),
{
    if indices.len() == 0 {
        Seq::<u32>::empty()
    } else {
        let start = indices[0] as int;
        let rest = shift_indices(indices.drop_first(), offs);
        if start < offs.len() {
            let ns = start + offs[start];
            seq![if 0 <= ns <= u32::MAX { ns as u32 } else { 0u32 }] + rest
        } else {
            rest
        }
    }
}

/// The text made printable, and the match indices moved to match it.
pub fn sanitize_text_with_indices(display_str: &str, indices: &[u32]) -> (r: (String, Vec<u32>))
    ensures
        is_plain_printable(display_str@) ==> r.0@ == display_str@ && r.1@ == indices@,
        !is_plain_printable(display_str@) ==> r.0@ == replace_spec(
            encode_utf8(preprocess_source(display_str@)),
            default_config(),
            0,
        ).0 && r.1@ == shift_indices(
            indices@,
            replace_spec(encode_utf8(preprocess_source(display_str@)), default_config(), 0).1,
        ),
{
    let v = chars_of(display_str);
    let mut plain = true;
    let mut i: usize = 0;
    while i < v.len()
        invariant
            v@ == display_str@,
            i <= v@.len(),
            plain == (forall|j: int| 0 <= j < i ==> ' ' <= #[trigger] v@[j] && v@[j] <= '~'),
        decreases v@.len() - i,
    {
        let c = v[i];
        if !(' ' <= c && c <= '~') {
            plain = false;
        }
        i = i + 1;
    }
    if plain {
        let mut out: Vec<u32> = Vec::new();
        let mut k: usize = 0;
        while k < indices.len()
            invariant
                k <= indices@.len(),
                out@ == indices@.take(k as int),
            decreases indices@.len() - k,
        {
            out.push(indices[k]);
            k = k + 1;
            assert(out@ =~= indices@.take(k as int));
        }
        assert(indices@.take(indices@.len() as int) =~= indices@);
        return (to_owned_string(display_str), out);
    }
    let (printable, offsets) = preprocess_line(display_str);
    let ghost offs = replace_spec(encode_utf8(preprocess_source(display_str@)), default_config(), 0).1;
    let mut match_indices: Vec<u32> = Vec::new();
    proof {
        assert(indices@.skip(0) =~= indices@);
        assert(match_indices@ + shift_indices(indices@, offs) =~= shift_indices(indices@, offs));
    }
    let mut k: usize = 0;
    while k < indices.len()
        invariant
            k <= indices@.len(),
            offsets@.len() == offs.len(),
            forall|j: int| 0 <= j < offsets@.len() ==> offsets@[j] as int == offs[j],
            match_indices@ + shift_indices(indices@.skip(k as int), offs) == shift_indices(indices@, offs),
        decreases indices@.len() - k,
    {
        let start = indices[k];
        let ghost rest = indices@.skip(k as int);
        proof {
            assert(rest.drop_first() =~= indices@.skip(k + 1));
        }
        if (start as usize) < offsets.len() {
            let new_start: i64 = (start as i64) + (offsets[start as usize] as i64);
            let v = if 0 <= new_start && new_start <= 4294967295 { new_start as u32 } else { 0 };
            match_indices.push(v);
            proof {
                assert(match_indices@ + shift_indices(indices@.skip(k + 1), offs) =~= shift_indices(indices@, offs));
            }
        }
        k = k + 1;
    }
    proof {
        assert(indices@.skip(indices@.len() as int) =~= Seq::<u32>::empty());
        assert(match_indices@ =~= shift_indices(indices@, offs));
    }
    (printable, match_indices)
}

/// `s` when it fits in `max_length` bytes; otherwise its start and end
/// (about half of `max_length` each) around an ellipsis.
pub fn shrink_with_ellipsis(s: &str, max_length: usize) -> (r: String)
    ensures
        byte_len(s@) <= max_length ==> r@ == s@,
        byte_len(s@) > max_length ==> ({
            let half = if max_length / 2 >= 2 { max_length / 2 - 2 } else { 0 };
            let first = if half >= byte_len(s@) { s@ } else { s@.take(ceil_index(s@, half as int)) };
            let second = s@.subrange(
                floor_index(s@, byte_len(s@) - half),
                ceil_index(s@, byte_len(s@) as int),
            );
            r@ == first + seq!['\u{2026}'] + second
        }),
{
    let len = str_byte_len(s);
    if len <= max_length {
        return to_owned_string(s);
    }
    let half = if max_length / 2 >= 2 { max_length / 2 - 2 } else { 0 };
    let first_half = slice_up_to_char_boundary(s, half);
    let second_half = slice_at_char_boundaries(s, len - half, len);
    let mut out = to_owned_string(first_half);
    push_char(&mut out, '\u{2026}');
    push_str(&mut out, second_half);
    out
}

/// Whether byte `b` counts as printable ASCII text (including tab, line
/// feed and carriage return).
pub open spec fn is_printable_byte(b: u8) -> bool {
    (32 <= b && b < 127) || b == 9 || b == 10 || b == 13
}

/// Number of printable bytes in `buffer`.
pub fn count_printable_ascii(buffer: &[u8]) -> (n: usize)
    ensures
        n == buffer@.filter(|b: u8| is_printable_byte(b)).len(),
{
    let mut n: usize = 0;
    let mut i: usize = 0;
    while i < buffer.len()
        invariant
            i <= buffer@.len(),
            n == buffer@.take(i as int).filter(|b: u8| is_printable_byte(b)).len(),
            n <= i,
        decreases buffer@.len() - i,
    {
        proof {
            assert(buffer@.take(i + 1).drop_last() =~= buffer@.take(i as int));
            reveal_with_fuel(Seq::filter, 1);
        }
        if (32 <= buffer[i] && buffer[i] < 127) || buffer[i] == 9 || buffer[i] == 10 || buffer[i] == 13 {
            n = n + 1;
        }
        i = i + 1;
    }
    assert(buffer@.take(buffer@.len() as int) =~= buffer@);
    n
}

/// Whether `c` is an ASCII digit.
pub open spec fn is_digit(c: char) -> bool {
    '0' <= c && c <= '9'
}

/// Char `q` of `t` is a colon that closes a line number: the colon before
/// it is followed by one or more digits that reach it.
#[verifier::opaque]
pub open spec fn closes_line_number(t: Seq<char>, q: int) -> bool {
    &&& 0 <= q < t.len()
    &&& t[q] == ':'
    &&& exists|p: int|
        0 <= p < q - 1 && #[trigger] t[p] == ':' && forall|j: int| p < j < q ==> is_digit(
            #[trigger] t[j],
        )
}

/// The 1-based column of the first match after the `path:line:` prefix of a
/// grep result.
pub open spec fn grep_match_column(t: Seq<char>, idx: Seq<u32>) -> Option<usize> {
    if exists|q: int| closes_line_number(t, q) {
        let q = choose|q: int|
            closes_line_number(t, q) && forall|r: int| 0 <= r < q ==> !closes_line_number(t, r);
        if exists|m: int| 0 <= m < idx.len() && idx[m] >= q + 1 {
            let m = choose|m: int|
                0 <= m < idx.len() && idx[m] >= q + 1 && forall|x: int|
                    0 <= x < m ==> idx[x] < q + 1;
            Some((idx[m] - q) as usize)
        } else {
            None
        }
    } else {
        None
    }
}


/// Whether all chars strictly between `a` and `b` are ASCII digits.
fn all_digits_between(v: &Vec<char>, a: usize, b: usize) -> (r: bool)
    requires
        a < b <= v@.len(),
    ensures
        r == forall|x: int| a < x < b ==> is_digit(#[trigger] v@[x]),
{
    let mut j = a + 1;
    while j < b
        invariant
            a + 1 <= j <= b <= v@.len(),
            forall|x: int| a < x < j ==> is_digit(#[trigger] v@[x]),
        decreases b - j,
    {
        if !('0' <= v[j] && v[j] <= '9') {
            return false;
        }
        j = j + 1;
    }
    true
}

/// The first position of `idx` holding a value at least `bound`.
pub(crate) fn first_at_least(idx: &[u32], bound: usize) -> (r: Option<usize>)
    ensures
        match r {
            Some(m) => m < idx@.len() && idx@[m as int] >= bound && forall|x: int|
                0 <= x < m ==> idx@[x] < bound,
            None => forall|x: int| 0 <= x < idx@.len() ==> idx@[x] < bound,
        },
{
    let mut m: usize = 0;
    while m < idx.len()
        invariant
            m <= idx@.len(),
            forall|x: int| 0 <= x < m ==> idx@[x] < bound,
        decreases idx@.len() - m,
    {
        if idx[m] as usize >= bound {
            return Some(m);
        }
        m = m + 1;
    }
    None
}

/// A colon at `i` closes a line number exactly when the previous colon
/// `fc` is followed by one or more digits that reach it.
proof fn lemma_closes(t: Seq<char>, i: int, fc: Option<usize>)
    requires
        0 <= i < t.len(),
        t[i] == ':',
        match fc {
            None => forall|j: int| 0 <= j < i ==> t[j] != ':',
            Some(p) => p < i && t[p as int] == ':' && forall|j: int| p < j < i ==> t[j] != ':',
        },
    ensures
        closes_line_number(t, i) == (match fc {
            None => false,
            Some(p) => i > p + 1 && forall|x: int| p < x < i ==> is_digit(#[trigger] t[x]),
        }),
{
    reveal(closes_line_number);
    if closes_line_number(t, i) {
        let p = choose|p: int|
            0 <= p < i - 1 && #[trigger] t[p] == ':' && forall|j: int|
                p < j < i ==> is_digit(#[trigger] t[j]);
        match fc {
            None => {
                assert(t[p] != ':');
            },
            Some(f) => {
                if p < f {
                    assert(is_digit(t[f as int]));
                } else if p > f {
                    assert(t[p] != ':');
                }
            },
        }
    } else {
        match fc {
            None => {},
            Some(f) => {
                if i > f + 1 && forall|x: int| f < x < i ==> is_digit(#[trigger] t[x]) {
                    assert(0 <= f < i - 1 && t[f as int] == ':');
                }
            },
        }
    }
}

proof fn lemma_grep_column(t: Seq<char>, idx: Seq<u32>, q: int, m: Option<usize>)
    requires
        closes_line_number(t, q),
        forall|r: int| 0 <= r < q ==> !closes_line_number(t, r),
        match m {
            Some(mm) => mm < idx.len() && idx[mm as int] >= q + 1 && forall|x: int|
                0 <= x < mm ==> idx[x] < q + 1,
            None => forall|x: int| 0 <= x < idx.len() ==> idx[x] < q + 1,
        },
    ensures
        m is None ==> grep_match_column(t, idx) is None,
        m is Some ==> grep_match_column(t, idx) == Some((idx[m->0 as int] - q) as usize),
{
    assert(closes_line_number(t, q) && forall|r: int| 0 <= r < q ==> !closes_line_number(t, r));
    let q2 = choose|q2: int|
        closes_line_number(t, q2) && forall|r: int| 0 <= r < q2 ==> !closes_line_number(t, r);
    assert(closes_line_number(t, q2));
    assert(q2 >= 0 && q >= 0) by {
        reveal(closes_line_number);
    }
    if q2 < q {
        assert(!closes_line_number(t, q2));
    } else if q2 > q {
        assert(!closes_line_number(t, q));
    }
    assert(q2 == q);
    match m {
        Some(mm) => {
            assert(0 <= mm < idx.len() && idx[mm as int] >= q + 1 && forall|x: int|
                0 <= x < mm ==> idx[x] < q + 1);
            let m2 = choose|m2: int|
                0 <= m2 < idx.len() && idx[m2] >= q + 1 && forall|x: int|
                    0 <= x < m2 ==> idx[x] < q + 1;
            if m2 < mm {
                assert(idx[m2] < q + 1);
            } else if m2 > mm {
                assert(idx[mm as int] < q + 1);
            }
        },
        None => {},
    }
}

proof fn lemma_not_colon(t: Seq<char>, i: int)
    requires
        0 <= i < t.len(),
        t[i] != ':',
    ensures
        !closes_line_number(t, i),
{
    reveal(closes_line_number);
}

proof fn lemma_grep_column_none(t: Seq<char>, idx: Seq<u32>)
    requires
        forall|r: int| 0 <= r < t.len() ==> !closes_line_number(t, r),
    ensures
        grep_match_column(t, idx) is None,
{
    reveal(closes_line_number);
}

/// The column of the first match after the colon at `q`, the first colon
/// that closes a line number.
fn column_after(match_indices: &[u32], q: usize, Ghost(t): Ghost<Seq<char>>) -> (r: Option<usize>)
    requires
        closes_line_number(t, q as int),
        forall|r: int| 0 <= r < q ==> !closes_line_number(t, r),
        q < t.len(),
        q < usize::MAX,
    ensures
        r == grep_match_column(t, match_indices@),
{
    let csc = q + 1;
    let m = first_at_least(match_indices, csc);
    proof {
        lemma_grep_column(t, match_indices@, q as int, m);
    }
    match m {
        Some(mm) => Some(match_indices[mm] as usize - csc + 1),
        None => None,
    }
}

/// The 1-based column of the first match after the `path:line:` prefix of a
/// grep result line.
pub fn find_first_match_column_in_grep_result(text: &str, match_indices: &[u32]) -> (r: Option<
    usize,
>)
    ensures
        r == grep_match_column(text@, match_indices@),
{
    let v = chars_of(text);
    let ghost t = text@;
    let n = v.len();
    let mut first_colon: Option<usize> = None;
    let mut i: usize = 0;
    while i < n
        invariant
            v@ == t,
            t == text@,
            n == t.len(),
            i <= n,
            forall|q: int| 0 <= q < i ==> !closes_line_number(t, q),
            match first_colon {
                None => forall|j: int| 0 <= j < i ==> t[j] != ':',
                Some(p) => p < i && t[p as int] == ':' && forall|j: int| p < j < i ==> t[j] != ':',
            },
        decreases n - i,
    {
        if v[i] == ':' {
            proof {
                lemma_closes(t, i as int, first_colon);
            }
            if let Some(start) = first_colon {
                if i > start + 1 && all_digits_between(&v, start, i) {
                    proof {
                        assert(closes_line_number(t, i as int));
                    }
                    let r = column_after(match_indices, i, Ghost(t));
                    return r;
                }
            }
            first_colon = Some(i);
        } else {
            proof {
                lemma_not_colon(t, i as int);
            }
        }
        i = i + 1;
    }
    proof {
        lemma_grep_column_none(t, match_indices@);
    }
    None
}

/// `s` with every tab replaced by four spaces.
pub open spec fn expand_tabs(s: Seq<char>) -> Seq<char>
    decreases s.len(),
{
    if s.len() == 0 {
        seq![]
    } else if s.last() == '\t' {
        expand_tabs(s.drop_last()) + seq![' ', ' ', ' ', ' ']
    } else {
        expand_tabs(s.drop_last()).push(s.last())
    }
}

/// Expanding tabs leaves no tab, keeps every other char in order, and
/// leaves text without tabs as it is.
pub proof fn lemma_expand_tabs_laws(s: Seq<char>)
    ensures
        forall|k: int| 0 <= k < expand_tabs(s).len() ==> #[trigger] expand_tabs(s)[k] != '\t',
        expand_tabs(s).len() >= s.len(),
        (forall|k: int| 0 <= k < s.len() ==> #[trigger] s[k] != '\t') ==> expand_tabs(s) == s,
    decreases s.len(),
{
    if s.len() > 0 {
        let d = s.drop_last();
        lemma_expand_tabs_laws(d);
        assert forall|k: int| 0 <= k < d.len() implies #[trigger] d[k] == s[k] by {}
        if s.last() == '\t' {
            assert forall|k: int| 0 <= k < expand_tabs(s).len() implies #[trigger] expand_tabs(s)[k] != '\t' by {
                if k < expand_tabs(d).len() {
                    assert(expand_tabs(s)[k] == expand_tabs(d)[k]);
                }
            }
        } else {
            assert forall|k: int| 0 <= k < expand_tabs(s).len() implies #[trigger] expand_tabs(s)[k] != '\t' by {
                if k < expand_tabs(d).len() {
                    assert(expand_tabs(s)[k] == expand_tabs(d)[k]);
                }
            }
            if forall|k: int| 0 <= k < s.len() ==> #[trigger] s[k] != '\t' {
                assert(forall|k: int| 0 <= k < d.len() ==> #[trigger] d[k] != '\t');
                assert(s =~= d.push(s.last()));
            }
        }
    }
}

/// The content with tabs expanded to four spaces, for display.
pub fn sanitize_content(content: &str) -> (r: String)
    ensures
        r@ == expand_tabs(content@),
{
    let v = chars_of(content);
    let mut out = String::new();
    let mut i: usize = 0;
    while i < v.len()
        invariant
            v@ == content@,
            i <= v@.len(),
            out@ == expand_tabs(v@.take(i as int)),
        decreases v.len() - i,
    {
        proof {
            assert(v@.take(i + 1).drop_last() =~= v@.take(i as int));
        }
        if v[i] == '\t' {
            push_str(&mut out, "    ");
            proof {
                reveal_strlit("    ");
            }
        } else {
            push_char(&mut out, v[i]);
        }
        i = i + 1;
    }
    proof {
        assert(v@.take(v@.len() as int) =~= v@);
    }
    out
}

} // verus!

//! Character-level helpers shared by the text modules: UTF-8 byte lengths,
//! conversions between strings and char vectors, and small predicates on chars.
use vstd::prelude::*;
use vstd::string::*;

verus! {

/// Number of bytes in the UTF-8 encoding of `c`.
pub open spec fn char_len(c: char) -> nat {
    if (c as u32) < 0x80 {
        1
    } else if (c as u32) < 0x800 {
        2
    } else if (c as u32) < 0x10000 {
        3
    } else {
        4
    }
}

/// Number of bytes in the UTF-8 encoding of `s`.
pub open spec fn byte_len(s: Seq<char>) -> nat
    decreases s.len(),
{
    if s.len() == 0 {
        0
    } else {
        char_len(s[0]) + byte_len(s.drop_first())
    }
}

/// Byte offset of char index `k` in `s`.
pub open spec fn byte_offset(s: Seq<char>, k: int) -> nat {
    byte_len(s.take(k))
}

/// True when byte position `b` starts a char of `s` (or is its end).
pub open spec fn is_boundary(s: Seq<char>, b: int) -> bool {
    exists|k: int| 0 <= k <= s.len() && byte_offset(s, k) == b
}

/// The char index whose byte offset is `b`, when `b` is a boundary.
pub open spec fn char_index_of(s: Seq<char>, b: int) -> int {
    choose|k: int| 0 <= k <= s.len() && byte_offset(s, k) == b
}

pub proof fn lemma_char_len_pos(c: char)
    ensures
        1 <= char_len(c) <= 4,
{
}

pub proof fn lemma_byte_len_add(a: Seq<char>, b: Seq<char>)
    ensures
        byte_len(a + b) == byte_len(a) + byte_len(b),
    decreases a.len(),
{
    if a.len() == 0 {
        assert(a + b =~= b);
    } else {
        assert((a + b).drop_first() =~= a.drop_first() + b);
        lemma_byte_len_add(a.drop_first(), b);
    }
}

pub proof fn lemma_byte_len_single(c: char)
    ensures
        byte_len(seq![c]) == char_len(c),
{
    assert(seq![c].drop_first() =~= Seq::<char>::empty());
    assert(byte_len(Seq::<char>::empty()) == 0);
}

/// The byte offset grows by the length of the next char.
pub proof fn lemma_byte_offset_step(s: Seq<char>, k: int)
    requires
        0 <= k < s.len(),
    ensures
        byte_offset(s, k + 1) == byte_offset(s, k) + char_len(s[k]),
{
    assert(s.take(k + 1) =~= s.take(k) + seq![s[k]]);
    lemma_byte_len_add(s.take(k), seq![s[k]]);
    lemma_byte_len_single(s[k]);
}

/// Byte offsets are strictly increasing in the char index.
pub proof fn lemma_byte_offset_mono(s: Seq<char>, i: int, j: int)
    requires
        0 <= i <= j <= s.len(),
    ensures
        byte_offset(s, i) + (j - i) <= byte_offset(s, j),
    decreases j - i,
{
    if i < j {
        lemma_byte_offset_mono(s, i, j - 1);
        lemma_byte_offset_step(s, j - 1);
        lemma_char_len_pos(s[j - 1]);
    }
}

/// Distinct char indices have distinct byte offsets.
pub proof fn lemma_byte_offset_injective(s: Seq<char>, i: int, j: int)
    requires
        0 <= i <= s.len(),
        0 <= j <= s.len(),
        byte_offset(s, i) == byte_offset(s, j),
    ensures
        i == j,
{
    if i < j {
        lemma_byte_offset_mono(s, i, j);
    } else if j < i {
        lemma_byte_offset_mono(s, j, i);
    }
}

pub proof fn lemma_byte_offset_full(s: Seq<char>)
    ensures
        byte_offset(s, s.len() as int) == byte_len(s),
{
    assert(s.take(s.len() as int) =~= s);
}

/// The byte length of a part of `s` is the difference of the byte offsets.
pub proof fn lemma_byte_len_subrange(s: Seq<char>, i: int, j: int)
    requires
        0 <= i <= j <= s.len(),
    ensures
        byte_len(s.subrange(i, j)) == byte_offset(s, j) - byte_offset(s, i),
{
    assert(s.take(j) =~= s.take(i) + s.subrange(i, j));
    lemma_byte_len_add(s.take(i), s.subrange(i, j));
}

/// A part of `s` is no longer in bytes than `s`.
pub proof fn lemma_byte_len_subrange_le(s: Seq<char>, i: int, j: int)
    requires
        0 <= i <= j <= s.len(),
    ensures
        byte_len(s.subrange(i, j)) <= byte_len(s),
{
    lemma_byte_len_subrange(s, i, j);
    lemma_byte_offset_mono(s, j, s.len() as int);
    lemma_byte_offset_full(s);
}

/// Byte offsets of a prefix are the same in any extension of it.
pub proof fn lemma_byte_offset_prefix(a: Seq<char>, b: Seq<char>, k: int)
    requires
        0 <= k <= a.len(),
    ensures
        byte_offset(a + b, k) == byte_offset(a, k),
{
    assert((a + b).take(k) =~= a.take(k));
}

/// `byte_len` agrees with the length of the UTF-8 encoding.
pub proof fn lemma_byte_len_encode(s: Seq<char>)
    ensures
        byte_len(s) == vstd::utf8::encode_utf8(s).len(),
    decreases s.len(),
{
    if s.len() > 0 {
        lemma_byte_len_encode(s.drop_first());
        let c = s[0] as u32;
        vstd::utf8::char_is_scalar(s[0]);
        assert(vstd::utf8::encode_scalar(c).len() == char_len(s[0]));
    }
}

/// The encoding of one char holds the newline byte only when the char is
/// a newline, and then as its only byte.
pub proof fn lemma_encode_newline(c: char)
    ensures
        vstd::utf8::encode_scalar(c as u32).len() == char_len(c),
        forall|i: int| 0 <= i < vstd::utf8::encode_scalar(c as u32).len() ==>
            (#[trigger] vstd::utf8::encode_scalar(c as u32)[i] == 10u8 <==> (c == '\n' && i == 0)),
{
    let x = c as u32;
    vstd::utf8::char_is_scalar(c);
    vstd::utf8::char_u32_cast(c, x);
    assert(forall|y: u8| #[trigger] (0x80u8 | y) != 10u8) by (bit_vector);
    assert(forall|y: u8| #[trigger] (0xC0u8 | y) != 10u8) by (bit_vector);
    assert(forall|y: u8| #[trigger] (0xE0u8 | y) != 10u8) by (bit_vector);
    assert(forall|y: u8| #[trigger] (0xF0u8 | y) != 10u8) by (bit_vector);
    if x <= 0x7F {
        assert(((x & 0x7F) as u8 == 10u8) <==> (x == 10u32)) by (bit_vector)
            requires
                x <= 0x7F,
        ;
        if x == 10u32 {
            vstd::utf8::char_u32_cast('\n', 10u32);
        }
    }
}

/// The encoding of a text is the encodings of two parts of it, one after
/// the other.
pub proof fn lemma_encode_add(a: Seq<char>, b: Seq<char>)
    ensures
        vstd::utf8::encode_utf8(a + b) == vstd::utf8::encode_utf8(a) + vstd::utf8::encode_utf8(b),
    decreases a.len(),
{
    if a.len() == 0 {
        assert(a + b =~= b);
        assert(vstd::utf8::encode_utf8(a) + vstd::utf8::encode_utf8(b) =~= vstd::utf8::encode_utf8(b));
    } else {
        assert((a + b).drop_first() =~= a.drop_first() + b);
        lemma_encode_add(a.drop_first(), b);
        assert((a + b)[0] == a[0]);
        assert(vstd::utf8::encode_utf8(a + b) =~= vstd::utf8::encode_utf8(a) + vstd::utf8::encode_utf8(b));
    }
}

/// The bytes of char `k` of `s` stand from its byte offset on.
pub proof fn lemma_encode_at(s: Seq<char>, k: int)
    requires
        0 <= k < s.len(),
    ensures
        vstd::utf8::encode_utf8(s).subrange(byte_offset(s, k) as int, byte_offset(s, k + 1) as int)
            == vstd::utf8::encode_scalar(s[k] as u32),
        byte_offset(s, k + 1) <= vstd::utf8::encode_utf8(s).len(),
{
    assert(s =~= s.take(k) + s.skip(k));
    lemma_encode_add(s.take(k), s.skip(k));
    lemma_byte_len_encode(s.take(k));
    lemma_byte_len_encode(s);
    lemma_byte_offset_step(s, k);
    lemma_encode_newline(s[k]);
    assert(s.skip(k)[0] == s[k]);
    assert(s.skip(k).drop_first() =~= s.skip(k + 1));
    let e = vstd::utf8::encode_utf8(s);
    let pre = vstd::utf8::encode_utf8(s.take(k));
    let sc = vstd::utf8::encode_scalar(s[k] as u32);
    assert(vstd::utf8::encode_utf8(s.skip(k)) == sc + vstd::utf8::encode_utf8(s.skip(k + 1)));
    assert(e =~= pre + (sc + vstd::utf8::encode_utf8(s.skip(k + 1))));
    assert(e.subrange(pre.len() as int, (pre.len() + sc.len()) as int) =~= sc);
}

/// Byte `b` of the encoding of `s` is a newline exactly where a newline
/// char starts.
pub proof fn lemma_newline_bytes(s: Seq<char>, b: int)
    requires
        0 <= b < byte_len(s),
    ensures
        (vstd::utf8::encode_utf8(s)[b] == 10u8) <==> (is_boundary(s, b) && s[char_index_of(s, b)] == '\n'),
        is_boundary(s, b) ==> char_index_of(s, b) < s.len(),
{
    lemma_floor_index(s, b);
    lemma_byte_offset_full(s);
    let j = floor_index(s, b);
    if j == s.len() {
        assert(false);
    }
    lemma_encode_at(s, j);
    lemma_encode_newline(s[j]);
    let off = byte_offset(s, j) as int;
    let sc = vstd::utf8::encode_scalar(s[j] as u32);
    assert(vstd::utf8::encode_utf8(s)[b] == sc[b - off]);
    if is_boundary(s, b) {
        let k = char_index_of(s, b);
        if k != j {
            if k < j {
                lemma_byte_offset_mono(s, k, j);
            } else {
                lemma_byte_offset_mono(s, j + 1, k);
            }
        }
        assert(k == j);
    } else {
        assert(off != b);
    }
    if b == off {
        assert(0 <= j <= s.len() && byte_offset(s, j) == b);
        lemma_byte_offset_injective(s, char_index_of(s, b), j);
    }
}

/// Length in bytes of the UTF-8 encoding of `c`.
pub fn char_utf8_len(c: char) -> (n: usize)
    ensures
        n == char_len(c),
{
    let u = c as u32;
    if u < 0x80 {
        1
    } else if u < 0x800 {
        2
    } else if u < 0x10000 {
        3
    } else {
        4
    }
}

/// Byte length of a string slice.
pub fn str_byte_len(s: &str) -> (n: usize)
    ensures
        n == byte_len(s@),
{
    proof {
        lemma_byte_len_encode(s@);
    }
    let b = s.as_bytes();
    b.len()
}

/// The chars of a string slice, in order.
pub fn chars_of(s: &str) -> (v: Vec<char>)
    ensures
        v@ == s@,
{
    let mut v: Vec<char> = Vec::new();
    for c in it: s.chars()
        invariant
            v@ == it.seq().take(it.index() as int),
    {
        v.push(c);
    }
    assert(v@ =~= s@);
    v
}

/// Appends one char to a string (`String::push`).
#[verifier::external_body]
pub fn push_char(s: &mut String, c: char)
    ensures
        final(s)@ == old(s)@.push(c),
{
    s.push(c);
}

/// Appends a string slice to a string.
pub fn push_str(s: &mut String, t: &str)
    ensures
        final(s)@ == old(s)@ + t@,
{
    s.append(t);
}

/// A string holding the chars `v[lo..hi]`.
pub fn string_from_chars(v: &[char], lo: usize, hi: usize) -> (s: String)
    requires
        lo <= hi <= v@.len(),
    ensures
        s@ == v@.subrange(lo as int, hi as int),
{
    let mut s = String::new();
    let mut i = lo;
    while i < hi
        invariant
            lo <= i <= hi <= v@.len(),
            s@ == v@.subrange(lo as int, i as int),
        decreases hi - i,
    {
        push_char(&mut s, v[i]);
        i += 1;
        assert(s@ =~= v@.subrange(lo as int, i as int));
    }
    s
}

/// A copy of a string slice as an owned string.
pub fn to_owned_string(t: &str) -> (s: String)
    ensures
        s@ == t@,
{
    let mut s = String::new();
    s.append(t);
    assert(s@ =~= t@);
    s
}

/// Unicode `White_Space` (the property `char::is_whitespace` reports).
pub open spec fn is_ws(c: char) -> bool {
    ||| ('\t' <= c && c <= '\r')
    ||| c == ' '
    ||| c == '\u{85}'
    ||| c == '\u{a0}'
    ||| c == '\u{1680}'
    ||| ('\u{2000}' <= c && c <= '\u{200a}')
    ||| c == '\u{2028}'
    ||| c == '\u{2029}'
    ||| c == '\u{202f}'
    ||| c == '\u{205f}'
    ||| c == '\u{3000}'
}

/// Whether `c` is Unicode white space.
pub fn is_whitespace(c: char) -> (b: bool)
    ensures
        b == is_ws(c),
{
    ('\t' <= c && c <= '\r') || c == ' ' || c == '\u{85}' || c == '\u{a0}' || c == '\u{1680}'
        || ('\u{2000}' <= c && c <= '\u{200a}') || c == '\u{2028}' || c == '\u{2029}' || c
        == '\u{202f}' || c == '\u{205f}' || c == '\u{3000}'
}

/// Whether `char::is_alphanumeric` holds of `c` (Unicode `Alphabetic` or `Numeric`).
pub uninterp spec fn spec_is_alphanumeric(c: char) -> bool;

/// Calls `char::is_alphanumeric`; the result is the named property of `c`.
#[verifier::external_body]
pub fn is_alphanumeric(c: char) -> (b: bool)
    ensures
        b == spec_is_alphanumeric(c),
{
    c.is_alphanumeric()
}

/// The ASCII lower-case form of `c` (other chars unchanged).
pub open spec fn ascii_lower(c: char) -> char {
    if 'A' <= c && c <= 'Z' {
        ((c as u32) + 32) as char
    } else {
        c
    }
}

/// `char::to_ascii_lowercase`.
pub fn to_ascii_lower(c: char) -> (r: char)
    ensures
        r == ascii_lower(c),
{
    if 'A' <= c && c <= 'Z' {
        (((c as u32) + 32) as u8) as char
    } else {
        c
    }
}

/// `str::to_ascii_lowercase`, as a char sequence.
pub open spec fn ascii_lower_seq(s: Seq<char>) -> Seq<char> {
    Seq::new(s.len(), |i: int| ascii_lower(s[i]))
}

/// `str::to_ascii_lowercase`.
pub fn str_to_ascii_lowercase(s: &str) -> (r: String)
    ensures
        r@ == ascii_lower_seq(s@),
{
    let v = chars_of(s);
    let mut r = String::new();
    let mut i: usize = 0;
    while i < v.len()
        invariant
            v@ == s@,
            i <= v@.len(),
            r@ =~= ascii_lower_seq(v@.take(i as int)),
        decreases v@.len() - i,
    {
        let c = to_ascii_lower(v[i]);
        push_char(&mut r, c);
        i += 1;
        assert(ascii_lower_seq(v@.take(i as int)) =~= ascii_lower_seq(v@.take(i - 1)).push(c));
    }
    assert(v@.take(v@.len() as int) =~= v@);
    r
}

/// The ASCII upper-case form of `c` (other chars unchanged).
pub open spec fn ascii_upper(c: char) -> char {
    if 'a' <= c && c <= 'z' {
        ((c as u32) - 32) as char
    } else {
        c
    }
}

/// `str::to_ascii_uppercase`, as a char sequence.
pub open spec fn ascii_upper_seq(s: Seq<char>) -> Seq<char> {
    Seq::new(s.len(), |i: int| ascii_upper(s[i]))
}

/// `str::to_ascii_uppercase`.
pub fn str_to_ascii_uppercase(s: &str) -> (r: String)
    ensures
        r@ == ascii_upper_seq(s@),
{
    let v = chars_of(s);
    let mut r = String::new();
    let mut i: usize = 0;
    while i < v.len()
        invariant
            v@ == s@,
            i <= v@.len(),
            r@ =~= ascii_upper_seq(v@.take(i as int)),
        decreases v@.len() - i,
    {
        let ch = v[i];
        let c = if 'a' <= ch && ch <= 'z' { (((ch as u32) - 32) as u8) as char } else { ch };
        push_char(&mut r, c);
        i += 1;
        assert(ascii_upper_seq(v@.take(i as int)) =~= ascii_upper_seq(v@.take(i - 1)).push(c));
    }
    assert(v@.take(v@.len() as int) =~= v@);
    r
}

/// `str::eq_ignore_ascii_case`.
pub fn eq_ignore_ascii_case(a: &str, b: &str) -> (r: bool)
    ensures
        r == (ascii_lower_seq(a@) == ascii_lower_seq(b@)),
{
    let va = chars_of(a);
    let vb = chars_of(b);
    if va.len() != vb.len() {
        assert(ascii_lower_seq(a@).len() != ascii_lower_seq(b@).len());
        return false;
    }
    let mut i: usize = 0;
    while i < va.len()
        invariant
            va@ == a@,
            vb@ == b@,
            va@.len() == vb@.len(),
            i <= va@.len(),
            forall|j: int| 0 <= j < i ==> ascii_lower(va@[j]) == ascii_lower(vb@[j]),
        decreases va@.len() - i,
    {
        if to_ascii_lower(va[i]) != to_ascii_lower(vb[i]) {
            assert(ascii_lower_seq(a@)[i as int] != ascii_lower_seq(b@)[i as int]);
            return false;
        }
        i += 1;
    }
    assert(ascii_lower_seq(a@) =~= ascii_lower_seq(b@));
    true
}

/// Whether the chars `needle` occur in `hay` starting at index `i`.
pub open spec fn occurs_at(hay: Seq<char>, needle: Seq<char>, i: int) -> bool {
    0 <= i && i + needle.len() <= hay.len() && hay.subrange(i, i + needle.len()) == needle
}

/// Whether `needle` occurs somewhere in `hay` (`str::contains`).
pub open spec fn contains_seq(hay: Seq<char>, needle: Seq<char>) -> bool {
    exists|i: int| occurs_at(hay, needle, i)
}

/// The first index where `needle` occurs in `hay` at or after `from`, if any.
pub fn find_from(hay: &[char], needle: &[char], from: usize) -> (r: Option<usize>)
    requires
        from <= hay@.len(),
    ensures
        match r {
            Some(i) => from <= i && occurs_at(hay@, needle@, i as int) && forall|j: int|
                from <= j < i ==> !occurs_at(hay@, needle@, j),
            None => forall|j: int| from <= j ==> !occurs_at(hay@, needle@, j),
        },
{
    if needle.len() > hay.len() {
        return None;
    }
    let n = hay.len();
    let last = n - needle.len();
    let mut i = from;
    while i <= last
        invariant
            from <= i,
            needle@.len() <= hay@.len(),
            n == hay@.len(),
            last == hay@.len() - needle@.len(),
            forall|j: int| from <= j < i ==> !occurs_at(hay@, needle@, j),
        decreases last + 1 - i,
    {
        let mut k: usize = 0;
        let mut ok = true;
        while k < needle.len()
            invariant
                i <= last,
                needle@.len() <= hay@.len(),
                n == hay@.len(),
                last == hay@.len() - needle@.len(),
                k <= needle@.len(),
                ok ==> forall|m: int| 0 <= m < k ==> hay@[i + m] == needle@[m],
                !ok ==> !occurs_at(hay@, needle@, i as int) && k > 0,
            decreases needle@.len() - k,
        {
            if hay[i + k] != needle[k] {
                ok = false;
                assert(hay@.subrange(i as int, i + needle@.len())[k as int] != needle@[k as int]);
            }
            k += 1;
        }
        if ok {
            assert(hay@.subrange(i as int, i + needle@.len()) =~= needle@);
            return Some(i);
        }
        i += 1;
    }
    None
}

/// `str::contains` on chars.
pub fn contains_chars(hay: &[char], needle: &[char]) -> (r: bool)
    ensures
        r == contains_seq(hay@, needle@),
{
    match find_from(hay, needle, 0) {
        Some(i) => true,
        None => false,
    }
}


/// The first char index whose byte offset is at least `b`.
pub open spec fn ceil_index(s: Seq<char>, b: int) -> int {
    choose|k: int|
        0 <= k <= s.len() && #[trigger] byte_offset(s, k) >= b && (k == 0 || byte_offset(s, k - 1)
            < b)
}

/// The last char index whose byte offset is at most `b`.
pub open spec fn floor_index(s: Seq<char>, b: int) -> int {
    choose|k: int|
        0 <= k <= s.len() && #[trigger] byte_offset(s, k) <= b && (k == s.len() || byte_offset(
            s,
            k + 1,
        ) > b)
}

/// Char index of the first char starting at or after byte `b`.
pub fn ceil_char_index(v: &[char], b: usize) -> (k: usize)
    requires
        b <= byte_len(v@),
        byte_len(v@) <= usize::MAX,
    ensures
        k == ceil_index(v@, b as int),
        k <= v@.len(),
        byte_offset(v@, k as int) >= b,
        k == 0 || byte_offset(v@, k - 1) < b,
{
    proof {
        lemma_byte_offset_full(v@);
    }
    let n = v.len();
    let mut k: usize = 0;
    let mut off: usize = 0;
    while k < n && off < b
        invariant
            n == v@.len(),
            k <= n,
            off == byte_offset(v@, k as int),
            k == 0 || byte_offset(v@, k - 1) < b,
            byte_offset(v@, n as int) == byte_len(v@),
            byte_len(v@) <= usize::MAX,
        decreases n - k,
    {
        proof {
            lemma_byte_offset_step(v@, k as int);
            lemma_byte_offset_mono(v@, k + 1, n as int);
        }
        off = off + char_utf8_len(v[k]);
        k = k + 1;
    }
    proof {
        let c = ceil_index(v@, b as int);
        assert(0 <= k <= v@.len() && byte_offset(v@, k as int) >= b && (k == 0 || byte_offset(
            v@,
            k - 1,
        ) < b));
        if c < k {
            lemma_byte_offset_mono(v@, c, k - 1);
        }
        if c > k {
            lemma_byte_offset_mono(v@, k as int, c - 1);
        }
    }
    k
}

/// Char index of the last char starting at or before byte `b`.
pub fn floor_char_index(v: &[char], b: usize) -> (k: usize)
    requires
        byte_len(v@) <= usize::MAX,
    ensures
        k == floor_index(v@, b as int),
        k <= v@.len(),
        byte_offset(v@, k as int) <= b,
        k == v@.len() || byte_offset(v@, k + 1) > b,
{
    proof {
        lemma_byte_offset_full(v@);
    }
    let n = v.len();
    let mut k: usize = 0;
    let mut off: usize = 0;
    let mut done = false;
    while k < n && !done
        invariant
            n == v@.len(),
            k <= n,
            off == byte_offset(v@, k as int),
            off <= b,
            done ==> k < n && byte_offset(v@, k + 1) > b,
            byte_offset(v@, n as int) == byte_len(v@),
            byte_len(v@) <= usize::MAX,
        decreases n - k + (if done { 0int } else { 1int }),
    {
        proof {
            lemma_byte_offset_step(v@, k as int);
            lemma_byte_offset_mono(v@, k + 1, n as int);
        }
        let next = off + char_utf8_len(v[k]);
        if next > b {
            done = true;
        } else {
            off = next;
            k = k + 1;
        }
    }
    proof {
        let c = floor_index(v@, b as int);
        assert(0 <= k <= v@.len() && byte_offset(v@, k as int) <= b && (k == v@.len()
            || byte_offset(v@, k + 1) > b));
        if c < k {
            lemma_byte_offset_mono(v@, c + 1, k as int);
        }
        if c > k {
            lemma_byte_offset_mono(v@, k + 1, c);
        }
    }
    k
}

/// Walks `v` to the first char whose byte offset reaches `b` (or to its
/// end): the char index and its byte offset. From these one reads whether
/// `b` is a char boundary and how the byte length compares with `b`.
pub fn walk_to_byte(v: &[char], b: usize) -> (r: (usize, usize))
    requires
        byte_len(v@) <= usize::MAX,
    ensures
        r.0 <= v@.len(),
        r.1 == byte_offset(v@, r.0 as int),
        is_boundary(v@, b as int) <==> r.1 == b,
        r.1 == b ==> char_index_of(v@, b as int) == r.0,
        (byte_len(v@) >= b) <==> r.1 >= b,
        (byte_len(v@) > b) <==> (r.1 > b || (r.1 == b && r.0 < v@.len())),
{
    proof {
        lemma_byte_offset_full(v@);
    }
    let n = v.len();
    let mut k: usize = 0;
    let mut off: usize = 0;
    while k < n && off < b
        invariant
            n == v@.len(),
            k <= n,
            byte_len(v@) <= usize::MAX,
            byte_offset(v@, n as int) == byte_len(v@),
            off == byte_offset(v@, k as int),
            k == 0 || byte_offset(v@, k - 1) < b,
        decreases n - k,
    {
        proof {
            lemma_byte_offset_step(v@, k as int);
            lemma_char_len_pos(v@[k as int]);
            lemma_byte_offset_mono(v@, k + 1, n as int);
        }
        off = off + char_utf8_len(v[k]);
        k = k + 1;
    }
    proof {
        lemma_byte_offset_mono(v@, k as int, n as int);
        if k < n {
            lemma_byte_offset_step(v@, k as int);
            lemma_char_len_pos(v@[k as int]);
            lemma_byte_offset_mono(v@, k + 1, n as int);
        }
        if off != b && is_boundary(v@, b as int) {
            let j = choose|j: int| 0 <= j <= v@.len() && byte_offset(v@, j) == b;
            if j < k {
                lemma_byte_offset_mono(v@, j, k - 1);
            } else {
                lemma_byte_offset_mono(v@, k as int, j);
            }
            assert(false);
        }
        if off == b {
            assert(0 <= k <= v@.len() && byte_offset(v@, k as int) == b);
            let j = char_index_of(v@, b as int);
            lemma_byte_offset_injective(v@, j, k as int);
        }
    }
    (k, off)
}

/// Byte offset of char index `k` of `v`.
pub fn byte_offset_of(v: &[char], k: usize) -> (b: usize)
    requires
        k <= v@.len(),
        byte_len(v@) <= usize::MAX,
    ensures
        b == byte_offset(v@, k as int),
{
    proof {
        lemma_byte_offset_full(v@);
    }
    let mut j: usize = 0;
    let mut off: usize = 0;
    while j < k
        invariant
            j <= k <= v@.len(),
            off == byte_offset(v@, j as int),
            byte_offset(v@, v@.len() as int) == byte_len(v@),
            byte_len(v@) <= usize::MAX,
        decreases k - j,
    {
        proof {
            lemma_byte_offset_step(v@, j as int);
            lemma_byte_offset_mono(v@, j + 1, v@.len() as int);
        }
        off = off + char_utf8_len(v[j]);
        j = j + 1;
    }
    off
}


proof fn ceil_witness(s: Seq<char>, b: int, k: int) -> (c: int)
    requires
        0 <= k <= s.len(),
        b <= byte_len(s),
        k == 0 || byte_offset(s, k - 1) < b,
    ensures
        0 <= c <= s.len() && byte_offset(s, c) >= b && (c == 0 || byte_offset(s, c - 1) < b),
    decreases s.len() - k,
{
    lemma_byte_offset_full(s);
    if byte_offset(s, k) >= b {
        k
    } else {
        ceil_witness(s, b, k + 1)
    }
}

/// `ceil_index` is well defined up to the byte length.
pub proof fn lemma_ceil_index(s: Seq<char>, b: int)
    requires
        b <= byte_len(s),
    ensures
        0 <= ceil_index(s, b) <= s.len(),
        byte_offset(s, ceil_index(s, b)) >= b,
        ceil_index(s, b) == 0 || byte_offset(s, ceil_index(s, b) - 1) < b,
{
    let w = ceil_witness(s, b, 0);
    assert(0 <= w <= s.len() && byte_offset(s, w) >= b && (w == 0 || byte_offset(s, w - 1) < b));
}

proof fn floor_witness(s: Seq<char>, b: int, k: int) -> (c: int)
    requires
        0 <= k <= s.len(),
        byte_offset(s, k) <= b,
    ensures
        0 <= c <= s.len() && byte_offset(s, c) <= b && (c == s.len() || byte_offset(s, c + 1) > b),
    decreases s.len() - k,
{
    if k == s.len() || byte_offset(s, k + 1) > b {
        k
    } else {
        floor_witness(s, b, k + 1)
    }
}

/// `floor_index` is well defined for any byte position from 0 on.
pub proof fn lemma_floor_index(s: Seq<char>, b: int)
    requires
        0 <= b,
    ensures
        0 <= floor_index(s, b) <= s.len(),
        byte_offset(s, floor_index(s, b)) <= b,
        floor_index(s, b) == s.len() || byte_offset(s, floor_index(s, b) + 1) > b,
{
    assert(s.take(0) =~= Seq::<char>::empty());
    let w = floor_witness(s, b, 0);
    assert(0 <= w <= s.len() && byte_offset(s, w) <= b && (w == s.len() || byte_offset(s, w + 1) > b));
}


/// The decimal digit char for `d` (0 to 9).
pub open spec fn digit_char(d: nat) -> char {
    ((d + 48) as u8) as char
}

/// Decimal representation of `n`.
pub open spec fn decimal(n: nat) -> Seq<char>
    decreases n,
{
    if n < 10 {
        seq![digit_char(n)]
    } else {
        decimal(n / 10).push(digit_char(n % 10))
    }
}

/// Appends the decimal representation of `n`.
pub fn push_decimal(s: &mut String, n: usize)
    ensures
        final(s)@ == old(s)@ + decimal(n as nat),
    decreases n,
{
    if n >= 10 {
        push_decimal(s, n / 10);
    }
    let d = ((n % 10) as u8 + 48) as char;
    push_char(s, d);
    proof {
        if n >= 10 {
            assert(final(s)@ =~= old(s)@ + decimal(n as nat));
        } else {
            assert(final(s)@ =~= old(s)@ + decimal(n as nat));
        }
    }
}

/// Appends the decimal representation of the 64-bit number `n`.
pub fn push_decimal_u64(s: &mut String, n: u64)
    ensures
        final(s)@ == old(s)@ + decimal(n as nat),
    decreases n,
{
    if n >= 10 {
        push_decimal_u64(s, n / 10);
    }
    let d = ((n % 10) as u8 + 48) as char;
    push_char(s, d);
    proof {
        assert(final(s)@ =~= old(s)@ + decimal(n as nat));
    }
}

/// The decimal representation of `n` (`usize::to_string`).
pub fn usize_to_string(n: usize) -> (s: String)
    ensures
        s@ == decimal(n as nat),
{
    let mut s = String::new();
    push_decimal(&mut s, n);
    assert(s@ =~= decimal(n as nat));
    s
}

/// Whether `a` and `b` hold the same text (`==` on strings).
pub fn str_eq(a: &str, b: &str) -> (r: bool)
    ensures
        r == (a@ == b@),
{
    let va = chars_of(a);
    let vb = chars_of(b);
    if va.len() != vb.len() {
        return false;
    }
    let mut i: usize = 0;
    while i < va.len()
        invariant
            va@ == a@,
            vb@ == b@,
            va@.len() == vb@.len(),
            i <= va@.len(),
            forall|k: int| 0 <= k < i ==> va@[k] == vb@[k],
        decreases va.len() - i,
    {
        if va[i] != vb[i] {
            return false;
        }
        i = i + 1;
    }
    assert(va@ =~= vb@);
    true
}

} // verus!

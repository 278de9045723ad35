//! Reading decimal integers from text, as `str::parse` does.
use vstd::prelude::*;

verus! {

/// `c` is an ASCII digit.
pub open spec fn is_digit(c: char) -> bool {
    '0' <= c && c <= '9'
}

/// Every char of `d` is an ASCII digit.
pub open spec fn all_digits(d: Seq<char>) -> bool {
    forall|i: int| 0 <= i < d.len() ==> is_digit(#[trigger] d[i])
}

/// The value of the decimal digits `d`.
pub open spec fn digits_val(d: Seq<char>) -> nat
    decreases d.len(),
{
    if d.len() == 0 {
        0
    } else {
        digits_val(d.drop_last()) * 10 + ((d.last() as u32 - '0' as u32) as nat)
    }
}

/// `s` without one leading `+`.
pub open spec fn unsigned_digits(s: Seq<char>) -> Seq<char> {
    if s.len() > 0 && s[0] == '+' { s.drop_first() } else { s }
}

/// `str::parse::<u64>`: an optional `+` and at least one digit, in range.
pub open spec fn parse_u64(s: Seq<char>) -> Option<u64> {
    let d = unsigned_digits(s);
    if d.len() > 0 && all_digits(d) && digits_val(d) <= u64::MAX {
        Some(digits_val(d) as u64)
    } else {
        None
    }
}

/// `str::parse::<i64>`: an optional sign and at least one digit, in range.
pub open spec fn parse_i64(s: Seq<char>) -> Option<i64> {
    if s.len() > 0 && s[0] == '-' {
        let d = s.drop_first();
        if d.len() > 0 && all_digits(d) && digits_val(d) <= 0x8000_0000_0000_0000 {
            Some((-(digits_val(d) as int)) as i64)
        } else {
            None
        }
    } else {
        let d = unsigned_digits(s);
        if d.len() > 0 && all_digits(d) && digits_val(d) <= i64::MAX {
            Some(digits_val(d) as i64)
        } else {
            None
        }
    }
}

proof fn lemma_digits_step(d: Seq<char>, i: int)
    requires
        0 <= i < d.len(),
    ensures
        digits_val(d.take(i + 1)) == digits_val(d.take(i)) * 10 + ((d[i] as u32 - '0' as u32) as nat),
{
    assert(d.take(i + 1).drop_last() =~= d.take(i));
}

proof fn lemma_digits_mono(d: Seq<char>, i: int)
    requires
        0 <= i <= d.len(),
    ensures
        digits_val(d.take(i)) <= digits_val(d),
    decreases d.len() - i,
{
    if i < d.len() {
        lemma_digits_mono(d, i + 1);
        lemma_digits_step(d, i);
    } else {
        assert(d.take(i) =~= d);
    }
}

/// The value of the digits `v[lo..hi]`, or `None` when one is not a digit,
/// there is none, or the value passes `max`.
fn digits_value(v: &[char], lo: usize, hi: usize, max: u64) -> (r: Option<u64>)
    requires
        lo <= hi <= v@.len(),
        max >= 9,
    ensures
        ({
            let d = v@.subrange(lo as int, hi as int);
            r == (if d.len() > 0 && all_digits(d) && digits_val(d) <= max {
                Some(digits_val(d) as u64)
            } else {
                None
            })
        }),
{
    let ghost d = v@.subrange(lo as int, hi as int);
    if lo == hi {
        return None;
    }
    let mut i = lo;
    while i < hi
        invariant
            lo <= i <= hi <= v@.len(),
            d == v@.subrange(lo as int, hi as int),
            forall|k: int| 0 <= k < i - lo ==> is_digit(#[trigger] d[k]),
        decreases hi - i,
    {
        if !(v[i] >= '0' && v[i] <= '9') {
            assert(!is_digit(d[i - lo]));
            return None;
        }
        i = i + 1;
    }
    let mut val: u64 = 0;
    let mut j = lo;
    while j < hi
        invariant
            lo <= j <= hi <= v@.len(),
            d == v@.subrange(lo as int, hi as int),
            all_digits(d),
            val == digits_val(d.take(j - lo)),
            val <= max,
            max >= 9,
        decreases hi - j,
    {
        proof {
            assert(d[j - lo] == v@[j as int]);
            assert(is_digit(d[j - lo]));
            lemma_digits_step(d, j - lo);
        }
        let dig = (v[j] as u32 - '0' as u32) as u64;
        if val > (max - dig) / 10 {
            proof {
                assert(val * 10 + dig > max) by (nonlinear_arith)
                    requires
                        val > (max - dig) / 10,
                        dig <= 9,
                        dig <= max,
                ;
                lemma_digits_mono(d, j - lo + 1);
            }
            return None;
        }
        proof {
            assert(val * 10 + dig <= max) by (nonlinear_arith)
                requires
                    val <= (max - dig) / 10,
                    dig <= max,
            ;
        }
        val = val * 10 + dig;
        j = j + 1;
    }
    proof {
        assert(d.take(hi - lo) =~= d);
    }
    Some(val)
}

/// `str::parse::<u64>` on `v[lo..hi]`.
pub fn parse_u64_chars(v: &[char], lo: usize, hi: usize) -> (r: Option<u64>)
    requires
        lo <= hi <= v@.len(),
    ensures
        r == parse_u64(v@.subrange(lo as int, hi as int)),
{
    let ghost s = v@.subrange(lo as int, hi as int);
    if lo < hi && v[lo] == '+' {
        proof {
            assert(s.drop_first() =~= v@.subrange(lo + 1, hi as int));
        }
        digits_value(v, lo + 1, hi, u64::MAX)
    } else {
        digits_value(v, lo, hi, u64::MAX)
    }
}

/// `str::parse::<i64>` on `v[lo..hi]`.
pub fn parse_i64_chars(v: &[char], lo: usize, hi: usize) -> (r: Option<i64>)
    requires
        lo <= hi <= v@.len(),
    ensures
        r == parse_i64(v@.subrange(lo as int, hi as int)),
{
    let ghost s = v@.subrange(lo as int, hi as int);
    if lo < hi && v[lo] == '-' {
        proof {
            assert(s.drop_first() =~= v@.subrange(lo + 1, hi as int));
        }
        match digits_value(v, lo + 1, hi, 0x8000_0000_0000_0000) {
            Some(n) => {
                if n == 0x8000_0000_0000_0000 {
                    Some(i64::MIN)
                } else {
                    Some(-(n as i64))
                }
            },
            None => None,
        }
    } else if lo < hi && v[lo] == '+' {
        proof {
            assert(s.drop_first() =~= v@.subrange(lo + 1, hi as int));
        }
        match digits_value(v, lo + 1, hi, i64::MAX as u64) {
            Some(n) => Some(n as i64),
            None => None,
        }
    } else {
        match digits_value(v, lo, hi, i64::MAX as u64) {
            Some(n) => Some(n as i64),
            None => None,
        }
    }
}

} // verus!

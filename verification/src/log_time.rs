//! Reading a log entry's time as seconds since the Unix epoch: whole
//! seconds or milliseconds, or an ISO-style date and time.
use vstd::prelude::*;
use crate::chars::{byte_len, byte_offset, char_len, char_index_of, char_utf8_len, chars_of, is_boundary,
    lemma_byte_offset_full, lemma_byte_offset_injective, lemma_byte_offset_mono, lemma_byte_offset_step,
    lemma_char_len_pos};
use crate::log_parse::{index_of, index_of_from, lemma_index_of_bounds, sub_chars};
use crate::numbers::{parse_i64, parse_i64_chars, parse_u64, parse_u64_chars};
use crate::search_types::{trim_ws, trim_str};

verus! {

/// `s` without its trailing `Z`s.
pub open spec fn trim_end_z(s: Seq<char>) -> Seq<char>
    decreases s.len(),
{
    if s.len() > 0 && s.last() == 'Z' {
        trim_end_z(s.drop_last())
    } else {
        s
    }
}

/// Dropping trailing `Z`s leaves a prefix.
pub proof fn lemma_trim_end_z_prefix(s: Seq<char>)
    ensures
        trim_end_z(s).len() <= s.len(),
        trim_end_z(s) =~= s.take(trim_end_z(s).len() as int),
    decreases s.len(),
{
    if s.len() > 0 && s.last() == 'Z' {
        lemma_trim_end_z_prefix(s.drop_last());
    }
}

/// The text before the first `c` (all of `s` when there is none).
pub open spec fn before_char(s: Seq<char>, c: char) -> Seq<char> {
    match index_of_from(s, c, 0) {
        Some(p) => s.take(p),
        None => s,
    }
}

/// The text after the first `c`, when there is one.
pub open spec fn after_char(s: Seq<char>, c: char) -> Option<Seq<char>> {
    match index_of_from(s, c, 0) {
        Some(p) => Some(s.skip(p + 1)),
        None => None,
    }
}

/// A timestamp's date and time, split at its first `T`, else at its first
/// space.
pub open spec fn date_time_split(s: Seq<char>) -> Option<(Seq<char>, Seq<char>)> {
    match index_of_from(s, 'T', 0) {
        Some(p) => Some((s.take(p), s.skip(p + 1))),
        None => match index_of_from(s, ' ', 0) {
            Some(p) => Some((s.take(p), s.skip(p + 1))),
            None => None,
        },
    }
}

/// Year, month and day of a date `y-m-d` (further parts are ignored).
pub open spec fn date_parts(d: Seq<char>) -> Option<(i64, i64, i64)> {
    match (parse_i64(before_char(d, '-')), after_char(d, '-')) {
        (Some(y), Some(r1)) => match (parse_i64(before_char(r1, '-')), after_char(r1, '-')) {
            (Some(m), Some(r2)) => match parse_i64(before_char(r2, '-')) {
                Some(dd) => Some((y, m, dd)),
                None => None,
            },
            _ => None,
        },
        _ => None,
    }
}

/// The time text before any `+` offset.
pub open spec fn time_head(t0: Seq<char>) -> Seq<char> {
    before_char(t0, '+')
}

/// Cutting a time at a `-` offset after its first eight bytes does not
/// slice through a char.
pub open spec fn time_safe(t0: Seq<char>) -> bool {
    byte_len(time_head(t0)) > 8 ==> is_boundary(time_head(t0), 8)
}

/// The time text without an offset: cut at the first `+`, and, past its
/// first eight bytes, at the first `-`.
pub open spec fn time_text(t0: Seq<char>) -> Seq<char> {
    let t1 = time_head(t0);
    if byte_len(t1) > 8 {
        match index_of_from(t1, '-', char_index_of(t1, 8)) {
            Some(p) => t1.take(p),
            None => t1,
        }
    } else {
        t1
    }
}

/// `parse::<i64>` of `s`, 0 when it does not read.
pub open spec fn i64_or_zero(s: Seq<char>) -> i64 {
    match parse_i64(s) {
        Some(v) => v,
        None => 0,
    }
}

/// Hours, minutes and seconds of a time `h:m:s.frac`: the hours must
/// read; missing or unreadable minutes or seconds count as 0, and a
/// fraction of a second is dropped.
pub open spec fn time_parts(t: Seq<char>) -> Option<(i64, i64, i64)> {
    match parse_i64(before_char(t, ':')) {
        None => None,
        Some(h) => match after_char(t, ':') {
            None => Some((h, 0, 0)),
            Some(r1) => {
                let m = i64_or_zero(before_char(r1, ':'));
                match after_char(r1, ':') {
                    None => Some((h, m, 0)),
                    Some(r2) => Some((h, m, i64_or_zero(before_char(before_char(r2, ':'), '.')))),
                }
            },
        },
    }
}

/// Integer division rounding toward zero, as Rust divides.
pub open spec fn trunc_div(a: int, b: int) -> int {
    if a >= 0 {
        a / b
    } else {
        -((-a) / b)
    }
}

/// `x` fits an `i64`.
pub open spec fn in_i64(x: int) -> bool {
    i64::MIN <= x <= i64::MAX
}

/// The year counted from March (January and February belong to the year
/// before).
pub open spec fn march_year(y: int, m: int) -> int {
    if m <= 2 { y - 1 } else { y }
}

/// The 400-year era of a March-based year.
pub open spec fn civil_era(y1: int) -> int {
    trunc_div(if y1 >= 0 { y1 } else { y1 - 399 }, 400)
}

/// The month counted from March (0 for March).
pub open spec fn march_month(m: int) -> int {
    if m > 2 { m - 3 } else { m + 9 }
}

/// The day of the March-based year.
pub open spec fn day_of_year(m: int, d: int) -> int {
    trunc_div(153 * march_month(m) + 2, 5) + d - 1
}

/// The year of the era.
pub open spec fn year_of_era(y1: int) -> int {
    y1 - civil_era(y1) * 400
}

/// The days from 1970-01-01 to the civil date `y-m-d` (proleptic
/// Gregorian calendar).
pub open spec fn civil_days(y: int, m: int, d: int) -> int {
    let y1 = march_year(y, m);
    let yoe = year_of_era(y1);
    let doe = yoe * 365 + yoe / 4 - yoe / 100 + day_of_year(m, d);
    civil_era(y1) * 146097 + doe - 719468
}

/// The seconds from the epoch to a date and time.
pub open spec fn epoch_value(y: int, m: int, d: int, h: int, mi: int, s: int) -> int {
    civil_days(y, m, d) * 86400 + h * 3600 + mi * 60 + s
}

/// Every step of the date arithmetic stays within `i64`.
pub open spec fn civil_fits(y: int, m: int, d: int) -> bool {
    let y1 = march_year(y, m);
    let q = trunc_div(153 * march_month(m) + 2, 5);
    let yoe = year_of_era(y1);
    let doy = day_of_year(m, d);
    let small = yoe * 365 + yoe / 4 - yoe / 100;
    &&& in_i64(y1)
    &&& (y1 < 0 ==> in_i64(y1 - 399))
    &&& in_i64(153 * march_month(m))
    &&& in_i64(153 * march_month(m) + 2)
    &&& in_i64(q + d)
    &&& in_i64(q + d - 1)
    &&& in_i64(small + doy)
    &&& in_i64(civil_era(y1) * 146097)
    &&& in_i64(civil_era(y1) * 146097 + small + doy)
    &&& in_i64(civil_days(y, m, d))
}

/// Every step of the seconds arithmetic stays within `i64`.
pub open spec fn epoch_fits(y: int, m: int, d: int, h: int, mi: int, s: int) -> bool {
    let days = civil_days(y, m, d);
    &&& civil_fits(y, m, d)
    &&& in_i64(days * 86400)
    &&& in_i64(h * 3600)
    &&& in_i64(days * 86400 + h * 3600)
    &&& in_i64(mi * 60)
    &&& in_i64(days * 86400 + h * 3600 + mi * 60)
    &&& in_i64(epoch_value(y, m, d, h, mi, s))
}

/// The fields of a date and time: year, month, day, hours, minutes,
/// seconds.
pub open spec fn datetime_parts(s: Seq<char>) -> Option<(i64, i64, i64, i64, i64, i64)> {
    match date_time_split(trim_end_z(s)) {
        None => None,
        Some((d, t0)) => match date_parts(d) {
            None => None,
            Some((y, m, dd)) => match time_parts(time_text(t0)) {
                None => None,
                Some((h, mi, se)) => Some((y, m, dd, h, mi, se)),
            },
        },
    }
}

/// Reading `s` as a date and time neither slices through a char nor
/// leaves `i64`.
pub open spec fn datetime_fits(s: Seq<char>) -> bool {
    match date_time_split(trim_end_z(s)) {
        None => true,
        Some((d, t0)) => match date_parts(d) {
            None => true,
            Some((y, m, dd)) => time_safe(t0) && match time_parts(time_text(t0)) {
                None => true,
                Some((h, mi, se)) => epoch_fits(y as int, m as int, dd as int, h as int, mi as int, se as int),
            },
        },
    }
}

/// The seconds since the epoch of a date and time `y-m-dTh:m:s` (or with
/// a space for `T`), when it reads and is not before the epoch.
pub open spec fn datetime_epoch(s: Seq<char>) -> Option<u64> {
    match datetime_parts(s) {
        None => None,
        Some((y, m, dd, h, mi, se)) => {
            let e = epoch_value(y as int, m as int, dd as int, h as int, mi as int, se as int);
            if e >= 0 {
                Some(e as u64)
            } else {
                None
            }
        },
    }
}

/// The time of a field value: whole seconds (milliseconds above ten
/// billion, divided by 1000); else `float_secs`, what the value read as
/// a positive decimal number gives; else a date and time.
pub open spec fn epoch_secs(val: Seq<char>, float_secs: Option<u64>) -> Option<u64> {
    let t = trim_ws(val);
    match parse_u64(t) {
        Some(n) => Some(if n > 10_000_000_000 { (n / 1000) as u64 } else { n }),
        None => match float_secs {
            Some(f) => Some(f),
            None => datetime_epoch(t),
        },
    }
}

/// Reading `val` as a time stays within bounds.
pub open spec fn epoch_text_fits(val: Seq<char>, float_secs: Option<u64>) -> bool {
    let t = trim_ws(val);
    parse_u64(t) is None && float_secs is None ==> datetime_fits(t)
}

proof fn lemma_trunc_div_bound(a: int, b: int)
    requires
        b >= 1,
    ensures
        -(if a >= 0 { a } else { -a }) <= trunc_div(a, b) <= (if a >= 0 { a } else { -a }),
{
    if a >= 0 {
        assert(a / b <= a) by (nonlinear_arith)
            requires
                a >= 0,
                b >= 1,
        ;
        assert(a / b >= 0) by (nonlinear_arith)
            requires
                a >= 0,
                b >= 1,
        ;
    } else {
        assert((-a) / b <= -a) by (nonlinear_arith)
            requires
                -a >= 0,
                b >= 1,
        ;
        assert((-a) / b >= 0) by (nonlinear_arith)
            requires
                -a >= 0,
                b >= 1,
        ;
    }
}

/// `a / b` rounding toward zero, for a positive `b`.
fn trunc_div_wide(a: i128, b: i128) -> (r: i128)
    requires
        b >= 1,
        a > i128::MIN,
    ensures
        r == trunc_div(a as int, b as int),
{
    if a >= 0 {
        ((a as u128) / (b as u128)) as i128
    } else {
        let q = ((-a) as u128) / (b as u128);
        proof {
            lemma_trunc_div_bound(a as int, b as int);
        }
        -(q as i128)
    }
}

/// The days from the epoch to `y-m-d`, and whether the arithmetic stays
/// within `i64` on the way.
fn civil_days_wide(y: i64, m: i64, d: i64) -> (r: (i128, bool))
    ensures
        r.0 == civil_days(y as int, m as int, d as int),
        r.1 == civil_fits(y as int, m as int, d as int),
{
    let lo = i64::MIN as i128;
    let hi = i64::MAX as i128;
    let y = y as i128;
    let m = m as i128;
    let d = d as i128;
    let y1: i128 = if m <= 2 { y - 1 } else { y };
    let ok1 = lo <= y1 && y1 <= hi;
    let base: i128 = if y1 >= 0 { y1 } else { y1 - 399 };
    let ok2 = y1 >= 0 || (lo <= base && base <= hi);
    let era = trunc_div_wide(base, 400);
    proof {
        lemma_trunc_div_bound(base as int, 400);
    }
    let yoe: i128 = y1 - era * 400;
    proof {
        assert(0 <= yoe <= 399) by {
            if base >= 0 {
                assert(base == 400 * (base / 400) + base % 400) by (nonlinear_arith)
                    requires
                        base >= 0,
                ;
            } else {
                assert((-base) == 400 * ((-base) / 400) + (-base) % 400) by (nonlinear_arith)
                    requires
                        -base >= 0,
                ;
            }
        }
    }
    let mm: i128 = if m > 2 { m - 3 } else { m + 9 };
    let a = 153 * mm;
    let ok3 = lo <= a && a <= hi && lo <= a + 2 && a + 2 <= hi;
    let q = trunc_div_wide(a + 2, 5);
    proof {
        lemma_trunc_div_bound((a + 2) as int, 5);
    }
    let ok4 = lo <= q + d && q + d <= hi && lo <= q + d - 1 && q + d - 1 <= hi;
    let doy = q + d - 1;
    let small = yoe * 365 + yoe / 4 - yoe / 100;
    proof {
        assert(0 <= yoe / 4 <= 99) by (nonlinear_arith)
            requires
                0 <= yoe <= 399,
        ;
        assert(0 <= yoe / 100 <= 3) by (nonlinear_arith)
            requires
                0 <= yoe <= 399,
        ;
    }
    let ok5 = lo <= small + doy && small + doy <= hi;
    let e = era * 146097;
    let ok6 = lo <= e && e <= hi && lo <= e + small + doy && e + small + doy <= hi;
    let days = e + small + doy - 719468;
    let ok7 = lo <= days && days <= hi;
    (days, ok1 && ok2 && ok3 && ok4 && ok5 && ok6 && ok7)
}

/// The seconds from the epoch to a date and time, and whether the
/// arithmetic stays within `i64` on the way.
fn epoch_value_wide(y: i64, m: i64, d: i64, h: i64, mi: i64, s: i64) -> (r: (i128, bool))
    ensures
        r.1 == epoch_fits(y as int, m as int, d as int, h as int, mi as int, s as int),
        r.1 ==> r.0 == epoch_value(y as int, m as int, d as int, h as int, mi as int, s as int),
{
    let (days, ok) = civil_days_wide(y, m, d);
    if !ok {
        return (0, false);
    }
    let lo = i64::MIN as i128;
    let hi = i64::MAX as i128;
    let a = days * 86400;
    let b = (h as i128) * 3600;
    let c = (mi as i128) * 60;
    let fits = lo <= a && a <= hi && lo <= b && b <= hi && lo <= a + b && a + b <= hi && lo <= c && c <= hi
        && lo <= a + b + c && a + b + c <= hi && lo <= a + b + c + (s as i128) && a + b + c + (s as i128) <= hi;
    if fits {
        (a + b + c + (s as i128), true)
    } else {
        (0, false)
    }
}

/// `parse::<i64>` of the whole of `v`.
fn parse_i64_vec(v: &Vec<char>) -> (r: Option<i64>)
    ensures
        r == parse_i64(v@),
{
    proof {
        assert(v@.subrange(0, v@.len() as int) =~= v@);
    }
    parse_i64_chars(v.as_slice(), 0, v.len())
}

/// `v` without its trailing `Z`s.
pub(crate) fn trim_end_z_vec(v: &Vec<char>) -> (r: Vec<char>)
    ensures
        r@ == trim_end_z(v@),
{
    let mut n = v.len();
    proof {
        assert(v@.take(n as int) =~= v@);
    }
    while n > 0 && v[n - 1] == 'Z'
        invariant
            n <= v@.len(),
            trim_end_z(v@) == trim_end_z(v@.take(n as int)),
        decreases n,
    {
        proof {
            assert(v@.take(n as int).drop_last() =~= v@.take(n - 1));
        }
        n = n - 1;
    }
    proof {
        assert(v@.subrange(0, n as int) =~= v@.take(n as int));
    }
    sub_chars(v, 0, n)
}

/// The text before the first `c`.
pub(crate) fn before_char_vec(v: &Vec<char>, c: char) -> (r: Vec<char>)
    ensures
        r@ == before_char(v@, c),
{
    proof {
        lemma_index_of_bounds(v@, c, 0);
    }
    match index_of(v, c, 0) {
        Some(p) => {
            proof {
                assert(v@.subrange(0, p as int) =~= v@.take(p as int));
            }
            sub_chars(v, 0, p)
        },
        None => {
            proof {
                assert(v@.subrange(0, v@.len() as int) =~= v@);
            }
            sub_chars(v, 0, v.len())
        },
    }
}

/// The text after the first `c`, when there is one.
pub(crate) fn after_char_vec(v: &Vec<char>, c: char) -> (r: Option<Vec<char>>)
    ensures
        match r {
            Some(w) => after_char(v@, c) == Some(w@),
            None => after_char(v@, c) is None,
        },
{
    proof {
        lemma_index_of_bounds(v@, c, 0);
    }
    let n = v.len();
    match index_of(v, c, 0) {
        Some(p) => {
            proof {
                assert(v@.subrange(p + 1, v@.len() as int) =~= v@.skip(p + 1));
            }
            Some(sub_chars(v, p + 1, n))
        },
        None => None,
    }
}

/// A timestamp's date and time (see `date_time_split`).
fn date_time_split_vec(v: &Vec<char>) -> (r: Option<(Vec<char>, Vec<char>)>)
    ensures
        match r {
            Some((d, t)) => date_time_split(v@) == Some((d@, t@)),
            None => date_time_split(v@) is None,
        },
{
    proof {
        lemma_index_of_bounds(v@, 'T', 0);
        lemma_index_of_bounds(v@, ' ', 0);
    }
    let n = v.len();
    let sep = match index_of(v, 'T', 0) {
        Some(p) => p,
        None => match index_of(v, ' ', 0) {
            Some(p) => p,
            None => return None,
        },
    };
    proof {
        assert(v@.subrange(0, sep as int) =~= v@.take(sep as int));
        assert(v@.subrange(sep + 1, v@.len() as int) =~= v@.skip(sep + 1));
    }
    Some((sub_chars(v, 0, sep), sub_chars(v, sep + 1, n)))
}

/// Year, month and day of a date (see `date_parts`).
fn date_parts_vec(d: &Vec<char>) -> (r: Option<(i64, i64, i64)>)
    ensures
        r == date_parts(d@),
{
    let y = parse_i64_vec(&before_char_vec(d, '-'));
    let r1 = after_char_vec(d, '-');
    let (y, r1) = match (y, r1) {
        (Some(y), Some(r1)) => (y, r1),
        _ => return None,
    };
    let m = parse_i64_vec(&before_char_vec(&r1, '-'));
    let r2 = after_char_vec(&r1, '-');
    let (m, r2) = match (m, r2) {
        (Some(m), Some(r2)) => (m, r2),
        _ => return None,
    };
    match parse_i64_vec(&before_char_vec(&r2, '-')) {
        Some(dd) => Some((y, m, dd)),
        None => None,
    }
}

/// The time text without an offset (see `time_text`), and whether cutting
/// it is safe (`time_safe`).
fn time_text_vec(t0: &Vec<char>) -> (r: (Vec<char>, bool))
    ensures
        r.1 == time_safe(t0@),
        r.1 ==> r.0@ == time_text(t0@),
{
    let t1 = before_char_vec(t0, '+');
    let n = t1.len();
    let mut k: usize = 0;
    let mut off: usize = 0;
    while k < n && off < 8
        invariant
            n == t1@.len(),
            k <= n,
            off == byte_offset(t1@, k as int),
            off < 12,
            k == 0 || byte_offset(t1@, k - 1) < 8,
        decreases n - k,
    {
        proof {
            lemma_byte_offset_step(t1@, k as int);
            lemma_char_len_pos(t1@[k as int]);
        }
        off = off + char_utf8_len(t1[k]);
        k = k + 1;
    }
    proof {
        lemma_byte_offset_full(t1@);
        lemma_byte_offset_mono(t1@, k as int, n as int);
        if k < n {
            lemma_byte_offset_step(t1@, k as int);
            lemma_char_len_pos(t1@[k as int]);
            lemma_byte_offset_mono(t1@, k + 1, n as int);
        }
        if off > 8 && is_boundary(t1@, 8) {
            let j = choose|j: int| 0 <= j <= t1@.len() && byte_offset(t1@, j) == 8;
            if j < k {
                lemma_byte_offset_mono(t1@, j, k - 1);
            } else {
                lemma_byte_offset_mono(t1@, k as int, j);
            }
            assert(false);
        }
    }
    if off == 8 && k < n {
        proof {
            assert(is_boundary(t1@, 8));
            let j = char_index_of(t1@, 8);
            lemma_byte_offset_injective(t1@, j, k as int);
            lemma_index_of_bounds(t1@, '-', k as int);
        }
        match index_of(&t1, '-', k) {
            Some(p) => {
                proof {
                    assert(t1@.subrange(0, p as int) =~= t1@.take(p as int));
                }
                (sub_chars(&t1, 0, p), true)
            },
            None => (t1, true),
        }
    } else if off > 8 {
        (t1, false)
    } else {
        (t1, true)
    }
}

/// Hours, minutes and seconds of a time (see `time_parts`).
fn time_parts_vec(t: &Vec<char>) -> (r: Option<(i64, i64, i64)>)
    ensures
        r == time_parts(t@),
{
    let h = match parse_i64_vec(&before_char_vec(t, ':')) {
        Some(h) => h,
        None => return None,
    };
    let r1 = match after_char_vec(t, ':') {
        Some(r1) => r1,
        None => return Some((h, 0, 0)),
    };
    let m = match parse_i64_vec(&before_char_vec(&r1, ':')) {
        Some(m) => m,
        None => 0,
    };
    let r2 = match after_char_vec(&r1, ':') {
        Some(r2) => r2,
        None => return Some((h, m, 0)),
    };
    let sec = match parse_i64_vec(&before_char_vec(&before_char_vec(&r2, ':'), '.')) {
        Some(s) => s,
        None => 0,
    };
    Some((h, m, sec))
}

/// The seconds since the epoch of a date and time (see `datetime_epoch`),
/// and whether reading it stays within bounds (`datetime_fits`).
fn datetime_epoch_vec(s: &Vec<char>) -> (r: (Option<u64>, bool))
    ensures
        r.1 == datetime_fits(s@),
        r.1 ==> r.0 == datetime_epoch(s@),
{
    let z = trim_end_z_vec(s);
    let (d, t0) = match date_time_split_vec(&z) {
        Some(p) => p,
        None => return (None, true),
    };
    let (y, m, dd) = match date_parts_vec(&d) {
        Some(p) => p,
        None => return (None, true),
    };
    let (t, safe) = time_text_vec(&t0);
    if !safe {
        return (None, false);
    }
    let (h, mi, se) = match time_parts_vec(&t) {
        Some(p) => p,
        None => return (None, true),
    };
    let (e, fits) = epoch_value_wide(y, m, dd, h, mi, se);
    if !fits {
        return (None, false);
    }
    if e >= 0 {
        (Some(e as u64), true)
    } else {
        (None, true)
    }
}

/// The time of an entry's field value, in seconds since the epoch (see
/// `epoch_secs`); `float_secs` is what the value, trimmed and read as a
/// positive decimal number, gives (milliseconds above ten billion
/// divided by 1000), or `None` when it does not read so.
pub fn parse_epoch_secs(val: &str, float_secs: Option<u64>) -> (r: Option<u64>)
    requires
        epoch_text_fits(val@, float_secs),
    ensures
        r == epoch_secs(val@, float_secs),
{
    let t = trim_str(val);
    let tv = chars_of(t.as_str());
    proof {
        assert(tv@.subrange(0, tv@.len() as int) =~= tv@);
    }
    match parse_u64_chars(tv.as_slice(), 0, tv.len()) {
        Some(n) => Some(if n > 10_000_000_000 { n / 1000 } else { n }),
        None => match float_secs {
            Some(f) => Some(f),
            None => datetime_epoch_vec(&tv).0,
        },
    }
}

/// Whether reading `val` as a time stays within bounds (see
/// `epoch_text_fits`); a value for which this fails would make the
/// date arithmetic overflow or cut through a char.
pub fn epoch_text_in_bounds(val: &str, float_secs: Option<u64>) -> (b: bool)
    ensures
        b == epoch_text_fits(val@, float_secs),
{
    let t = trim_str(val);
    let tv = chars_of(t.as_str());
    proof {
        assert(tv@.subrange(0, tv@.len() as int) =~= tv@);
    }
    if parse_u64_chars(tv.as_slice(), 0, tv.len()).is_some() || float_secs.is_some() {
        true
    } else {
        datetime_epoch_vec(&tv).1
    }
}

} // verus!

//! Laying out the log viewer's table: which columns fit, how wide the row
//! numbers are, and how cells are cut and padded.
use vstd::prelude::*;
use crate::chars::{chars_of, decimal, push_char, string_from_chars, to_owned_string, usize_to_string};
use crate::log_types::ColumnConfig;

verus! {

/// Columns are two spaces apart.
pub const COL_SEP_LEN: usize = 2;

/// How many of the columns of widths `ws` fit in `area` chars, laid out
/// from the first, `used` chars being taken already; the first column
/// shown always counts.
pub open spec fn fit_count(ws: Seq<usize>, area: int, used: int, first: bool) -> nat
    decreases ws.len(),
{
    if ws.len() == 0 {
        0
    } else {
        let needed = ws[0] + (if first { 0int } else { 2int });
        if used + needed > area && !first {
            0
        } else {
            1 + fit_count(ws.drop_first(), area, used + needed, false)
        }
    }
}

/// Laying out the columns does not overflow: every sum stays within
/// `usize`.
pub open spec fn fit_in_bounds(ws: Seq<usize>, area: int, used: int, first: bool) -> bool
    decreases ws.len(),
{
    if ws.len() == 0 {
        true
    } else {
        let needed = ws[0] + (if first { 0int } else { 2int });
        &&& needed <= usize::MAX
        &&& used + needed <= usize::MAX
        &&& (used + needed > area && !first || fit_in_bounds(ws.drop_first(), area, used + needed, false))
    }
}

/// The widths of the columns.
pub open spec fn widths(cols: Seq<ColumnConfig>) -> Seq<usize> {
    cols.map_values(|c: ColumnConfig| c.width)
}

/// How many columns from `start` fit in `area` chars (see `fit_count`).
fn count_fitting(cols: &[ColumnConfig], start: usize, area: usize) -> (n: usize)
    requires
        start <= cols@.len(),
        fit_in_bounds(widths(cols@).skip(start as int), area as int, 0, true),
    ensures
        n == fit_count(widths(cols@).skip(start as int), area as int, 0, true),
        n <= cols@.len() - start,
{
    let ghost ws = widths(cols@);
    let mut used: usize = 0;
    let mut count: usize = 0;
    let mut i = start;
    while i < cols.len()
        invariant
            start <= i <= cols@.len(),
            count == i - start,
            ws == widths(cols@),
            fit_count(ws.skip(start as int), area as int, 0, true) == count + fit_count(ws.skip(i as int), area as int, used as int, count == 0),
            fit_in_bounds(ws.skip(i as int), area as int, used as int, count == 0),
        decreases cols@.len() - i,
    {
        let ghost rest = ws.skip(i as int);
        proof {
            assert(rest[0] == cols@[i as int].width);
            assert(rest.drop_first() =~= ws.skip(i + 1));
        }
        let sep: usize = if count > 0 { COL_SEP_LEN } else { 0 };
        let needed = cols[i].width + sep;
        if used + needed > area && count > 0 {
            proof {
                assert(fit_count(rest, area as int, used as int, false) == 0);
            }
            return count;
        }
        used = used + needed;
        count = count + 1;
        i = i + 1;
    }
    proof {
        assert(ws.skip(i as int) =~= Seq::<usize>::empty());
    }
    count
}

/// The first shown column and how many fit in `area_width` chars from it
/// (the first shown counts even when it is too wide).
pub fn visible_col_range(cols: &[ColumnConfig], col_scroll: usize, area_width: usize) -> (r: (usize, usize))
    requires
        fit_in_bounds(widths(cols@).skip(crate::log_filter::min(col_scroll as int, crate::log_filter::sat_sub(cols@.len() as int, 1))),
            area_width as int, 0, true),
    ensures
        r.0 == crate::log_filter::min(col_scroll as int, crate::log_filter::sat_sub(cols@.len() as int, 1)),
        r.1 == fit_count(widths(cols@).skip(r.0 as int), area_width as int, 0, true),
{
    let last = if cols.len() > 0 { cols.len() - 1 } else { 0 };
    let start = if col_scroll < last { col_scroll } else { last };
    if cols.len() == 0 {
        proof {
            assert(widths(cols@).skip(0) =~= Seq::<usize>::empty());
        }
        return (0, 0);
    }
    (start, count_fitting(cols, start, area_width))
}

/// The first column to show so that the selected one (the last at most)
/// is shown: the first from `s` on from which it fits.
pub open spec fn scroll_from(ws: Seq<usize>, sel: int, s: int, area: int) -> int
    decreases sel - s,
{
    if s >= sel || s + fit_count(ws.skip(s), area, 0, true) - 1 >= sel {
        s
    } else {
        scroll_from(ws, sel, s + 1, area)
    }
}

/// The column scroll that shows the selected column: 0 without columns
/// or width; else the first scroll from the current one (but not past the
/// selected column) from which the selected column fits.
pub open spec fn col_scroll_for(ws: Seq<usize>, selected: int, current: int, area: int) -> int {
    if ws.len() == 0 || area == 0 {
        0
    } else {
        let sel = crate::log_filter::min(selected, ws.len() - 1);
        scroll_from(ws, sel, crate::log_filter::min(current, sel), area)
    }
}

proof fn lemma_scroll_from(ws: Seq<usize>, sel: int, s: int, area: int)
    requires
        0 <= s <= sel < ws.len(),
    ensures
        s <= scroll_from(ws, sel, s, area) <= sel,
        scroll_from(ws, sel, s, area) + fit_count(ws.skip(scroll_from(ws, sel, s, area)), area, 0, true) - 1 >= sel,
    decreases sel - s,
{
    if s >= sel {
        assert(ws.skip(s).len() > 0);
    } else if s + fit_count(ws.skip(s), area, 0, true) - 1 < sel {
        lemma_scroll_from(ws, sel, s + 1, area);
    }
}

/// The column scroll always shows the selected column (the last one when
/// the selection is past the end): the scroll is at most the selected
/// column, and the columns that fit from the scroll on reach it. It never
/// moves right of where it was unless the selected column is there.
pub proof fn lemma_col_scroll_shows_selected(ws: Seq<usize>, selected: int, current: int, area: int)
    requires
        ws.len() > 0,
        area > 0,
        0 <= selected,
        0 <= current,
    ensures
        ({
            let sel = crate::log_filter::min(selected, ws.len() - 1);
            let r = col_scroll_for(ws, selected, current, area);
            &&& 0 <= r <= sel
            &&& r + fit_count(ws.skip(r), area, 0, true) - 1 >= sel
            &&& r >= crate::log_filter::min(current, sel)
        }),
{
    let sel = crate::log_filter::min(selected, ws.len() - 1);
    lemma_scroll_from(ws, sel, crate::log_filter::min(current, sel), area);
}

/// Laying out from every start the scroll may take stays within bounds.
pub open spec fn scroll_in_bounds(ws: Seq<usize>, area: int) -> bool {
    forall|s: int| 0 <= s < ws.len() ==> #[trigger] fit_in_bounds(ws.skip(s), area, 0, true)
}

/// The column scroll that keeps the selected column shown (see
/// `col_scroll_for`).
pub fn compute_col_scroll(cols: &[ColumnConfig], selected: usize, current_scroll: usize, area_width: usize) -> (r: usize)
    requires
        scroll_in_bounds(widths(cols@), area_width as int),
    ensures
        r == col_scroll_for(widths(cols@), selected as int, current_scroll as int, area_width as int),
{
    if cols.len() == 0 || area_width == 0 {
        return 0;
    }
    let sel = if selected < cols.len() - 1 { selected } else { cols.len() - 1 };
    let mut scroll = if current_scroll < sel { current_scroll } else { sel };
    let ghost ws = widths(cols@);
    loop
        invariant
            scroll <= sel < cols@.len(),
            ws == widths(cols@),
            scroll_in_bounds(ws, area_width as int),
            col_scroll_for(ws, selected as int, current_scroll as int, area_width as int) == scroll_from(ws, sel as int, scroll as int, area_width as int),
            area_width > 0,
            sel == crate::log_filter::min(selected as int, ws.len() - 1),
        decreases sel - scroll,
    {
        proof {
            assert(fit_in_bounds(ws.skip(scroll as int), area_width as int, 0, true));
            assert(ws.skip(scroll as int)[0] == cols@[scroll as int].width);
        }
        let count = count_fitting(cols, scroll, area_width);
        proof {
            assert(count >= 1);
        }
        if count - 1 >= sel - scroll {
            return scroll;
        }
        scroll = scroll + 1;
    }
}

/// The width of the row numbers: the digits of `total` (1 for 0).
pub open spec fn num_width_of(total: nat) -> nat {
    if total == 0 { 1 } else { decimal(total).len() }
}

/// How many chars the number `total` takes.
pub fn num_width(total: usize) -> (w: usize)
    ensures
        w == num_width_of(total as nat),
{
    if total == 0 {
        1
    } else {
        let s = usize_to_string(total);
        s.as_str().unicode_len()
    }
}

/// The width before a row: its number and three more chars.
pub fn prefix_width(total: usize) -> (w: usize)
    ensures
        w == num_width_of(total as nat) + 3,
{
    proof {
        lemma_decimal_short(total as nat);
    }
    num_width(total) + 3
}

/// Ten to the power `k`.
pub open spec fn pow10(k: nat) -> nat
    decreases k,
{
    if k == 0 { 1 } else { 10 * pow10((k - 1) as nat) }
}

/// A number below `10^k` has at most `k` digits.
proof fn lemma_decimal_len(n: nat, k: nat)
    requires
        k >= 1,
        n < pow10(k),
    ensures
        decimal(n).len() <= k,
    decreases k,
{
    if n >= 10 {
        assert(k >= 2) by {
            if k == 1 {
                assert(pow10(1) == 10 * pow10(0));
            }
        }
        let p = pow10((k - 1) as nat);
        assert(pow10(k) == 10 * p);
        assert(n / 10 < p) by (nonlinear_arith)
            requires
                n < 10 * p,
        ;
        lemma_decimal_len(n / 10, (k - 1) as nat);
    }
}

proof fn lemma_decimal_short(n: nat)
    requires
        n <= usize::MAX,
    ensures
        decimal(n).len() <= 20,
{
    assert(pow10(20) == 100000000000000000000) by {
        reveal_with_fuel(pow10, 21);
    }
    lemma_decimal_len(n, 20);
}

/// `s` cut to `width` chars, an ellipsis standing for what was cut.
pub open spec fn truncated(s: Seq<char>, width: nat) -> Seq<char> {
    if s.len() <= width {
        s
    } else if width <= 1 {
        seq!['\u{2026}']
    } else {
        s.take(width - 1) + seq!['\u{2026}']
    }
}

/// `s` cut to `width` chars (see `truncated`).
pub fn truncate_str(s: &str, width: usize) -> (r: String)
    ensures
        r@ == truncated(s@, width as nat),
{
    let v = chars_of(s);
    if v.len() <= width {
        return to_owned_string(s);
    }
    if width <= 1 {
        let mut r = String::new();
        push_char(&mut r, '\u{2026}');
        return r;
    }
    let mut r = string_from_chars(v.as_slice(), 0, width - 1);
    push_char(&mut r, '\u{2026}');
    proof {
        assert(v@.subrange(0, width - 1) =~= v@.take(width - 1));
    }
    r
}

/// `s` padded with spaces to `width` chars.
pub open spec fn padded(s: Seq<char>, width: nat) -> Seq<char> {
    if s.len() >= width { s } else { s + Seq::new((width - s.len()) as nat, |i: int| ' ') }
}

/// `s` padded with spaces to `width` chars (see `padded`).
pub fn pad_right(s: &str, width: usize) -> (r: String)
    ensures
        r@ == padded(s@, width as nat),
{
    let len = s.unicode_len();
    let mut r = to_owned_string(s);
    if len >= width {
        return r;
    }
    let mut k = len;
    while k < width
        invariant
            len <= k <= width,
            len == s@.len(),
            r@ == s@ + Seq::new((k - len) as nat, |i: int| ' '),
        decreases width - k,
    {
        push_char(&mut r, ' ');
        proof {
            assert(r@ =~= s@ + Seq::new((k + 1 - len) as nat, |i: int| ' '));
        }
        k = k + 1;
    }
    r
}

/// Whether a column shows an entry's time (by its lower-cased name).
pub fn is_timestamp_field(field: &str) -> (b: bool)
    ensures
        b == crate::log_query::is_timestamp_name(crate::chars::ascii_lower_seq(field@)),
{
    let lower = crate::chars::str_to_ascii_lowercase(field);
    let l = lower.as_str();
    crate::chars::str_eq(l, "time") || crate::chars::str_eq(l, "timestamp") || crate::chars::str_eq(l, "ts")
        || crate::chars::str_eq(l, "datetime") || crate::chars::str_eq(l, "date") || crate::chars::str_eq(l, "@timestamp")
}

} // verus!

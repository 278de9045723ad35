//! Searching the preview document for the search query.
use vstd::prelude::*;
use crate::buffer::{spec_lines, line_text, lemma_lines_bounds, pairs_match};
use crate::chars::{chars_of, occurs_at, find_from};
use crate::editor::{App, text_of, same_but_cursor};

verus! {

/// Start indices of the non-overlapping occurrences of `q` in `l` at or
/// after `from`, leftmost first (as `str::match_indices` finds them).
pub open spec fn occ_from(l: Seq<char>, q: Seq<char>, from: int) -> Seq<int>
    decreases l.len() - from,
{
    if q.len() == 0 || from < 0 || from + q.len() > l.len() {
        seq![]
    } else if occurs_at(l, q, from) {
        seq![from] + occ_from(l, q, from + q.len())
    } else {
        occ_from(l, q, from + 1)
    }
}

/// Display column of index `k` of `l`: tabs count 4 columns, other chars 1.
pub open spec fn disp_col(l: Seq<char>, k: int) -> int
    decreases k,
{
    if k <= 0 {
        0
    } else {
        disp_col(l, k - 1) + if l[k - 1] == '\t' {
            4int
        } else {
            1int
        }
    }
}

/// The matches of `q` on line `i` of `s`: line and display column of each.
pub open spec fn line_hits(s: Seq<char>, q: Seq<char>, i: int) -> Seq<(int, int)> {
    let l = line_text(s, spec_lines(s)[i]);
    occ_from(l, q, 0).map_values(|k: int| (i, disp_col(l, k)))
}

/// The matches of `q` on the first `n` lines of `s`, in order.
pub open spec fn hits_upto(s: Seq<char>, q: Seq<char>, n: int) -> Seq<(int, int)>
    decreases n,
{
    if n <= 0 {
        seq![]
    } else {
        hits_upto(s, q, n - 1) + line_hits(s, q, n - 1)
    }
}

/// `a` comes before `b` (line first, then column).
pub open spec fn pos_lt(a: (int, int), b: (int, int)) -> bool {
    a.0 < b.0 || (a.0 == b.0 && a.1 < b.1)
}

/// The first of `ms[j..]` after `cur`.
pub open spec fn first_after(ms: Seq<(int, int)>, cur: (int, int), j: int) -> Option<(int, int)>
    decreases ms.len() - j,
{
    if j < 0 || j >= ms.len() {
        None
    } else if pos_lt(cur, ms[j]) {
        Some(ms[j])
    } else {
        first_after(ms, cur, j + 1)
    }
}

/// The last of `ms[..j]` before `cur`.
pub open spec fn last_prior(ms: Seq<(int, int)>, cur: (int, int), j: int) -> Option<(int, int)>
    decreases j,
{
    if j <= 0 || j > ms.len() {
        None
    } else if pos_lt(ms[j - 1], cur) {
        Some(ms[j - 1])
    } else {
        last_prior(ms, cur, j - 1)
    }
}

/// Where a search from `cur` among the matches `ms` (not empty) lands: the
/// next match after it (`forward`) or the last before it, wrapping around.
pub open spec fn search_landing(ms: Seq<(int, int)>, cur: (int, int), forward: bool) -> (int, int) {
    if forward {
        match first_after(ms, cur, 0) {
            Some(m) => m,
            None => ms[0],
        }
    } else {
        match last_prior(ms, cur, ms.len() as int) {
            Some(m) => m,
            None => ms.last(),
        }
    }
}

proof fn lemma_first_after(ms: Seq<(int, int)>, cur: (int, int), j: int) -> (i: int)
    requires
        0 <= j,
    ensures
        match first_after(ms, cur, j) {
            Some(m) => j <= i < ms.len() && ms[i] == m && pos_lt(cur, m)
                && forall|k: int| j <= k < i ==> !pos_lt(cur, #[trigger] ms[k]),
            None => forall|k: int| j <= k < ms.len() ==> !pos_lt(cur, #[trigger] ms[k]),
        },
    decreases ms.len() - j,
{
    if j >= ms.len() {
        j
    } else if pos_lt(cur, ms[j]) {
        j
    } else {
        lemma_first_after(ms, cur, j + 1)
    }
}

proof fn lemma_last_prior(ms: Seq<(int, int)>, cur: (int, int), j: int) -> (i: int)
    requires
        j <= ms.len(),
    ensures
        match last_prior(ms, cur, j) {
            Some(m) => 0 <= i < j && ms[i] == m && pos_lt(m, cur)
                && forall|k: int| i < k < j ==> !pos_lt(#[trigger] ms[k], cur),
            None => forall|k: int| 0 <= k < j ==> !pos_lt(#[trigger] ms[k], cur),
        },
    decreases j,
{
    if j <= 0 {
        j
    } else if pos_lt(ms[j - 1], cur) {
        j - 1
    } else {
        lemma_last_prior(ms, cur, j - 1)
    }
}

/// A search lands on a match: going forward, on the first match in the
/// list that comes after the cursor, or, when none does, on the first
/// match (wrapping around); going back, on the last match in the list
/// that comes before the cursor, or, when none does, on the last match.
pub proof fn lemma_search_lands_on_next_match(ms: Seq<(int, int)>, cur: (int, int))
    requires
        ms.len() > 0,
    ensures
        (exists|j: int| 0 <= j < ms.len() && pos_lt(cur, #[trigger] ms[j])) ==> exists|i: int|
            0 <= i < ms.len() && #[trigger] ms[i] == search_landing(ms, cur, true) && pos_lt(cur, ms[i])
                && forall|k: int| 0 <= k < i ==> !pos_lt(cur, #[trigger] ms[k]),
        (forall|j: int| 0 <= j < ms.len() ==> !pos_lt(cur, #[trigger] ms[j])) ==> search_landing(ms, cur, true) == ms[0],
        (exists|j: int| 0 <= j < ms.len() && pos_lt(#[trigger] ms[j], cur)) ==> exists|i: int|
            0 <= i < ms.len() && #[trigger] ms[i] == search_landing(ms, cur, false) && pos_lt(ms[i], cur)
                && forall|k: int| i < k < ms.len() ==> !pos_lt(#[trigger] ms[k], cur),
        (forall|j: int| 0 <= j < ms.len() ==> !pos_lt(#[trigger] ms[j], cur)) ==> search_landing(ms, cur, false) == ms.last(),
{
    let i = lemma_first_after(ms, cur, 0);
    let i2 = lemma_last_prior(ms, cur, ms.len() as int);
    if first_after(ms, cur, 0) is Some {
        assert(ms[i] == search_landing(ms, cur, true));
    }
    if last_prior(ms, cur, ms.len() as int) is Some {
        assert(ms[i2] == search_landing(ms, cur, false));
    }
}

/// The matches come in document order, each after the one before.
pub open spec fn in_order(ms: Seq<(int, int)>) -> bool {
    forall|a: int, b: int| 0 <= a < b < ms.len() ==> pos_lt(#[trigger] ms[a], #[trigger] ms[b])
}

proof fn lemma_occ_increasing(l: Seq<char>, q: Seq<char>, from: int)
    ensures
        forall|a: int| 0 <= a < occ_from(l, q, from).len() ==> from <= #[trigger] occ_from(l, q, from)[a],
        forall|a: int, b: int| 0 <= a < b < occ_from(l, q, from).len()
            ==> #[trigger] occ_from(l, q, from)[a] < #[trigger] occ_from(l, q, from)[b],
    decreases l.len() - from,
{
    if q.len() == 0 || from < 0 || from + q.len() > l.len() {
    } else if occurs_at(l, q, from) {
        lemma_occ_increasing(l, q, from + q.len());
        let o = occ_from(l, q, from);
        let r = occ_from(l, q, from + q.len());
        assert(o == seq![from] + r);
        assert forall|a: int| 0 <= a < o.len() implies from <= #[trigger] o[a] by {
            if a > 0 {
                assert(o[a] == r[a - 1]);
                assert(from + q.len() <= r[a - 1]);
            }
        }
        assert forall|a: int, b: int| 0 <= a < b < o.len() implies #[trigger] o[a] < #[trigger] o[b] by {
            assert(o[b] == r[b - 1]);
            assert(from + q.len() <= r[b - 1]);
            if a > 0 {
                assert(o[a] == r[a - 1]);
            }
        }
    } else {
        lemma_occ_increasing(l, q, from + 1);
        assert(occ_from(l, q, from) == occ_from(l, q, from + 1));
    }
}

proof fn lemma_disp_col_increasing(l: Seq<char>, a: int, b: int)
    requires
        0 <= a < b,
    ensures
        disp_col(l, a) < disp_col(l, b),
    decreases b - a,
{
    if a + 1 < b {
        lemma_disp_col_increasing(l, a, b - 1);
    }
}

proof fn lemma_hits_in_order(s: Seq<char>, q: Seq<char>, n: int)
    ensures
        in_order(hits_upto(s, q, n)),
        forall|a: int| 0 <= a < hits_upto(s, q, n).len() ==> (#[trigger] hits_upto(s, q, n)[a]).0 < n,
    decreases n,
{
    if n > 0 {
        lemma_hits_in_order(s, q, n - 1);
        let h = hits_upto(s, q, n - 1);
        let lh = line_hits(s, q, n - 1);
        let l = line_text(s, spec_lines(s)[n - 1]);
        let o = occ_from(l, q, 0);
        lemma_occ_increasing(l, q, 0);
        assert forall|a: int| 0 <= a < lh.len() implies (#[trigger] lh[a]).0 == n - 1 && lh[a].1 == disp_col(l, o[a]) by {}
        let all = hits_upto(s, q, n);
        assert(all == h + lh);
        assert forall|a: int, b: int| 0 <= a < b < all.len() implies pos_lt(#[trigger] all[a], #[trigger] all[b]) by {
            if b < h.len() {
                assert(all[a] == h[a] && all[b] == h[b]);
            } else if a < h.len() {
                assert(all[a] == h[a]);
                assert(all[b] == lh[b - h.len()]);
            } else {
                assert(all[a] == lh[a - h.len()]);
                assert(all[b] == lh[b - h.len()]);
                assert(o[a - h.len()] < o[b - h.len()]);
                lemma_disp_col_increasing(l, o[a - h.len()], o[b - h.len()]);
            }
        }
        assert forall|a: int| 0 <= a < all.len() implies (#[trigger] all[a]).0 < n by {
            if a < h.len() {
                assert(all[a] == h[a]);
            } else {
                assert(all[a] == lh[a - h.len()]);
            }
        }
    }
}

/// The matches of a search come in document order, so a search lands on
/// the nearest match: going forward, no match lies between the cursor and
/// the landing (when a match follows the cursor); going back, none lies
/// between the landing and the cursor (when a match precedes it).
pub proof fn lemma_search_lands_on_nearest(s: Seq<char>, q: Seq<char>, cur: (int, int))
    ensures
        ({
            let ms = hits_upto(s, q, spec_lines(s).len() as int);
            &&& in_order(ms)
            &&& ms.len() > 0 && (exists|j: int| 0 <= j < ms.len() && pos_lt(cur, #[trigger] ms[j])) ==> ({
                let m = search_landing(ms, cur, true);
                pos_lt(cur, m) && forall|k: int| 0 <= k < ms.len() && pos_lt(cur, #[trigger] ms[k]) ==> !pos_lt(ms[k], m)
            })
            &&& ms.len() > 0 && (exists|j: int| 0 <= j < ms.len() && pos_lt(#[trigger] ms[j], cur)) ==> ({
                let m = search_landing(ms, cur, false);
                pos_lt(m, cur) && forall|k: int| 0 <= k < ms.len() && pos_lt(#[trigger] ms[k], cur) ==> !pos_lt(m, ms[k])
            })
        }),
{
    let ms = hits_upto(s, q, spec_lines(s).len() as int);
    lemma_hits_in_order(s, q, spec_lines(s).len() as int);
    if ms.len() > 0 {
        let i = lemma_first_after(ms, cur, 0);
        let i2 = lemma_last_prior(ms, cur, ms.len() as int);
        assert forall|k: int| 0 <= k < ms.len() && pos_lt(cur, #[trigger] ms[k]) && first_after(ms, cur, 0) is Some
            implies !pos_lt(ms[k], search_landing(ms, cur, true)) by {
            if k > i {
                assert(pos_lt(ms[i], ms[k]));
            }
        }
        assert forall|k: int| 0 <= k < ms.len() && pos_lt(#[trigger] ms[k], cur) && last_prior(ms, cur, ms.len() as int) is Some
            implies !pos_lt(search_landing(ms, cur, false), ms[k]) by {
            if k < i2 {
                assert(pos_lt(ms[k], ms[i2]));
            }
        }
    }
}

proof fn lemma_occ_skip(l: Seq<char>, q: Seq<char>, from: int, i: int)
    requires
        0 <= from <= i,
        q.len() > 0,
        forall|j: int| from <= j < i ==> !occurs_at(l, q, j),
    ensures
        occ_from(l, q, from) == occ_from(l, q, i),
    decreases i - from,
{
    if from < i {
        lemma_occ_skip(l, q, from + 1, i);
    }
}

proof fn lemma_occ_none(l: Seq<char>, q: Seq<char>, from: int)
    requires
        0 <= from,
        q.len() > 0,
        forall|j: int| from <= j ==> !occurs_at(l, q, j),
    ensures
        occ_from(l, q, from) == Seq::<int>::empty(),
    decreases l.len() - from,
{
    if from + q.len() <= l.len() {
        lemma_occ_none(l, q, from + 1);
    }
}

/// Display column of index `k` of `l`.
fn display_col(l: &Vec<char>, k: usize) -> (c: usize)
    requires
        k <= l@.len(),
        4 * l@.len() <= usize::MAX,
    ensures
        c == disp_col(l@, k as int),
{
    let mut j: usize = 0;
    let mut c: usize = 0;
    while j < k
        invariant
            j <= k <= l@.len(),
            4 * l@.len() <= usize::MAX,
            c == disp_col(l@, j as int),
            c <= 4 * j,
        decreases k - j,
    {
        if l[j] == '\t' {
            c = c + 4;
        } else {
            c = c + 1;
        }
        j = j + 1;
    }
    c
}

/// Moves the cursor to the next (`forward`) or previous match of the search
/// query, wrapping around; nothing happens without a query or a match.
pub fn perform_search(app: &mut App, forward: bool)
    requires
        text_of(old(app)) is Some ==> 4 * text_of(old(app))->0.len() <= usize::MAX,
    ensures
        ({
            let q = old(app).state.search_query@;
            let s = text_of(old(app))->0;
            let ms = hits_upto(s, q, spec_lines(s).len() as int);
            if q.len() == 0 || text_of(old(app)) is None || ms.len() == 0 {
                *final(app) == *old(app)
            } else {
                let m = search_landing(ms, (old(app).state.cursor_line as int, old(app).state.cursor_char as int), forward);
                &&& final(app).state.cursor_line == m.0
                &&& final(app).state.cursor_char == m.1
                &&& same_but_cursor(old(app), final(app))
            }
        }),
{
    let query = chars_of(app.state.search_query.as_str());
    if query.len() == 0 {
        return ;
    }
    let mut matches: Vec<(usize, usize)> = Vec::new();
    let ghost q = query@;
    match &app.content {
        Some(text) => {
            let ghost s = text.buffer@;
            proof {
                lemma_lines_bounds(s);
            }
            let n = text.line_count();
            let mut i: usize = 0;
            while i < n
                invariant
                    s == text.buffer@,
                    q == query@,
                    q.len() > 0,
                    4 * s.len() <= usize::MAX,
                    n == spec_lines(s).len(),
                    i <= n,
                    pairs_match(matches@, hits_upto(s, q, i as int)),
                    forall|k: int| 0 <= k < spec_lines(s).len() ==> 0 <= #[trigger] spec_lines(s)[k].0 <= spec_lines(s)[k].1 <= s.len(),
                decreases n - i,
            {
                let line = chars_of(text.buffer.line_slice(i).unwrap());
                let ghost l = line@;
                proof {
                    assert(0 <= spec_lines(s)[i as int].0 <= spec_lines(s)[i as int].1 <= s.len());
                    assert(l.len() <= s.len());
                }
                let ghost mut done: Seq<int> = seq![];
                let mut from: usize = 0;
                let mut stop = false;
                while !stop
                    invariant
                        l == line@,
                        q == query@,
                        q.len() > 0,
                        4 * l.len() <= usize::MAX,
                        from <= l.len(),
                        occ_from(l, q, 0) == done + occ_from(l, q, from as int),
                        stop ==> occ_from(l, q, from as int) == Seq::<int>::empty(),
                        pairs_match(matches@, hits_upto(s, q, i as int) + done.map_values(|k: int| (i as int, disp_col(l, k)))),
                    decreases l.len() - from, (if stop { 0int } else { 1int }),
                {
                    match find_from(line.as_slice(), query.as_slice(), from) {
                        Some(k) => {
                            proof {
                                lemma_occ_skip(l, q, from as int, k as int);
                                assert(occ_from(l, q, from as int) == seq![k as int] + occ_from(l, q, k + q.len()));
                                assert(done + occ_from(l, q, from as int) =~= done.push(k as int) + occ_from(l, q, k + q.len()));
                                done = done.push(k as int);
                            }
                            let col = display_col(&line, k);
                            matches.push((i, col));
                            from = k + query.len();
                            proof {
                                assert(hits_upto(s, q, i as int) + done.map_values(|k: int| (i as int, disp_col(l, k))) =~= (hits_upto(s, q, i as int) + done.drop_last().map_values(|k: int| (i as int, disp_col(l, k)))).push((i as int, disp_col(l, k as int))));
                            }
                        },
                        None => {
                            proof {
                                lemma_occ_none(l, q, from as int);
                            }
                            stop = true;
                        },
                    }
                }
                proof {
                    assert(done + occ_from(l, q, from as int) =~= done);
                    assert(line_hits(s, q, i as int) =~= done.map_values(|k: int| (i as int, disp_col(l, k))));
                    assert(hits_upto(s, q, i + 1) == hits_upto(s, q, i as int) + line_hits(s, q, i as int));
                }
                i = i + 1;
            }
        },
        None => {
            return ;
        },
    }
    if matches.len() == 0 {
        return ;
    }
    let current = (app.state.cursor_line, app.state.cursor_char);
    let ghost ms = hits_upto(text_of(app)->0, q, spec_lines(text_of(app)->0).len() as int);
    let ghost cur = (current.0 as int, current.1 as int);
    let target = if forward {
        let mut j: usize = 0;
        let mut found: Option<(usize, usize)> = None;
        while j < matches.len()
            invariant_except_break
                found is None,
            invariant
                j <= matches@.len(),
                pairs_match(matches@, ms),
                cur == (current.0 as int, current.1 as int),
                first_after(ms, cur, j as int) == first_after(ms, cur, 0),
            ensures
                match found {
                    Some(m) => first_after(ms, cur, 0) == Some((m.0 as int, m.1 as int)),
                    None => first_after(ms, cur, 0) is None,
                },
            decreases matches.len() - j,
        {
            let m = matches[j];
            proof {
                assert(matches@[j as int] == m);
                assert(ms[j as int].0 == m.0 && ms[j as int].1 == m.1);
            }
            if current.0 < m.0 || (current.0 == m.0 && current.1 < m.1) {
                found = Some(m);
                break ;
            }
            j = j + 1;
        }
        match found {
            Some(m) => m,
            None => matches[0],
        }
    } else {
        let mut j: usize = matches.len();
        let mut found: Option<(usize, usize)> = None;
        while j > 0
            invariant_except_break
                found is None,
            invariant
                j <= matches@.len(),
                pairs_match(matches@, ms),
                cur == (current.0 as int, current.1 as int),
                last_prior(ms, cur, j as int) == last_prior(ms, cur, ms.len() as int),
            ensures
                match found {
                    Some(m) => last_prior(ms, cur, ms.len() as int) == Some((m.0 as int, m.1 as int)),
                    None => last_prior(ms, cur, ms.len() as int) is None,
                },
            decreases j,
        {
            let m = matches[j - 1];
            proof {
                assert(matches@[j - 1] == m);
                assert(ms[j - 1].0 == m.0 && ms[j - 1].1 == m.1);
            }
            if m.0 < current.0 || (m.0 == current.0 && m.1 < current.1) {
                found = Some(m);
                break ;
            }
            j = j - 1;
        }
        match found {
            Some(m) => m,
            None => matches[matches.len() - 1],
        }
    };
    app.state.cursor_line = target.0;
    app.state.cursor_char = target.1;
}

} // verus!

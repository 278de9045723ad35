//! The exact matcher: which items hold every word of the query, and where
//! the words occur in an item's text.
use vstd::prelude::*;
use crate::chars::{chars_of, contains_chars, contains_seq, find_from, occurs_at};
use crate::log_query::{spec_lowercase, split_words, to_lowercase, words};
use crate::search_types::{SearchItem, SearchResult, content_column, display_text_of, match_text_of};

verus! {

/// What a matcher reports: the results to show, how many items match, how
/// many items it holds, and whether it is still working.
pub struct MatcherState {
    pub results: Vec<SearchResult>,
    pub total_matches: u64,
    pub total_items: u64,
    pub working: bool,
}

/// What a matcher is told: a new query, or how many results to show.
pub enum MatcherCommand {
    Query(String),
    Resize(u32),
}

/// A copy of an item.
pub fn clone_item(item: &SearchItem) -> (r: SearchItem)
    ensures
        r == *item,
{
    match item {
        SearchItem::Path(p) => SearchItem::Path(p.clone()),
        SearchItem::Grep { path, line, text } => SearchItem::Grep { path: path.clone(), line: *line, text: text.clone() },
        SearchItem::GitHistory { commit, path, line, text } => SearchItem::GitHistory {
            commit: commit.clone(),
            path: path.clone(),
            line: *line,
            text: text.clone(),
        },
        SearchItem::GitBranch { branch, commit, subject, is_head, relative_time } => SearchItem::GitBranch {
            branch: branch.clone(),
            commit: commit.clone(),
            subject: subject.clone(),
            is_head: *is_head,
            relative_time: relative_time.clone(),
        },
        SearchItem::GitCommit { commit, short_commit, subject, author, date, refs } => SearchItem::GitCommit {
            commit: commit.clone(),
            short_commit: short_commit.clone(),
            subject: subject.clone(),
            author: author.clone(),
            date: date.clone(),
            refs: refs.clone(),
        },
        SearchItem::Stdin(t) => SearchItem::Stdin(t.clone()),
        SearchItem::Message(t) => SearchItem::Message(t.clone()),
    }
}

/// The words of a query, lower-cased.
pub open spec fn query_tokens(q: Seq<char>) -> Seq<Seq<char>> {
    words(q).map_values(|w: Seq<char>| spec_lowercase(w))
}

/// Every token occurs in `hay`.
pub open spec fn all_occur(hay: Seq<char>, toks: Seq<Seq<char>>) -> bool {
    forall|t: int| 0 <= t < toks.len() ==> contains_seq(hay, #[trigger] toks[t])
}

/// The words of a query, lower-cased, and their lengths in chars.
pub struct QueryFinders {
    pub tokens: Vec<String>,
    pub token_char_lens: Vec<usize>,
}

impl QueryFinders {
    /// The tokens, as text.
    pub open spec fn toks(&self) -> Seq<Seq<char>> {
        self.tokens@.map_values(|t: String| t@)
    }

    /// Each length is that of its token.
    pub open spec fn wf(&self) -> bool {
        &&& self.token_char_lens@.len() == self.tokens@.len()
        &&& forall|i: int| 0 <= i < self.tokens@.len() ==> #[trigger] self.token_char_lens@[i] == self.tokens@[i]@.len()
    }

    /// The lower-cased words of `query`.
    pub fn new(query: &str) -> (r: Self)
        ensures
            r.toks() == query_tokens(query@),
            r.wf(),
    {
        let ws = split_words(query);
        let mut tokens: Vec<String> = Vec::new();
        let mut lens: Vec<usize> = Vec::new();
        let ghost wv = ws@.map_values(|w: String| w@);
        let mut i: usize = 0;
        while i < ws.len()
            invariant
                i <= ws@.len(),
                wv == ws@.map_values(|w: String| w@),
                wv == words(query@),
                tokens@.len() == i,
                lens@.len() == i,
                forall|k: int| 0 <= k < i ==> (#[trigger] tokens@[k])@ == spec_lowercase(wv[k]),
                forall|k: int| 0 <= k < i ==> #[trigger] lens@[k] == tokens@[k]@.len(),
            decreases ws@.len() - i,
        {
            let t = to_lowercase(ws[i].as_str());
            let n = t.as_str().unicode_len();
            tokens.push(t);
            lens.push(n);
            i = i + 1;
        }
        let r = QueryFinders { tokens, token_char_lens: lens };
        proof {
            assert(r.toks() =~= query_tokens(query@));
        }
        r
    }

    /// Whether the query has no words.
    pub fn is_empty(&self) -> (b: bool)
        ensures
            b == (self.toks().len() == 0),
    {
        self.tokens.len() == 0
    }

    /// Whether every token occurs in `haystack` (already lower-cased).
    pub fn matches(&self, haystack: &[char]) -> (b: bool)
        ensures
            b == all_occur(haystack@, self.toks()),
            b <==> (forall|t: int| 0 <= t < self.toks().len() ==> contains_seq(haystack@, #[trigger] self.toks()[t])),
    {
        let mut i: usize = 0;
        while i < self.tokens.len()
            invariant
                i <= self.tokens@.len(),
                forall|t: int| 0 <= t < i ==> contains_seq(haystack@, #[trigger] self.toks()[t]),
            decreases self.tokens@.len() - i,
        {
            let tv = chars_of(self.tokens[i].as_str());
            if !contains_chars(haystack, tv.as_slice()) {
                proof {
                    assert(self.toks()[i as int] == tv@);
                }
                return false;
            }
            proof {
                assert(self.toks()[i as int] == tv@);
            }
            i = i + 1;
        }
        true
    }
}

/// A haystack matches a query only when every one of its tokens occurs in
/// it: a match holds each token somewhere, a single missing token rejects
/// the haystack whatever the others do, and a query without tokens matches
/// everything.
pub proof fn lemma_match_needs_every_token(hay: Seq<char>, toks: Seq<Seq<char>>)
    ensures
        all_occur(hay, toks) ==> forall|t: int| 0 <= t < toks.len() ==> contains_seq(hay, #[trigger] toks[t]),
        (exists|t: int| 0 <= t < toks.len() && !contains_seq(hay, #[trigger] toks[t])) ==> !all_occur(hay, toks),
        toks.len() == 0 ==> all_occur(hay, toks),
{
}

/// The first place at or after `from` where `tok` occurs in `hay`.
pub open spec fn first_occ_from(hay: Seq<char>, tok: Seq<char>, from: int) -> Option<int>
    decreases hay.len() + 1 - from,
{
    if from < 0 || from > hay.len() {
        None
    } else if occurs_at(hay, tok, from) {
        Some(from)
    } else {
        first_occ_from(hay, tok, from + 1)
    }
}

pub proof fn lemma_first_occ_from(hay: Seq<char>, tok: Seq<char>, from: int)
    ensures
        first_occ_from(hay, tok, from) matches Some(p) ==> from <= p && occurs_at(hay, tok, p),
    decreases hay.len() + 1 - from,
{
    if 0 <= from <= hay.len() && !occurs_at(hay, tok, from) {
        lemma_first_occ_from(hay, tok, from + 1);
    }
}

/// `first_occ_from` is what a search from `from` finds.
proof fn lemma_first_occ_found(hay: Seq<char>, tok: Seq<char>, from: int, r: Option<int>)
    requires
        0 <= from <= hay.len(),
        match r {
            Some(i) => from <= i && occurs_at(hay, tok, i) && forall|j: int| from <= j < i ==> !occurs_at(hay, tok, j),
            None => forall|j: int| from <= j ==> !occurs_at(hay, tok, j),
        },
    ensures
        first_occ_from(hay, tok, from) == r,
    decreases hay.len() + 1 - from,
{
    if occurs_at(hay, tok, from) {
    } else {
        if from < hay.len() {
            lemma_first_occ_found(hay, tok, from + 1, r);
        } else {
            assert(!occurs_at(hay, tok, from + 1));
        }
    }
}

/// Where `tok` occurs in `hay` from `from` on, each occurrence searched
/// after the end of the one before.
pub open spec fn occurrences(hay: Seq<char>, tok: Seq<char>, from: int) -> Seq<int>
    decreases hay.len() + 1 - from,
{
    if tok.len() == 0 || from < 0 || from > hay.len() {
        seq![]
    } else {
        match first_occ_from(hay, tok, from) {
            Some(p) => {
                proof {
                    lemma_first_occ_from(hay, tok, from);
                }
                seq![p] + occurrences(hay, tok, p + tok.len())
            },
            None => seq![],
        }
    }
}

/// Position `i` lies in one of the occurrences `occ` of a token `len`
/// chars long.
pub open spec fn in_occ(occ: Seq<int>, len: int, i: int) -> bool {
    exists|k: int| 0 <= k < occ.len() && #[trigger] occ[k] <= i < occ[k] + len
}

/// Position `i` of `hay` lies in an occurrence of the (non-empty) token.
pub open spec fn tok_covers(hay: Seq<char>, tok: Seq<char>, i: int) -> bool {
    tok.len() > 0 && in_occ(occurrences(hay, tok, 0), tok.len() as int, i)
}

/// Position `i` of `hay` lies in an occurrence of one of the tokens.
pub open spec fn covered(hay: Seq<char>, toks: Seq<Seq<char>>, i: int) -> bool {
    exists|t: int| 0 <= t < toks.len() && #[trigger] tok_covers(hay, toks[t], i)
}

/// The highlighted positions of `hay`, each as a `u32` (modulo 2^32).
pub open spec fn index_values(hay: Seq<char>, toks: Seq<Seq<char>>, v: u32) -> bool {
    exists|i: int| 0 <= i < hay.len() && covered(hay, toks, i) && #[trigger] (i % 0x1_0000_0000) == v as int
}

/// The positions covered so far: by the tokens before `t`, by the
/// occurrences `done` of token `t`, and by `lo..hi`.
pub open spec fn cov_state(hay: Seq<char>, toks: Seq<Seq<char>>, t: int, done: Seq<int>, len: int, lo: int, hi: int, i: int) -> bool {
    (exists|u: int| 0 <= u < t && #[trigger] tok_covers(hay, toks[u], i)) || in_occ(done, len, i) || (lo <= i < hi)
}

/// The mask is the set of covered positions, modulo 2^32.
pub open spec fn mask_ok(mask: Seq<bool>, hay: Seq<char>, cov: spec_fn(int) -> bool) -> bool {
    forall|v: int| 0 <= v < mask.len() ==> (#[trigger] mask[v] <==> exists|i: int| 0 <= i < hay.len() && cov(i) && #[trigger] (i % 0x1_0000_0000) == v)
}

proof fn lemma_occurrences_bounds(hay: Seq<char>, tok: Seq<char>, from: int)
    ensures
        forall|k: int| 0 <= k < occurrences(hay, tok, from).len() ==> from <= #[trigger] occurrences(hay, tok, from)[k]
            && occurrences(hay, tok, from)[k] + tok.len() <= hay.len(),
    decreases hay.len() + 1 - from,
{
    if tok.len() > 0 && 0 <= from <= hay.len() {
        lemma_first_occ_from(hay, tok, from);
        match first_occ_from(hay, tok, from) {
            Some(p) => {
                lemma_occurrences_bounds(hay, tok, p + tok.len());
                let o = occurrences(hay, tok, from);
                assert forall|k: int| 0 <= k < o.len() implies from <= #[trigger] o[k] && o[k] + tok.len() <= hay.len() by {
                    if k > 0 {
                        assert(o[k] == occurrences(hay, tok, p + tok.len())[k - 1]);
                    }
                }
            },
            None => {},
        }
    }
}

/// The positions of `hay` (lower-cased text) where the tokens occur, in
/// increasing order, each as a `u32`: each token is searched for again
/// after the end of its last occurrence; empty tokens are skipped.
pub fn indices_in(hay: &[char], tokens: &[String]) -> (r: Vec<u32>)
    ensures
        forall|a: int, b: int| 0 <= a < b < r@.len() ==> r@[a] < r@[b],
        forall|v: u32| r@.contains(v) <==> index_values(hay@, tokens@.map_values(|t: String| t@), v),
{
    let ghost toks = tokens@.map_values(|t: String| t@);
    let n = hay.len();
    let m: usize = if n as u64 > 0xFFFF_FFFFu64 {
        (0xFFFF_FFFFu64 + 1) as usize
    } else {
        n
    };
    let mut mask: Vec<bool> = Vec::new();
    while mask.len() < m
        invariant
            mask@.len() <= m,
            forall|v: int| 0 <= v < mask@.len() ==> !mask@[v],
        decreases m - mask@.len(),
    {
        mask.push(false);
    }
    let mut t: usize = 0;
    while t < tokens.len()
        invariant
            mask@.len() == m,
            n == hay@.len(),
            m == (if n > 0xFFFF_FFFF { 0x1_0000_0000 } else { n as int }),
            t <= tokens@.len(),
            toks == tokens@.map_values(|t: String| t@),
            forall|v: int| 0 <= v < m ==> (#[trigger] mask@[v] <==> exists|i: int| 0 <= i < n && cov_state(hay@, toks, t as int, seq![], 0, 0, 0, i) && #[trigger] (i % 0x1_0000_0000) == v),
        decreases tokens@.len() - t,
    {
        let tv = chars_of(tokens[t].as_str());
        let len = tv.len();
        proof {
            assert(toks[t as int] == tv@);
        }
        if len > 0 {
            let mut start: usize = 0;
            let ghost mut done: Seq<int> = seq![];
            loop
                invariant
                    mask@.len() == m,
                    n == hay@.len(),
                    m == (if n > 0xFFFF_FFFF { 0x1_0000_0000 } else { n as int }),
                    t < tokens@.len(),
                    toks == tokens@.map_values(|t: String| t@),
                    toks[t as int] == tv@,
                    len == tv@.len(),
                    len > 0,
                    start <= n,
                    done + occurrences(hay@, tv@, start as int) == occurrences(hay@, tv@, 0),
                    forall|v: int| 0 <= v < m ==> (#[trigger] mask@[v] <==> exists|i: int| 0 <= i < n && cov_state(hay@, toks, t as int, done, len as int, 0, 0, i) && #[trigger] (i % 0x1_0000_0000) == v),
                ensures
                    done == occurrences(hay@, tv@, 0),
                decreases n - start + 1,
            {
                let found = find_from(hay, tv.as_slice(), start);
                proof {
                    lemma_first_occ_found(hay@, tv@, start as int, match found { Some(i) => Some(i as int), None => None });
                }
                let p = match found {
                    Some(p) => p,
                    None => {
                        proof {
                            assert(occurrences(hay@, tv@, start as int) =~= Seq::<int>::empty());
                            assert(done =~= occurrences(hay@, tv@, 0));
                        }
                        break;
                    },
                };
                proof {
                    assert(occurrences(hay@, tv@, start as int) == seq![p as int] + occurrences(hay@, tv@, p + len));
                }
                let mut k = p;
                while k < p + len
                    invariant
                        mask@.len() == m,
                        n == hay@.len(),
                        m == (if n > 0xFFFF_FFFF { 0x1_0000_0000 } else { n as int }),
                        p <= k <= p + len <= n,
                        forall|v: int| 0 <= v < m ==> (#[trigger] mask@[v] <==> exists|i: int| 0 <= i < n && cov_state(hay@, toks, t as int, done, len as int, p as int, k as int, i) && #[trigger] (i % 0x1_0000_0000) == v),
                    decreases p + len - k,
                {
                    let idx = ((k as u64) % 0x1_0000_0000u64) as usize;
                    let ghost old_mask = mask@;
                    mask.set(idx, true);
                    proof {
                        assert forall|v: int| 0 <= v < m implies (#[trigger] mask@[v] <==> exists|i: int| 0 <= i < n && cov_state(hay@, toks, t as int, done, len as int, p as int, k + 1, i) && #[trigger] (i % 0x1_0000_0000) == v) by {
                            if v == idx {
                                assert(cov_state(hay@, toks, t as int, done, len as int, p as int, k + 1, k as int));
                                assert((k as int) % 0x1_0000_0000 == v);
                            } else {
                                assert(mask@[v] == old_mask[v]);
                                if exists|i: int| 0 <= i < n && cov_state(hay@, toks, t as int, done, len as int, p as int, k + 1, i) && #[trigger] (i % 0x1_0000_0000) == v {
                                    let i = choose|i: int| 0 <= i < n && cov_state(hay@, toks, t as int, done, len as int, p as int, k + 1, i) && #[trigger] (i % 0x1_0000_0000) == v;
                                    assert(i != k);
                                    assert(cov_state(hay@, toks, t as int, done, len as int, p as int, k as int, i));
                                }
                                if old_mask[v] {
                                    let i = choose|i: int| 0 <= i < n && cov_state(hay@, toks, t as int, done, len as int, p as int, k as int, i) && #[trigger] (i % 0x1_0000_0000) == v;
                                    assert(cov_state(hay@, toks, t as int, done, len as int, p as int, k + 1, i));
                                }
                            }
                        }
                    }
                    k = k + 1;
                }
                proof {
                    let nd = done.push(p as int);
                    assert forall|i: int| cov_state(hay@, toks, t as int, done, len as int, p as int, (p + len) as int, i)
                        == cov_state(hay@, toks, t as int, nd, len as int, 0, 0, i) by {
                        if in_occ(nd, len as int, i) {
                            let q = choose|q: int| 0 <= q < nd.len() && #[trigger] nd[q] <= i < nd[q] + len;
                            if q < done.len() {
                                assert(in_occ(done, len as int, i));
                            }
                        }
                        if in_occ(done, len as int, i) {
                            let q = choose|q: int| 0 <= q < done.len() && #[trigger] done[q] <= i < done[q] + len;
                            assert(nd[q] == done[q]);
                        }
                        if p <= i < p + len {
                            assert(nd[done.len() as int] == p);
                        }
                    }
                    assert(nd + occurrences(hay@, tv@, p + len) =~= done + occurrences(hay@, tv@, start as int));
                    done = nd;
                }
                start = p + len;
            }
            proof {
                assert forall|i: int| cov_state(hay@, toks, t as int, done, len as int, 0, 0, i)
                    == cov_state(hay@, toks, t + 1, seq![], 0, 0, 0, i) by {
                    if cov_state(hay@, toks, t + 1, seq![], 0, 0, 0, i) {
                        let u = choose|u: int| 0 <= u < t + 1 && #[trigger] tok_covers(hay@, toks[u], i);
                        if u == t {
                            assert(in_occ(done, len as int, i));
                        }
                    }
                    if in_occ(done, len as int, i) {
                        assert(tok_covers(hay@, toks[t as int], i));
                    }
                    if exists|u: int| 0 <= u < t && #[trigger] tok_covers(hay@, toks[u], i) {
                        let u = choose|u: int| 0 <= u < t && #[trigger] tok_covers(hay@, toks[u], i);
                        assert(0 <= u < t + 1 && tok_covers(hay@, toks[u], i));
                    }
                }
            }
        } else {
            proof {
                assert forall|i: int| cov_state(hay@, toks, t as int, seq![], 0, 0, 0, i)
                    == cov_state(hay@, toks, t + 1, seq![], 0, 0, 0, i) by {
                    if cov_state(hay@, toks, t + 1, seq![], 0, 0, 0, i) {
                        let u = choose|u: int| 0 <= u < t + 1 && #[trigger] tok_covers(hay@, toks[u], i);
                        assert(u != t);
                    }
                    if exists|u: int| 0 <= u < t && #[trigger] tok_covers(hay@, toks[u], i) {
                        let u = choose|u: int| 0 <= u < t && #[trigger] tok_covers(hay@, toks[u], i);
                        assert(0 <= u < t + 1 && tok_covers(hay@, toks[u], i));
                    }
                }
            }
        }
        t = t + 1;
    }
    let mut out: Vec<u32> = Vec::new();
    let mut v: usize = 0;
    while v < m
        invariant
            v <= m == mask@.len(),
            m <= 0x1_0000_0000,
            forall|a: int, b: int| 0 <= a < b < out@.len() ==> out@[a] < out@[b],
            forall|a: int| 0 <= a < out@.len() ==> out@[a] < v,
            forall|w: u32| out@.contains(w) <==> (w < v && mask@[w as int]),
        decreases m - v,
    {
        if mask[v] {
            let ghost before = out@;
            out.push(v as u32);
            proof {
                assert forall|w: u32| out@.contains(w) <==> (w < v + 1 && mask@[w as int]) by {
                    if out@.contains(w) {
                        let a = choose|a: int| 0 <= a < out@.len() && out@[a] == w;
                        if a < before.len() {
                            assert(before.contains(w));
                        }
                    }
                    if w < v + 1 && mask@[w as int] {
                        if w == v {
                            assert(out@[before.len() as int] == w);
                        } else {
                            assert(before.contains(w));
                            let a = choose|a: int| 0 <= a < before.len() && before[a] == w;
                            assert(out@[a] == w);
                        }
                    }
                }
            }
        } else {
            proof {
                assert forall|w: u32| out@.contains(w) <==> (w < v + 1 && mask@[w as int]) by {
                    if w == v && out@.contains(w) {
                        let a = choose|a: int| 0 <= a < out@.len() && out@[a] == w;
                    }
                }
            }
        }
        v = v + 1;
    }
    proof {
        assert forall|w: u32| out@.contains(w) <==> index_values(hay@, toks, w) by {
            let c = cov_state(hay@, toks, tokens@.len() as int, seq![], 0, 0, 0, w as int);
            if index_values(hay@, toks, w) {
                let i = choose|i: int| 0 <= i < hay@.len() && covered(hay@, toks, i) && #[trigger] (i % 0x1_0000_0000) == w as int;
                let u = choose|u: int| 0 <= u < toks.len() && #[trigger] tok_covers(hay@, toks[u], i);
                assert(cov_state(hay@, toks, tokens@.len() as int, seq![], 0, 0, 0, i));
                assert(w < m);
            }
            if out@.contains(w) {
                let i = choose|i: int| 0 <= i < n && cov_state(hay@, toks, tokens@.len() as int, seq![], 0, 0, 0, i) && #[trigger] (i % 0x1_0000_0000) == w as int;
                let u = choose|u: int| 0 <= u < tokens@.len() && #[trigger] tok_covers(hay@, toks[u], i);
                assert(covered(hay@, toks, i));
            }
        }
    }
    out
}

/// The indices `r` are the positions of the lower-cased `text` where the
/// tokens occur, in increasing order (see `indices_in`).
pub open spec fn indices_of(r: Seq<u32>, text: Seq<char>, toks: Seq<Seq<char>>) -> bool {
    &&& forall|a: int, b: int| 0 <= a < b < r.len() ==> r[a] < r[b]
    &&& forall|v: u32| r.contains(v) <==> index_values(spec_lowercase(text), toks, v)
}

/// The highlighted positions of an item's text for the query's tokens.
pub fn compute_indices(item: &str, finders: &QueryFinders) -> (r: Vec<u32>)
    ensures
        indices_of(r@, item@, finders.toks()),
{
    let lower = to_lowercase(item);
    let hay = chars_of(lower.as_str());
    indices_in(hay.as_slice(), finders.tokens.as_slice())
}

/// What the result for `item` holds: the item, its highlighted positions
/// (none for an empty query), and, in a content search, the column of its
/// first match.
pub open spec fn result_for(r: SearchResult, item: SearchItem, toks: Seq<Seq<char>>, is_content: bool) -> bool {
    &&& r.item == item
    &&& (if toks.len() == 0 { r.indices@.len() == 0 } else { indices_of(r.indices@, display_text_of(item), toks) })
    &&& r.column == (if is_content { content_column(item, r.indices@) } else { None })
}

/// The results for the first `limit` matches (`match_indices` index into
/// `items`).
pub fn build_results(
    items: &[SearchItem],
    match_indices: &[usize],
    finders: &QueryFinders,
    is_content: bool,
    limit: usize,
) -> (r: Vec<SearchResult>)
    requires
        forall|k: int| 0 <= k < match_indices@.len() ==> #[trigger] match_indices@[k] < items@.len(),
    ensures
        r@.len() == (if limit < match_indices@.len() { limit as int } else { match_indices@.len() as int }),
        forall|k: int| 0 <= k < r@.len() ==> result_for(#[trigger] r@[k], items@[match_indices@[k] as int], finders.toks(), is_content),
{
    let end = if limit < match_indices.len() { limit } else { match_indices.len() };
    let mut out: Vec<SearchResult> = Vec::new();
    let mut k: usize = 0;
    while k < end
        invariant
            k <= end <= match_indices@.len(),
            end == (if limit < match_indices@.len() { limit as int } else { match_indices@.len() as int }),
            forall|q: int| 0 <= q < match_indices@.len() ==> #[trigger] match_indices@[q] < items@.len(),
            out@.len() == k,
            forall|q: int| 0 <= q < k ==> result_for(#[trigger] out@[q], items@[match_indices@[q] as int], finders.toks(), is_content),
        decreases end - k,
    {
        let item = &items[match_indices[k]];
        let indices = if finders.is_empty() {
            Vec::new()
        } else {
            let text = item.display_text();
            compute_indices(text.as_str(), finders)
        };
        let column = if is_content {
            item.content_match_column(indices.as_slice())
        } else {
            None
        };
        out.push(SearchResult { item: clone_item(item), indices, column });
        k = k + 1;
    }
    out
}

/// The indices in `lo..hi` whose lower-cased text holds every token, in
/// increasing order.
pub open spec fn matching(lowers: Seq<Seq<char>>, toks: Seq<Seq<char>>, lo: int, hi: int) -> Seq<usize>
    decreases hi - lo,
{
    if hi <= lo {
        seq![]
    } else {
        let prev = matching(lowers, toks, lo, hi - 1);
        if all_occur(lowers[hi - 1], toks) {
            prev.push((hi - 1) as usize)
        } else {
            prev
        }
    }
}

/// The matches of `lo..mid` and then those of `mid..hi` are the matches of
/// `lo..hi`: matching new items as they come gives what matching them all
/// at once gives.
pub proof fn lemma_matching_split(lowers: Seq<Seq<char>>, toks: Seq<Seq<char>>, lo: int, mid: int, hi: int)
    requires
        lo <= mid <= hi,
    ensures
        matching(lowers, toks, lo, mid) + matching(lowers, toks, mid, hi) == matching(lowers, toks, lo, hi),
    decreases hi - mid,
{
    if hi == mid {
        assert(matching(lowers, toks, lo, mid) + matching(lowers, toks, mid, hi) =~= matching(lowers, toks, lo, hi));
    } else {
        lemma_matching_split(lowers, toks, lo, mid, hi - 1);
        assert(matching(lowers, toks, lo, mid) + matching(lowers, toks, mid, hi) =~= matching(lowers, toks, lo, hi));
    }
}

/// The state of the exact matcher: the items received, their lower-cased
/// match texts, the indices of the matching items, the query, and how many
/// results to show.
pub struct ExactMatcher {
    pub items: Vec<SearchItem>,
    pub match_lower: Vec<Vec<char>>,
    pub all_matches: Vec<usize>,
    pub finders: QueryFinders,
    pub current_query: String,
    pub item_limit: u32,
    pub use_filename_only: bool,
    pub is_content: bool,
}

impl ExactMatcher {
    /// The lower-cased match texts.
    pub open spec fn lowers(&self) -> Seq<Seq<char>> {
        self.match_lower@.map_values(|l: Vec<char>| l@)
    }

    /// Each match text belongs to its item, the tokens to the query, and
    /// each match to an item.
    pub open spec fn wf(&self) -> bool {
        &&& self.match_lower@.len() == self.items@.len()
        &&& forall|i: int| 0 <= i < self.items@.len() ==> (#[trigger] self.match_lower@[i])@
            == spec_lowercase(match_text_of(self.items@[i], self.use_filename_only))
        &&& self.finders.wf()
        &&& self.finders.toks() == query_tokens(self.current_query@)
        &&& forall|k: int| 0 <= k < self.all_matches@.len() ==> #[trigger] self.all_matches@[k] < self.items@.len()
    }

    /// A matcher with no items yet, for the query `initial_query`, showing
    /// 100 results.
    pub fn new(use_filename_only: bool, is_content: bool, initial_query: String) -> (r: Self)
        ensures
            r.wf(),
            r.items@.len() == 0,
            r.all_matches@.len() == 0,
            r.current_query@ == initial_query@,
            r.item_limit == 100,
            r.use_filename_only == use_filename_only,
            r.is_content == is_content,
    {
        let finders = QueryFinders::new(initial_query.as_str());
        ExactMatcher {
            items: Vec::new(),
            match_lower: Vec::new(),
            all_matches: Vec::new(),
            finders,
            current_query: initial_query,
            item_limit: 100,
            use_filename_only,
            is_content,
        }
    }

    /// Takes in a batch of items: they are added, and those that match the
    /// current query are added to the matches. Returns how many came.
    pub fn ingest(&mut self, batch: Vec<SearchItem>) -> (count: usize)
        requires
            old(self).wf(),
        ensures
            final(self).wf(),
            count == batch@.len(),
            final(self).items@ == old(self).items@ + batch@,
            final(self).all_matches@ == old(self).all_matches@ + matching(final(self).lowers(), final(self).finders.toks(),
                old(self).items@.len() as int, final(self).items@.len() as int),
            final(self).current_query == old(self).current_query,
            final(self).finders == old(self).finders,
            final(self).item_limit == old(self).item_limit,
            final(self).use_filename_only == old(self).use_filename_only,
            final(self).is_content == old(self).is_content,
            old(self).lowers().is_prefix_of(final(self).lowers()),
    {
        let start = self.items.len();
        let ghost old_items = self.items@;
        let ghost old_lowers = self.lowers();
        let mut i: usize = 0;
        while i < batch.len()
            invariant
                i <= batch@.len(),
                self.items@ == old_items + batch@.take(i as int),
                self.match_lower@.len() == self.items@.len(),
                forall|j: int| 0 <= j < self.items@.len() ==> (#[trigger] self.match_lower@[j])@
                    == spec_lowercase(match_text_of(self.items@[j], self.use_filename_only)),
                old_lowers.is_prefix_of(self.lowers()),
                old_lowers == old(self).lowers(),
                old_items == old(self).items@,
                start == old_items.len(),
                self.all_matches == old(self).all_matches,
                self.finders == old(self).finders,
                self.current_query == old(self).current_query,
                self.item_limit == old(self).item_limit,
                self.use_filename_only == old(self).use_filename_only,
                self.is_content == old(self).is_content,
            decreases batch@.len() - i,
        {
            let text = batch[i].match_text(self.use_filename_only);
            let lower = to_lowercase(text.as_str());
            self.match_lower.push(chars_of(lower.as_str()));
            self.items.push(clone_item(&batch[i]));
            proof {
                assert(batch@.take(i + 1) =~= batch@.take(i as int).push(batch@[i as int]));
                assert(old_lowers.is_prefix_of(self.lowers())) by {
                    assert forall|j: int| 0 <= j < old_lowers.len() implies old_lowers[j] == self.lowers()[j] by {
                        assert(self.lowers()[j] == self.match_lower@[j]@);
                    }
                }
            }
            i = i + 1;
        }
        proof {
            assert(batch@.take(batch@.len() as int) =~= batch@);
        }
        let end = self.items.len();
        let mut idx = start;
        let ghost base = self.all_matches@;
        while idx < end
            invariant
                start <= idx <= end == self.items@.len() == self.match_lower@.len(),
                self.all_matches@ == base + matching(self.lowers(), self.finders.toks(), start as int, idx as int),
                forall|k: int| 0 <= k < base.len() ==> #[trigger] base[k] < start,
                self.items@ == old_items + batch@,
                forall|j: int| 0 <= j < self.items@.len() ==> (#[trigger] self.match_lower@[j])@
                    == spec_lowercase(match_text_of(self.items@[j], self.use_filename_only)),
                old_lowers.is_prefix_of(self.lowers()),
                old_lowers == old(self).lowers(),
                base == old(self).all_matches@,
                self.finders == old(self).finders,
                self.current_query == old(self).current_query,
                self.item_limit == old(self).item_limit,
                self.use_filename_only == old(self).use_filename_only,
                self.is_content == old(self).is_content,
            decreases end - idx,
        {
            let hit = self.finders.is_empty() || self.finders.matches(self.match_lower[idx].as_slice());
            proof {
                assert(self.lowers()[idx as int] == self.match_lower@[idx as int]@);
                if self.finders.toks().len() == 0 {
                    assert(all_occur(self.lowers()[idx as int], self.finders.toks()));
                }
            }
            if hit {
                self.all_matches.push(idx);
            }
            proof {
                assert(self.all_matches@ =~= base + matching(self.lowers(), self.finders.toks(), start as int, idx + 1));
            }
            idx = idx + 1;
        }
        proof {
            lemma_matching_bounded(self.lowers(), self.finders.toks(), start as int, end as int);
            assert forall|k: int| 0 <= k < self.all_matches@.len() implies #[trigger] self.all_matches@[k] < self.items@.len() by {
                if k >= base.len() {
                    assert(self.all_matches@[k] == matching(self.lowers(), self.finders.toks(), start as int, end as int)[k - base.len()]);
                }
            }
        }
        batch.len()
    }

    /// Applies a command: a different query replaces the query (and asks
    /// for a new filtering); a different limit replaces the limit. Returns
    /// whether to filter again and whether the limit changed.
    pub fn apply_command(&mut self, cmd: MatcherCommand) -> (r: (bool, bool))
        requires
            old(self).wf(),
        ensures
            final(self).wf(),
            final(self).items == old(self).items,
            final(self).match_lower == old(self).match_lower,
            final(self).all_matches == old(self).all_matches,
            final(self).use_filename_only == old(self).use_filename_only,
            final(self).is_content == old(self).is_content,
            match cmd {
                MatcherCommand::Query(q) => if q@ != old(self).current_query@ {
                    r == (true, false) && final(self).current_query@ == q@ && final(self).item_limit == old(self).item_limit
                } else {
                    r == (false, false) && final(self).current_query == old(self).current_query && final(self).finders == old(self).finders
                        && final(self).item_limit == old(self).item_limit
                },
                MatcherCommand::Resize(n) => final(self).current_query == old(self).current_query
                    && final(self).finders == old(self).finders && final(self).item_limit == n
                    && r == (false, n != old(self).item_limit),
            },
    {
        match cmd {
            MatcherCommand::Query(q) => {
                if !crate::chars::str_eq(q.as_str(), self.current_query.as_str()) {
                    self.finders = QueryFinders::new(q.as_str());
                    self.current_query = q;
                    (true, false)
                } else {
                    (false, false)
                }
            },
            MatcherCommand::Resize(n) => {
                if n != self.item_limit {
                    self.item_limit = n;
                    (false, true)
                } else {
                    (false, false)
                }
            },
        }
    }

    /// Forgets the matches, before filtering again.
    pub fn clear_matches(&mut self)
        requires
            old(self).wf(),
        ensures
            final(self).wf(),
            final(self).all_matches@.len() == 0,
            final(self).items == old(self).items,
            final(self).match_lower == old(self).match_lower,
            final(self).finders == old(self).finders,
            final(self).current_query == old(self).current_query,
            final(self).item_limit == old(self).item_limit,
            final(self).use_filename_only == old(self).use_filename_only,
            final(self).is_content == old(self).is_content,
    {
        self.all_matches = Vec::new();
    }

    /// Filters the items `lo..hi` (a chunk of a new filtering) against the
    /// current query, adding those that match.
    pub fn refilter_range(&mut self, lo: usize, hi: usize)
        requires
            old(self).wf(),
            lo <= hi <= old(self).items@.len(),
        ensures
            final(self).wf(),
            final(self).all_matches@ == old(self).all_matches@ + matching(old(self).lowers(), old(self).finders.toks(), lo as int, hi as int),
            final(self).items == old(self).items,
            final(self).match_lower == old(self).match_lower,
            final(self).finders == old(self).finders,
            final(self).current_query == old(self).current_query,
            final(self).item_limit == old(self).item_limit,
            final(self).use_filename_only == old(self).use_filename_only,
            final(self).is_content == old(self).is_content,
    {
        let ghost base = self.all_matches@;
        let mut idx = lo;
        while idx < hi
            invariant
                lo <= idx <= hi <= self.items@.len() == self.match_lower@.len(),
                self.all_matches@ == base + matching(self.lowers(), self.finders.toks(), lo as int, idx as int),
                base == old(self).all_matches@,
                self.items == old(self).items,
                self.match_lower == old(self).match_lower,
                self.finders == old(self).finders,
                self.current_query == old(self).current_query,
                self.item_limit == old(self).item_limit,
                self.use_filename_only == old(self).use_filename_only,
                self.is_content == old(self).is_content,
            decreases hi - idx,
        {
            let hit = self.finders.is_empty() || self.finders.matches(self.match_lower[idx].as_slice());
            proof {
                assert(self.lowers()[idx as int] == self.match_lower@[idx as int]@);
                if self.finders.toks().len() == 0 {
                    assert(all_occur(self.lowers()[idx as int], self.finders.toks()));
                }
            }
            if hit {
                self.all_matches.push(idx);
            }
            proof {
                assert(self.all_matches@ =~= base + matching(self.lowers(), self.finders.toks(), lo as int, idx + 1));
            }
            idx = idx + 1;
        }
        proof {
            lemma_matching_bounded(self.lowers(), self.finders.toks(), lo as int, hi as int);
            assert forall|k: int| 0 <= k < self.all_matches@.len() implies #[trigger] self.all_matches@[k] < self.items@.len() by {
                if k >= base.len() {
                    assert(self.all_matches@[k] == matching(self.lowers(), self.finders.toks(), lo as int, hi as int)[k - base.len()]);
                }
            }
        }
    }

    /// What to report: the results for the first `item_limit` matches, the
    /// number of matches and of items, and whether work goes on.
    pub fn state(&self, working: bool) -> (r: MatcherState)
        requires
            self.wf(),
        ensures
            r.total_matches == self.all_matches@.len(),
            r.total_items == self.items@.len(),
            r.working == working,
            r.results@.len() == (if self.item_limit < self.all_matches@.len() { self.item_limit as int } else { self.all_matches@.len() as int }),
            forall|k: int| 0 <= k < r.results@.len() ==> result_for(#[trigger] r.results@[k],
                self.items@[self.all_matches@[k] as int], self.finders.toks(), self.is_content),
    {
        let results = build_results(self.items.as_slice(), self.all_matches.as_slice(), &self.finders, self.is_content,
            self.item_limit as usize);
        MatcherState {
            results,
            total_matches: self.all_matches.len() as u64,
            total_items: self.items.len() as u64,
            working,
        }
    }
}

/// Every index `matching` yields lies in `lo..hi`.
pub proof fn lemma_matching_bounded(lowers: Seq<Seq<char>>, toks: Seq<Seq<char>>, lo: int, hi: int)
    requires
        0 <= lo,
        hi <= usize::MAX,
    ensures
        forall|k: int| 0 <= k < matching(lowers, toks, lo, hi).len() ==> lo <= #[trigger] matching(lowers, toks, lo, hi)[k] < hi,
    decreases hi - lo,
{
    if hi > lo {
        lemma_matching_bounded(lowers, toks, lo, hi - 1);
        let prev = matching(lowers, toks, lo, hi - 1);
        let m = matching(lowers, toks, lo, hi);
        assert forall|k: int| 0 <= k < m.len() implies lo <= #[trigger] m[k] < hi by {
            if k < prev.len() {
                assert(m[k] == prev[k]);
            }
        }
    }
}

} // verus!

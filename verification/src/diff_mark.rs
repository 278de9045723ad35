//! Marking two search results to compare them side by side.
use vstd::prelude::*;
use crate::chars::{str_eq, to_owned_string};
use crate::search_types::SearchItem;
use crate::log_format::{chars_lt, lemma_chars_lt_order, str_lt};

verus! {

/// The file an item previews, when it has one.
pub open spec fn item_path(item: SearchItem) -> Option<Seq<char>> {
    match item {
        SearchItem::Path(p) => Some(p@),
        SearchItem::Grep { path, .. } => Some(path@),
        SearchItem::GitHistory { path, .. } => Some(path@),
        _ => None,
    }
}

/// Some marked item previews the file `p`.
pub open spec fn path_marked(marked: Seq<SearchItem>, p: Seq<char>) -> bool {
    exists|i: int| 0 <= i < marked.len() && #[trigger] item_path(marked[i]) == Some(p)
}

/// The marked items preview at least two different files.
pub open spec fn two_paths_marked(marked: Seq<SearchItem>) -> bool {
    exists|i: int, j: int|
        0 <= i < marked.len() && 0 <= j < marked.len() && (#[trigger] item_path(marked[i])) is Some
            && (#[trigger] item_path(marked[j])) is Some && item_path(marked[i]) != item_path(marked[j])
}

/// Why `item` cannot be marked beside `marked`, if it cannot: it must
/// preview a file, a file other than the marked ones, and at most two files
/// may be marked.
pub open spec fn diff_mark_refusal(marked: Seq<SearchItem>, item: SearchItem) -> Option<Seq<char>> {
    match item_path(item) {
        None => Some("Diff mode only supports file-backed results"@),
        Some(p) => if path_marked(marked, p) {
            Some("Diff mode requires two distinct files"@)
        } else if two_paths_marked(marked) {
            Some("Diff mode allows marking at most two files"@)
        } else {
            None
        },
    }
}

/// Checks that `item` may be marked for a diff beside the items `marked`
/// (see `diff_mark_refusal`); the message says why not.
pub fn validate_diff_mark(marked: &[SearchItem], item: &SearchItem) -> (r: Option<String>)
    ensures
        match diff_mark_refusal(marked@, *item) {
            Some(m) => r is Some && r->0@ == m,
            None => r is None,
        },
{
    let path = match item.preview_path() {
        Some(p) => p,
        None => return Some(to_owned_string("Diff mode only supports file-backed results")),
    };
    let mut first: Option<&str> = None;
    let mut two = false;
    let mut i: usize = 0;
    while i < marked.len()
        invariant
            i <= marked@.len(),
            item_path(*item) == Some(path@),
            forall|k: int| 0 <= k < i ==> #[trigger] item_path(marked@[k]) != Some(path@),
            first is None ==> forall|k: int| 0 <= k < i ==> (#[trigger] item_path(marked@[k])) is None,
            first is Some ==> exists|k: int| 0 <= k < i && #[trigger] item_path(marked@[k]) == Some(first->0@),
            first is Some ==> forall|k: int| 0 <= k < i && (#[trigger] item_path(marked@[k])) is Some ==>
                (two || item_path(marked@[k]) == Some(first->0@)),
            two ==> two_paths_marked(marked@),
        decreases marked@.len() - i,
    {
        match marked[i].preview_path() {
            Some(p) => {
                if str_eq(p, path) {
                    proof {
                        assert(item_path(marked@[i as int]) == Some(path@));
                    }
                    return Some(to_owned_string("Diff mode requires two distinct files"));
                }
                match first {
                    None => {
                        first = Some(p);
                        proof {
                            assert(item_path(marked@[i as int]) == Some(p@));
                        }
                    },
                    Some(f) => {
                        if !str_eq(f, p) {
                            proof {
                                let k = choose|k: int| 0 <= k < i && #[trigger] item_path(marked@[k]) == Some(f@);
                                assert(item_path(marked@[i as int]) == Some(p@));
                                assert(item_path(marked@[k]) != item_path(marked@[i as int]));
                            }
                            two = true;
                        }
                    },
                }
            },
            None => {},
        }
        i = i + 1;
    }
    proof {
        assert(!path_marked(marked@, path@));
        if two_paths_marked(marked@) && !two {
            let (a, b) = choose|a: int, b: int|
                0 <= a < marked@.len() && 0 <= b < marked@.len() && (#[trigger] item_path(marked@[a])) is Some
                    && (#[trigger] item_path(marked@[b])) is Some && item_path(marked@[a]) != item_path(marked@[b]);
            assert(first is Some);
            assert(item_path(marked@[a]) == Some(first->0@));
            assert(item_path(marked@[b]) == Some(first->0@));
        }
    }
    if two {
        Some(to_owned_string("Diff mode allows marking at most two files"))
    } else {
        None
    }
}

/// The two items are the same result: the same kind, with the same fields.
pub open spec fn same_item(a: SearchItem, b: SearchItem) -> bool {
    match (a, b) {
        (SearchItem::Path(x), SearchItem::Path(y)) => x@ == y@,
        (SearchItem::Grep { path: p1, line: l1, text: t1 }, SearchItem::Grep { path: p2, line: l2, text: t2 }) =>
            p1@ == p2@ && l1 == l2 && t1@ == t2@,
        (
            SearchItem::GitHistory { commit: c1, path: p1, line: l1, text: t1 },
            SearchItem::GitHistory { commit: c2, path: p2, line: l2, text: t2 },
        ) => c1@ == c2@ && p1@ == p2@ && l1 == l2 && t1@ == t2@,
        (
            SearchItem::GitBranch { branch: b1, commit: c1, subject: s1, is_head: h1, relative_time: r1 },
            SearchItem::GitBranch { branch: b2, commit: c2, subject: s2, is_head: h2, relative_time: r2 },
        ) => b1@ == b2@ && c1@ == c2@ && s1@ == s2@ && h1 == h2 && r1@ == r2@,
        (
            SearchItem::GitCommit { commit: c1, short_commit: k1, subject: s1, author: a1, date: d1, refs: r1 },
            SearchItem::GitCommit { commit: c2, short_commit: k2, subject: s2, author: a2, date: d2, refs: r2 },
        ) => c1@ == c2@ && k1@ == k2@ && s1@ == s2@ && a1@ == a2@ && d1@ == d2@ && r1@ == r2@,
        (SearchItem::Stdin(x), SearchItem::Stdin(y)) => x@ == y@,
        (SearchItem::Message(x), SearchItem::Message(y)) => x@ == y@,
        _ => false,
    }
}

/// Whether the two items are the same result (see `same_item`).
pub fn items_equal(a: &SearchItem, b: &SearchItem) -> (r: bool)
    ensures
        r == same_item(*a, *b),
{
    match (a, b) {
        (SearchItem::Path(x), SearchItem::Path(y)) => str_eq(x, y),
        (SearchItem::Grep { path: p1, line: l1, text: t1 }, SearchItem::Grep { path: p2, line: l2, text: t2 }) =>
            str_eq(p1, p2) && *l1 == *l2 && str_eq(t1, t2),
        (
            SearchItem::GitHistory { commit: c1, path: p1, line: l1, text: t1 },
            SearchItem::GitHistory { commit: c2, path: p2, line: l2, text: t2 },
        ) => str_eq(c1, c2) && str_eq(p1, p2) && *l1 == *l2 && str_eq(t1, t2),
        (
            SearchItem::GitBranch { branch: b1, commit: c1, subject: s1, is_head: h1, relative_time: r1 },
            SearchItem::GitBranch { branch: b2, commit: c2, subject: s2, is_head: h2, relative_time: r2 },
        ) => str_eq(b1, b2) && str_eq(c1, c2) && str_eq(s1, s2) && *h1 == *h2 && str_eq(r1, r2),
        (
            SearchItem::GitCommit { commit: c1, short_commit: k1, subject: s1, author: a1, date: d1, refs: r1 },
            SearchItem::GitCommit { commit: c2, short_commit: k2, subject: s2, author: a2, date: d2, refs: r2 },
        ) => str_eq(c1, c2) && str_eq(k1, k2) && str_eq(s1, s2) && str_eq(a1, a2) && str_eq(d1, d2) && str_eq(r1, r2),
        (SearchItem::Stdin(x), SearchItem::Stdin(y)) => str_eq(x, y),
        (SearchItem::Message(x), SearchItem::Message(y)) => str_eq(x, y),
        _ => false,
    }
}

/// A copy of an item.
pub fn copy_item(item: &SearchItem) -> (r: SearchItem)
    ensures
        same_item(r, *item),
{
    match item {
        SearchItem::Path(p) => SearchItem::Path(to_owned_string(p)),
        SearchItem::Grep { path, line, text } => SearchItem::Grep { path: to_owned_string(path), line: *line, text: to_owned_string(text) },
        SearchItem::GitHistory { commit, path, line, text } => SearchItem::GitHistory {
            commit: to_owned_string(commit),
            path: to_owned_string(path),
            line: *line,
            text: to_owned_string(text),
        },
        SearchItem::GitBranch { branch, commit, subject, is_head, relative_time } => SearchItem::GitBranch {
            branch: to_owned_string(branch),
            commit: to_owned_string(commit),
            subject: to_owned_string(subject),
            is_head: *is_head,
            relative_time: to_owned_string(relative_time),
        },
        SearchItem::GitCommit { commit, short_commit, subject, author, date, refs } => SearchItem::GitCommit {
            commit: to_owned_string(commit),
            short_commit: to_owned_string(short_commit),
            subject: to_owned_string(subject),
            author: to_owned_string(author),
            date: to_owned_string(date),
            refs: to_owned_string(refs),
        },
        SearchItem::Stdin(t) => SearchItem::Stdin(to_owned_string(t)),
        SearchItem::Message(t) => SearchItem::Message(to_owned_string(t)),
    }
}

/// The index of the first marked item that is `item`, if any.
pub open spec fn marked_index(marked: Seq<SearchItem>, item: SearchItem) -> Option<int> {
    if exists|k: int| 0 <= k < marked.len() && same_item(marked[k], item) {
        Some(choose|k: int| 0 <= k < marked.len() && same_item(marked[k], item)
            && forall|j: int| 0 <= j < k ==> !same_item(marked[j], item))
    } else {
        None
    }
}

/// Marks or unmarks `item` for a diff: a marked item is unmarked; else it
/// is marked, unless it cannot be (see `diff_mark_refusal`), and then the
/// marks stay and the reason is returned.
pub fn toggle_diff_mark(marked: &mut Vec<SearchItem>, item: &SearchItem) -> (r: Option<String>)
    ensures
        match marked_index(old(marked)@, *item) {
            Some(k) => r is None && final(marked)@ == old(marked)@.remove(k),
            None => match diff_mark_refusal(old(marked)@, *item) {
                Some(m) => r is Some && r->0@ == m && final(marked)@ == old(marked)@,
                None => r is None && final(marked)@.len() == old(marked)@.len() + 1
                    && final(marked)@.take(old(marked)@.len() as int) == old(marked)@
                    && same_item(final(marked)@.last(), *item),
            },
        },
{
    let mut i: usize = 0;
    while i < marked.len()
        invariant
            i <= marked@.len(),
            marked@ == old(marked)@,
            forall|j: int| 0 <= j < i ==> !same_item(marked@[j], *item),
        decreases marked@.len() - i,
    {
        if items_equal(&marked[i], item) {
            proof {
                let k = choose|k: int| 0 <= k < marked@.len() && same_item(marked@[k], *item)
                    && forall|j: int| 0 <= j < k ==> !same_item(marked@[j], *item);
                assert(0 <= i < marked@.len() && same_item(marked@[i as int], *item)
                    && forall|j: int| 0 <= j < i ==> !same_item(marked@[j], *item));
                if k < i {
                } else if k > i {
                }
                assert(k == i);
            }
            marked.remove(i);
            return None;
        }
        i = i + 1;
    }
    match validate_diff_mark(marked.as_slice(), item) {
        Some(m) => Some(m),
        None => {
            let c = copy_item(item);
            marked.push(c);
            proof {
                assert(marked@.take(old(marked)@.len() as int) =~= old(marked)@);
            }
            None
        },
    }
}

/// The file of an item that a diff compares: that of a path or a content
/// match.
pub open spec fn diff_file(item: SearchItem) -> Option<Seq<char>> {
    match item {
        SearchItem::Path(p) => Some(p@),
        SearchItem::Grep { path, .. } => Some(path@),
        _ => None,
    }
}

/// The marked items name exactly the two files `a` and `b`.
pub open spec fn exactly_two(marked: Seq<SearchItem>, a: Seq<char>, b: Seq<char>) -> bool {
    &&& a != b
    &&& exists|i: int| 0 <= i < marked.len() && diff_file(marked[i]) == Some(a)
    &&& exists|i: int| 0 <= i < marked.len() && diff_file(marked[i]) == Some(b)
    &&& forall|i: int| 0 <= i < marked.len() && (#[trigger] diff_file(marked[i])) is Some
        ==> diff_file(marked[i]) == Some(a) || diff_file(marked[i]) == Some(b)
}

/// The file of an item a diff compares (see `diff_file`).
fn diff_file_of(item: &SearchItem) -> (r: Option<&str>)
    ensures
        match diff_file(*item) {
            Some(p) => r is Some && r->0@ == p,
            None => r is None,
        },
{
    match item {
        SearchItem::Path(p) => Some(p.as_str()),
        SearchItem::Grep { path, .. } => Some(path.as_str()),
        _ => None,
    }
}

proof fn lemma_chars_lt_total(a: Seq<char>, b: Seq<char>)
    requires
        a != b,
    ensures
        chars_lt(a, b) || chars_lt(b, a),
    decreases a.len(),
{
    if a.len() > 0 && b.len() > 0 && a[0] == b[0] {
        if a.drop_first() =~= b.drop_first() {
            assert forall|k: int| 0 <= k < a.len() implies a[k] == b[k] by {
                if k > 0 {
                    assert(a[k] == a.drop_first()[k - 1]);
                    assert(b[k] == b.drop_first()[k - 1]);
                }
            }
            assert(a =~= b);
        }
        lemma_chars_lt_total(a.drop_first(), b.drop_first());
    } else if a.len() == 0 && b.len() == 0 {
        assert(a =~= b);
    } else if a.len() > 0 && b.len() > 0 {
        vstd::utf8::char_u32_cast(a[0], a[0] as u32);
        vstd::utf8::char_u32_cast(b[0], b[0] as u32);
        assert((a[0] as u32) != (b[0] as u32));
    }
}

/// The two files to compare, in order, when the marked items name exactly
/// two files (see `exactly_two`).
pub fn marked_diff_paths(marked: &[SearchItem]) -> (r: Option<(String, String)>)
    ensures
        match r {
            Some((a, b)) => exactly_two(marked@, a@, b@) && chars_lt(a@, b@),
            None => forall|a: Seq<char>, b: Seq<char>| !exactly_two(marked@, a, b),
        },
{
    let mut first: Option<&str> = None;
    let mut second: Option<&str> = None;
    let mut i: usize = 0;
    while i < marked.len()
        invariant
            i <= marked@.len(),
            second is Some ==> first is Some && first->0@ != second->0@,
            first is None ==> forall|k: int| 0 <= k < i ==> (#[trigger] diff_file(marked@[k])) is None,
            first is Some ==> exists|k: int| 0 <= k < i && diff_file(marked@[k]) == Some(first->0@),
            second is Some ==> exists|k: int| 0 <= k < i && diff_file(marked@[k]) == Some(second->0@),
            first is Some ==> forall|k: int| 0 <= k < i && (#[trigger] diff_file(marked@[k])) is Some
                ==> diff_file(marked@[k]) == Some(first->0@) || (second is Some && diff_file(marked@[k]) == Some(second->0@)),
        decreases marked@.len() - i,
    {
        match diff_file_of(&marked[i]) {
            Some(p) => {
                match first {
                    None => {
                        first = Some(p);
                    },
                    Some(f) => {
                        if !str_eq(f, p) {
                            match second {
                                None => {
                                    second = Some(p);
                                },
                                Some(s) => {
                                    if !str_eq(s, p) {
                                        proof {
                                            assert forall|a: Seq<char>, b: Seq<char>| !exactly_two(marked@, a, b) by {
                                                if exactly_two(marked@, a, b) {
                                                    let k1 = choose|k: int| 0 <= k < i && diff_file(marked@[k]) == Some(f@);
                                                    let k2 = choose|k: int| 0 <= k < i && diff_file(marked@[k]) == Some(s@);
                                                    assert(diff_file(marked@[i as int]) == Some(p@));
                                                    assert(diff_file(marked@[k1]) is Some);
                                                    assert(diff_file(marked@[k2]) is Some);
                                                }
                                            }
                                        }
                                        return None;
                                    }
                                },
                            }
                        }
                    },
                }
            },
            None => {},
        }
        i = i + 1;
    }
    match (first, second) {
        (Some(f), Some(s)) => {
            proof {
                assert(exactly_two(marked@, f@, s@));
            }
            if str_lt(f, s) {
                Some((to_owned_string(f), to_owned_string(s)))
            } else {
                proof {
                    lemma_chars_lt_total(f@, s@);
                    assert(exactly_two(marked@, s@, f@));
                }
                Some((to_owned_string(s), to_owned_string(f)))
            }
        },
        _ => {
            proof {
                assert forall|a: Seq<char>, b: Seq<char>| !exactly_two(marked@, a, b) by {
                    if exactly_two(marked@, a, b) {
                        let ka = choose|k: int| 0 <= k < marked@.len() && diff_file(marked@[k]) == Some(a);
                        let kb = choose|k: int| 0 <= k < marked@.len() && diff_file(marked@[k]) == Some(b);
                        assert(diff_file(marked@[ka]) is Some);
                        assert(diff_file(marked@[kb]) is Some);
                    }
                }
            }
            None
        },
    }
}

} // verus!

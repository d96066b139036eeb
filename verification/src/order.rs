//! The order of a listing: paths sorted by the lexical order of their texts.

use vstd::prelude::*;
use vstd::multiset::Multiset;
use crate::paths::{path_text, path_views, RelPath};
use crate::text::{lemma_lex_lt_le, lemma_lex_total, lex_le, lex_lt, str_lt};

verus! {

/// Whether the paths stand in the lexical order of their texts.
pub open spec fn sorted_by_text(paths: Seq<Seq<Seq<char>>>) -> bool {
    forall|i: int, j: int|
        0 <= i < j < paths.len() ==> lex_le(
            path_text(#[trigger] paths[i]),
            path_text(#[trigger] paths[j]),
        )
}

/// The texts of the given paths, in the same order.
pub open spec fn path_texts(paths: Seq<Seq<Seq<char>>>) -> Seq<Seq<char>> {
    Seq::new(paths.len(), |i: int| path_text(paths[i]))
}

/// The index behind the last of the sorted `keys` that `key` does not come
/// before: where `key` can be put so that the keys stay sorted.
fn upper_bound(keys: &Vec<String>, key: &str) -> (i: usize)
    requires
        forall|a: int, b: int|
            0 <= a < b < keys@.len() ==> lex_le((#[trigger] keys@[a])@, (#[trigger] keys@[b])@),
    ensures
        i <= keys@.len(),
        forall|k: int| 0 <= k < i ==> lex_le((#[trigger] keys@[k])@, key@),
        forall|k: int| i <= k < keys@.len() ==> lex_lt(key@, (#[trigger] keys@[k])@),
{
    let mut low: usize = 0;
    let mut high: usize = keys.len();
    while low < high
        invariant
            low <= high <= keys@.len(),
            forall|a: int, b: int|
                0 <= a < b < keys@.len() ==> lex_le(
                    (#[trigger] keys@[a])@,
                    (#[trigger] keys@[b])@,
                ),
            forall|k: int| 0 <= k < low ==> lex_le((#[trigger] keys@[k])@, key@),
            forall|k: int| high <= k < keys@.len() ==> lex_lt(key@, (#[trigger] keys@[k])@),
        decreases high - low,
    {
        let middle = low + (high - low) / 2;
        if str_lt(key, keys[middle].as_str()) {
            proof {
                assert forall|k: int| middle <= k < keys@.len() implies lex_lt(
                    key@,
                    (#[trigger] keys@[k])@,
                ) by {
                    if k > middle {
                        lemma_lex_lt_le(key@, keys@[middle as int]@, keys@[k]@);
                    }
                }
            }
            high = middle;
        } else {
            proof {
                assert forall|k: int| 0 <= k < middle + 1 implies lex_le(
                    (#[trigger] keys@[k])@,
                    key@,
                ) by {
                    if k < middle && lex_lt(key@, keys@[k]@) {
                        lemma_lex_lt_le(key@, keys@[k]@, keys@[middle as int]@);
                    }
                }
            }
            low = middle + 1;
        }
    }
    low
}

/// Sorts paths by the lexical order of their texts.
pub fn sort_paths(paths: Vec<RelPath>) -> (sorted: Vec<RelPath>)
    ensures
        sorted_by_text(path_views(sorted@)),
        path_views(sorted@).to_multiset() == path_views(paths@).to_multiset(),
{
    broadcast use vstd::multiset::group_multiset_axioms;

    let ghost given = path_views(paths@);
    let mut rest = paths;
    let mut sorted: Vec<RelPath> = Vec::new();
    let mut keys: Vec<String> = Vec::new();
    proof {
        lemma_no_paths(path_views(sorted@));
    }
    while rest.len() > 0
        invariant
            keys@.len() == sorted@.len(),
            forall|k: int|
                0 <= k < keys@.len() ==> (#[trigger] keys@[k])@ == path_text(sorted@[k]@),
            sorted_by_text(path_views(sorted@)),
            path_views(sorted@).to_multiset().add(path_views(rest@).to_multiset())
                == given.to_multiset(),
        decreases rest.len(),
    {
        let ghost rest_before = rest@;
        let ghost sorted_before = sorted@;
        let ghost keys_before = keys@;
        let path = rest.pop().unwrap();
        let key = path.text();
        let ghost path_view = path@;
        proof {
            assert forall|a: int, b: int| 0 <= a < b < keys@.len() implies lex_le(
                (#[trigger] keys@[a])@,
                (#[trigger] keys@[b])@,
            ) by {
                let views = path_views(sorted@);
                assert(views[a] == sorted@[a]@ && views[b] == sorted@[b]@);
            }
        }
        let i = upper_bound(&keys, key.as_str());
        sorted.insert(i, path);
        keys.insert(i, key);
        proof {
            let before = path_views(sorted_before);
            let after = path_views(sorted@);
            let left = path_views(rest@);
            assert(after =~= before.insert(i as int, path_view));
            assert(path_views(rest_before) =~= left.push(path_view));
            vstd::seq_lib::to_multiset_insert(before, i as int, path_view);
            vstd::seq_lib::to_multiset_build(left, path_view);
            assert forall|k: int| 0 <= k < i implies lex_le(
                path_text(#[trigger] before[k]),
                path_text(path_view),
            ) by {
                assert(keys_before[k]@ == path_text(sorted_before[k]@));
            }
            if i < before.len() {
                assert(keys_before[i as int]@ == path_text(sorted_before[i as int]@));
            }
            assert forall|a: int, b: int| 0 <= a < b < after.len() implies lex_le(
                path_text(#[trigger] after[a]),
                path_text(#[trigger] after[b]),
            ) by {
                lemma_sorted_insert(before, i as int, path_view, a, b);
            }
        }
    }
    proof {
        lemma_no_paths(path_views(rest@));
    }
    sorted
}

/// A list without paths has the empty multiset.
proof fn lemma_no_paths(paths: Seq<Seq<Seq<char>>>)
    requires
        paths.len() == 0,
    ensures
        paths.to_multiset() == Multiset::<Seq<Seq<char>>>::empty(),
{
    vstd::seq_lib::to_multiset_len(paths);
}

/// A path put into a sorted list behind everything that does not follow it
/// and in front of something that does leaves the list sorted.
proof fn lemma_sorted_insert(
    before: Seq<Seq<Seq<char>>>,
    i: int,
    path: Seq<Seq<char>>,
    a: int,
    b: int,
)
    requires
        sorted_by_text(before),
        0 <= i <= before.len(),
        forall|k: int| 0 <= k < i ==> lex_le(path_text(#[trigger] before[k]), path_text(path)),
        i < before.len() ==> lex_lt(path_text(path), path_text(before[i])),
        0 <= a < b < before.len() + 1,
    ensures
        lex_le(path_text(before.insert(i, path)[a]), path_text(before.insert(i, path)[b])),
{
    let after = before.insert(i, path);
    let key = path_text(path);
    if b < i {
        assert(after[a] == before[a] && after[b] == before[b]);
    } else if b == i {
        assert(after[a] == before[a] && after[b] == path);
    } else if a < i {
        assert(after[a] == before[a] && after[b] == before[b - 1]);
    } else if a == i {
        let kb = path_text(before[b - 1]);
        if b - 1 > i {
            lemma_lex_lt_le(key, path_text(before[i]), kb);
        }
        lemma_lex_total(key, kb);
    } else {
        assert(after[a] == before[a - 1] && after[b] == before[b - 1]);
    }
}

/// Sorting leaves no choice in what a listing shows: two sorted lists of the
/// same paths show the same texts in the same order.
pub proof fn lemma_sorted_order_is_unique(a: Seq<Seq<Seq<char>>>, b: Seq<Seq<Seq<char>>>)
    requires
        sorted_by_text(a),
        sorted_by_text(b),
        a.to_multiset() == b.to_multiset(),
    ensures
        path_texts(a) == path_texts(b),
    decreases a.len(),
{
    vstd::seq_lib::to_multiset_len(a);
    vstd::seq_lib::to_multiset_len(b);
    let n = a.len() as int;
    if n == 0 {
        assert(path_texts(a) =~= path_texts(b));
    } else {
        let x = a.last();
        let y = b.last();
        let tx = path_text(x);
        let ty = path_text(y);
        vstd::seq_lib::to_multiset_contains(a, x);
        vstd::seq_lib::to_multiset_contains(b, x);
        vstd::seq_lib::to_multiset_contains(a, y);
        vstd::seq_lib::to_multiset_contains(b, y);
        let j = choose|j: int| 0 <= j < n && b[j] == x;
        lemma_lex_total(tx, ty);
        let a0 = a.remove(n - 1);
        let b0 = b.remove(j);
        vstd::seq_lib::to_multiset_remove(a, n - 1);
        vstd::seq_lib::to_multiset_remove(b, j);
        lemma_sorted_order_is_unique(a0, b0);
        assert forall|m: int| j <= m < n implies path_text(#[trigger] b[m]) == tx by {
            let tm = path_text(b[m]);
            lemma_lex_total(tm, tx);
        }
        assert forall|i: int| 0 <= i < n implies path_texts(a)[i] == path_texts(b)[i] by {
            if i < n - 1 {
                assert(path_texts(a0)[i] == path_texts(b0)[i]);
            }
        }
    }
}

} // verus!

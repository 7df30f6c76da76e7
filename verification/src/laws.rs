//! General properties of prefix queries over a dictionary, proved once and
//! for all: what `find_prefixes` returns is fully determined by the
//! dictionary through `prefix_matches` and `some_word_starts_with`, so each
//! law is stated over those.

use vstd::prelude::*;
use crate::suffix_trie::prefix_matches;
use crate::suffix_trie::some_word_starts_with;
use crate::suffix_trie::lemma_prefix_iff_extends;

verus! {

/// Inserting a word the dictionary already holds changes no query: the same
/// prefixes are found and every prefix keeps the same continuation set,
/// though the dictionary log itself grows by the duplicate.
pub proof fn lemma_duplicate_word_preserves_queries(
    dict: Seq<Seq<char>>,
    w: Seq<char>,
    p: Seq<char>,
)
    requires
        exists|k: int| 0 <= k < dict.len() && #[trigger] dict[k] == w,
    ensures
        prefix_matches(dict.push(w), p) == prefix_matches(dict, p),
        some_word_starts_with(dict.push(w), p) == some_word_starts_with(dict, p),
{
    let d2 = dict.push(w);
    assert forall|t: Seq<char>|
        prefix_matches(d2, p).contains(t) implies prefix_matches(dict, p).contains(t) by {
        let k = choose|k: int| 0 <= k < d2.len() && #[trigger] d2[k] == p + t;
        if k < dict.len() {
            assert(dict[k] == p + t);
        } else {
            let k0 = choose|k0: int| 0 <= k0 < dict.len() && #[trigger] dict[k0] == w;
            assert(dict[k0] == p + t);
        }
    }
    assert forall|t: Seq<char>|
        prefix_matches(dict, p).contains(t) implies prefix_matches(d2, p).contains(t) by {
        let k = choose|k: int| 0 <= k < dict.len() && #[trigger] dict[k] == p + t;
        assert(d2[k] == p + t);
    }
    assert(prefix_matches(d2, p) =~= prefix_matches(dict, p));
    assert(some_word_starts_with(d2, p) == some_word_starts_with(dict, p)) by {
        if some_word_starts_with(d2, p) {
            let k = choose|k: int| 0 <= k < d2.len() && p.is_prefix_of(#[trigger] d2[k]);
            if k < dict.len() {
                assert(p.is_prefix_of(dict[k]));
            } else {
                let k0 = choose|k0: int| 0 <= k0 < dict.len() && #[trigger] dict[k0] == w;
                assert(p.is_prefix_of(dict[k0]));
            }
        }
        if some_word_starts_with(dict, p) {
            let k = choose|k: int| 0 <= k < dict.len() && p.is_prefix_of(#[trigger] dict[k]);
            assert(p.is_prefix_of(d2[k]));
        }
    }
}

/// A query with the empty prefix finds exactly the inserted words: each word
/// is its own continuation of the empty prefix, and nothing else is indexed.
pub proof fn lemma_empty_prefix_finds_all_words(dict: Seq<Seq<char>>)
    ensures
        prefix_matches(dict, Seq::empty()) == dict.to_set(),
{
    let p = Seq::<char>::empty();
    assert forall|t: Seq<char>|
        prefix_matches(dict, p).contains(t) implies dict.to_set().contains(t) by {
        let k = choose|k: int| 0 <= k < dict.len() && #[trigger] dict[k] == p + t;
        assert(p + t =~= t);
        assert(dict[k] == t);
    }
    assert forall|t: Seq<char>|
        dict.to_set().contains(t) implies prefix_matches(dict, p).contains(t) by {
        let i = choose|i: int| 0 <= i < dict.len() && dict[i] == t;
        assert(p + t =~= t);
        assert(dict[i] == p + t);
    }
    assert(prefix_matches(dict, p) =~= dict.to_set());
}

/// A prefix that no inserted word starts with has no continuations at all;
/// in particular every query on an empty dictionary comes back not found.
pub proof fn lemma_unmatched_prefix_has_no_continuations(dict: Seq<Seq<char>>, p: Seq<char>)
    requires
        !some_word_starts_with(dict, p),
    ensures
        prefix_matches(dict, p) == Set::<Seq<char>>::empty(),
{
    assert forall|t: Seq<char>| !(prefix_matches(dict, p).contains(t)) by {
        if prefix_matches(dict, p).contains(t) {
            let k = choose|k: int| 0 <= k < dict.len() && #[trigger] dict[k] == p + t;
            lemma_prefix_iff_extends(dict[k], p);
            assert(p.is_prefix_of(dict[k]));
        }
    }
    assert(prefix_matches(dict, p) =~= Set::<Seq<char>>::empty());
}

/// Every prefix query depends only on the multiset of inserted words, never
/// on the order in which they were inserted.
pub proof fn lemma_insertion_order_irrelevant(d1: Seq<Seq<char>>, d2: Seq<Seq<char>>, p: Seq<char>)
    requires
        d1.to_multiset() == d2.to_multiset(),
    ensures
        prefix_matches(d1, p) == prefix_matches(d2, p),
        some_word_starts_with(d1, p) == some_word_starts_with(d2, p),
{
    broadcast use vstd::seq_lib::group_to_multiset_ensures;

    assert forall|t: Seq<char>|
        prefix_matches(d1, p).contains(t) implies prefix_matches(d2, p).contains(t) by {
        lemma_membership_transfer(d1, d2, p + t);
        let k2 = choose|k2: int| 0 <= k2 < d2.len() && d2[k2] == p + t;
        assert(d2[k2] == p + t);
    }
    assert forall|t: Seq<char>|
        prefix_matches(d2, p).contains(t) implies prefix_matches(d1, p).contains(t) by {
        lemma_membership_transfer(d2, d1, p + t);
        let k1 = choose|k1: int| 0 <= k1 < d1.len() && d1[k1] == p + t;
        assert(d1[k1] == p + t);
    }
    assert(prefix_matches(d1, p) =~= prefix_matches(d2, p));
    assert(some_word_starts_with(d1, p) == some_word_starts_with(d2, p)) by {
        if some_word_starts_with(d1, p) {
            lemma_starts_with_transfer(d1, d2, p);
        }
        if some_word_starts_with(d2, p) {
            lemma_starts_with_transfer(d2, d1, p);
        }
    }
}

/// A value held by one of two sequences with equal multisets is held by the
/// other as well.
proof fn lemma_membership_transfer(da: Seq<Seq<char>>, db: Seq<Seq<char>>, x: Seq<char>)
    requires
        da.to_multiset() == db.to_multiset(),
        exists|k: int| 0 <= k < da.len() && #[trigger] da[k] == x,
    ensures
        exists|k: int| 0 <= k < db.len() && #[trigger] db[k] == x,
{
    broadcast use vstd::seq_lib::group_to_multiset_ensures;

    let k = choose|k: int| 0 <= k < da.len() && #[trigger] da[k] == x;
    assert(da.contains(x));
    assert(da.to_multiset().count(x) > 0);
    assert(db.to_multiset().count(x) > 0);
    assert(db.contains(x));
    let k2 = choose|k2: int| 0 <= k2 < db.len() && db[k2] == x;
    assert(db[k2] == x);
}

/// If some word of one of two sequences with equal multisets starts with
/// `p`, some word of the other does too.
proof fn lemma_starts_with_transfer(da: Seq<Seq<char>>, db: Seq<Seq<char>>, p: Seq<char>)
    requires
        da.to_multiset() == db.to_multiset(),
        some_word_starts_with(da, p),
    ensures
        some_word_starts_with(db, p),
{
    let k = choose|k: int| 0 <= k < da.len() && p.is_prefix_of(#[trigger] da[k]);
    lemma_prefix_iff_extends(da[k], p);
    let t = choose|t: Seq<char>| da[k] == #[trigger] (p + t);
    lemma_membership_transfer(da, db, p + t);
    let k2 = choose|k2: int| 0 <= k2 < db.len() && #[trigger] db[k2] == p + t;
    lemma_prefix_iff_extends(db[k2], p);
    assert(p.is_prefix_of(db[k2]));
}

} // verus!

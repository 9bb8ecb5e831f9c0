//! Stable sorting by an integer key, as `slice::sort_by_key` does: the
//! mathematical definition by insertion, and what follows from it.

use vstd::prelude::*;

verus! {

/// Where a stable insertion puts `e` into `s`: after every element from the
/// back whose key is larger, and behind the last element whose key is not.
pub open spec fn insert_pos<T>(s: Seq<T>, e: T, key: spec_fn(T) -> int) -> int
    decreases s.len(),
{
    if s.len() == 0 || key(s.last()) <= key(e) {
        s.len() as int
    } else {
        insert_pos(s.drop_last(), e, key)
    }
}

/// `s` with `e` inserted stably by key.
pub open spec fn insert_by_key<T>(s: Seq<T>, e: T, key: spec_fn(T) -> int) -> Seq<T>
    decreases s.len(),
{
    if s.len() == 0 || key(s.last()) <= key(e) {
        s.push(e)
    } else {
        insert_by_key(s.drop_last(), e, key).push(s.last())
    }
}

/// The stable ascending sort of `s` by `key`.
pub open spec fn sort_by_key<T>(s: Seq<T>, key: spec_fn(T) -> int) -> Seq<T>
    decreases s.len(),
{
    if s.len() == 0 {
        s
    } else {
        insert_by_key(sort_by_key(s.drop_last(), key), s.last(), key)
    }
}

/// Keys never decrease along `s`.
pub open spec fn sorted_by_key<T>(s: Seq<T>, key: spec_fn(T) -> int) -> bool {
    forall|i: int, j: int| 0 <= i <= j < s.len() ==> key(#[trigger] s[i]) <= key(#[trigger] s[j])
}

pub proof fn lemma_insert_pos_bounds<T>(s: Seq<T>, e: T, key: spec_fn(T) -> int)
    ensures
        0 <= insert_pos(s, e, key) <= s.len(),
        forall|k: int| insert_pos(s, e, key) <= k < s.len() ==> key(#[trigger] s[k]) > key(e),
        insert_pos(s, e, key) > 0 ==> key(s[insert_pos(s, e, key) - 1]) <= key(e),
    decreases s.len(),
{
    if s.len() > 0 && key(s.last()) > key(e) {
        let t = s.drop_last();
        lemma_insert_pos_bounds(t, e, key);
        assert forall|k: int| insert_pos(s, e, key) <= k < s.len() implies key(#[trigger] s[k]) > key(e) by {
            if k < t.len() {
                assert(s[k] == t[k]);
            }
        }
        if insert_pos(s, e, key) > 0 {
            assert(s[insert_pos(s, e, key) - 1] == t[insert_pos(t, e, key) - 1]);
        }
    }
}

/// Stable insertion is `Seq::insert` at `insert_pos`.
pub proof fn lemma_insert_is_insert<T>(s: Seq<T>, e: T, key: spec_fn(T) -> int)
    ensures
        insert_by_key(s, e, key) == s.insert(insert_pos(s, e, key), e),
    decreases s.len(),
{
    if s.len() == 0 || key(s.last()) <= key(e) {
        assert(s.insert(s.len() as int, e) =~= s.push(e));
    } else {
        let t = s.drop_last();
        lemma_insert_is_insert(t, e, key);
        lemma_insert_pos_bounds(t, e, key);
        let p = insert_pos(t, e, key);
        assert(t.insert(p, e).push(s.last()) =~= s.insert(p, e));
    }
}

/// Inserting adds exactly one occurrence of `e`.
pub proof fn lemma_insert_multiset<T>(s: Seq<T>, e: T, key: spec_fn(T) -> int)
    ensures
        insert_by_key(s, e, key).to_multiset() == s.to_multiset().insert(e),
    decreases s.len(),
{
    broadcast use vstd::seq_lib::group_to_multiset_ensures;
    if s.len() == 0 || key(s.last()) <= key(e) {
    } else {
        let t = s.drop_last();
        lemma_insert_multiset(t, e, key);
        assert(s =~= t.push(s.last()));
        assert(insert_by_key(s, e, key).to_multiset() =~= s.to_multiset().insert(e));
    }
}

/// Sorting keeps exactly the elements, with their multiplicities.
pub proof fn lemma_sort_multiset<T>(s: Seq<T>, key: spec_fn(T) -> int)
    ensures
        sort_by_key(s, key).to_multiset() == s.to_multiset(),
        sort_by_key(s, key).len() == s.len(),
    decreases s.len(),
{
    broadcast use vstd::seq_lib::group_to_multiset_ensures;
    if s.len() > 0 {
        let t = s.drop_last();
        lemma_sort_multiset(t, key);
        lemma_insert_multiset(sort_by_key(t, key), s.last(), key);
        lemma_insert_is_insert(sort_by_key(t, key), s.last(), key);
        lemma_insert_pos_bounds(sort_by_key(t, key), s.last(), key);
        assert(s =~= t.push(s.last()));
        assert(sort_by_key(s, key).to_multiset() =~= s.to_multiset());
    }
}

/// Inserting into a sorted sequence keeps it sorted.
pub proof fn lemma_insert_sorted<T>(s: Seq<T>, e: T, key: spec_fn(T) -> int)
    requires
        sorted_by_key(s, key),
    ensures
        sorted_by_key(insert_by_key(s, e, key), key),
{
    lemma_insert_is_insert(s, e, key);
    lemma_insert_pos_bounds(s, e, key);
    let p = insert_pos(s, e, key);
    let r = s.insert(p, e);
    assert forall|i: int, j: int| 0 <= i <= j < r.len() implies key(#[trigger] r[i]) <= key(#[trigger] r[j]) by {
        if i < p && j < p {
            assert(r[i] == s[i] && r[j] == s[j]);
        } else if i < p && j == p {
            assert(r[i] == s[i]);
            assert(key(s[i]) <= key(s[p - 1]));
        } else if i < p && j > p {
            assert(r[i] == s[i] && r[j] == s[j - 1]);
        } else if i == p && j > p {
            assert(r[j] == s[j - 1]);
        } else if i > p {
            assert(r[i] == s[i - 1] && r[j] == s[j - 1]);
        }
    }
}

/// The sort is sorted.
pub proof fn lemma_sort_sorted<T>(s: Seq<T>, key: spec_fn(T) -> int)
    ensures
        sorted_by_key(sort_by_key(s, key), key),
    decreases s.len(),
{
    if s.len() > 0 {
        lemma_sort_sorted(s.drop_last(), key);
        lemma_insert_sorted(sort_by_key(s.drop_last(), key), s.last(), key);
    }
}

/// Every element of the sort is an element of the input.
pub proof fn lemma_sort_contains<T>(s: Seq<T>, key: spec_fn(T) -> int, i: int)
    requires
        0 <= i < sort_by_key(s, key).len(),
    ensures
        s.contains(sort_by_key(s, key)[i]),
{
    broadcast use vstd::seq_lib::group_to_multiset_ensures;
    lemma_sort_multiset(s, key);
    let x = sort_by_key(s, key)[i];
    assert(sort_by_key(s, key).contains(x));
    assert(sort_by_key(s, key).to_multiset().count(x) > 0);
}

} // verus!

//! What a list holds, as mathematics: a sequence of entries in key order,
//! and the map from each key to its value.

use crate::order::{key_lt, lemma_lt_irreflexive, lemma_lt_transitive, strict_total_order};
use vstd::prelude::*;

verus! {

/// Position `i` of `entries` holds the key `k`.
pub open spec fn has_key_at<K, V>(entries: Seq<(K, V)>, i: int, k: K) -> bool {
    0 <= i < entries.len() && entries[i].0 == k
}

/// No key stands at two positions of `entries`.
pub open spec fn distinct_keys<K, V>(entries: Seq<(K, V)>) -> bool {
    forall|i: int, j: int|
        0 <= i < j < entries.len() ==> (#[trigger] entries[i]).0 != (#[trigger] entries[j]).0
}

/// The map that sends each key of `entries` to the value beside it.
pub open spec fn map_of<K, V>(entries: Seq<(K, V)>) -> Map<K, V> {
    Map::new(
        |k: K| exists|i: int| has_key_at(entries, i, k),
        |k: K| entries[choose|i: int| has_key_at(entries, i, k)].1,
    )
}

/// The keys of `entries`, in their order.
pub open spec fn keys_in<K, V>(entries: Seq<(K, V)>) -> Seq<K> {
    Seq::new(entries.len(), |i: int| entries[i].0)
}

/// Each key of `keys` is below every later one.
pub open spec fn strictly_increasing<K: PartialOrd>(keys: Seq<K>) -> bool {
    forall|i: int, j: int| 0 <= i < j < keys.len() ==> key_lt(#[trigger] keys[i], #[trigger] keys[j])
}

/// `a` arises from `b` by leaving elements out: a strictly increasing choice
/// of positions of `b` gives `a`.
pub open spec fn is_subsequence<T>(a: Seq<T>, b: Seq<T>) -> bool {
    exists|at: Seq<int>|
        {
            &&& at.len() == a.len()
            &&& forall|i: int| 0 <= i < a.len() ==> 0 <= #[trigger] at[i] < b.len() && b[at[i]] == a[i]
            &&& forall|i: int, j: int| 0 <= i < j < a.len() ==> #[trigger] at[i] < #[trigger] at[j]
        }
}

/// The number of keys in `keys` that are below `key`.
pub open spec fn count_below<K: PartialOrd>(keys: Seq<K>, key: K) -> int
    decreases keys.len(),
{
    if keys.len() == 0 {
        0
    } else {
        count_below(keys.drop_last(), key) + if key_lt(keys.last(), key) {
            1int
        } else {
            0int
        }
    }
}

/// Where the first `p` keys are below `key` and the others are not,
/// `count_below` is `p`.
pub proof fn lemma_count_below<K: PartialOrd>(keys: Seq<K>, key: K, p: int)
    requires
        0 <= p <= keys.len(),
        forall|j: int| 0 <= j < p ==> key_lt(#[trigger] keys[j], key),
        forall|j: int| p <= j < keys.len() ==> !key_lt(#[trigger] keys[j], key),
    ensures
        count_below(keys, key) == p,
    decreases keys.len(),
{
    if keys.len() > 0 {
        let front = keys.drop_last();
        if p == keys.len() {
            lemma_count_below(front, key, p - 1);
        } else {
            lemma_count_below(front, key, p);
        }
    }
}

/// `count_below` is a position of `keys`, or the one behind the last.
pub proof fn lemma_count_in_range<K: PartialOrd>(keys: Seq<K>, key: K)
    ensures
        0 <= count_below(keys, key) <= keys.len(),
    decreases keys.len(),
{
    if keys.len() > 0 {
        lemma_count_in_range(keys.drop_last(), key);
    }
}

/// Among keys in strictly increasing order, as many are below a key as
/// stand before it.
pub proof fn lemma_count_at_key<K: PartialOrd>(keys: Seq<K>, i: int)
    requires
        strict_total_order::<K>(),
        strictly_increasing(keys),
        0 <= i < keys.len(),
    ensures
        count_below(keys, keys[i]) == i,
{
    let key = keys[i];
    lemma_lt_irreflexive(key);
    assert forall|j: int| 0 <= j < i implies key_lt(#[trigger] keys[j], key) by {}
    assert forall|j: int| i <= j < keys.len() implies !key_lt(#[trigger] keys[j], key) by {
        if j > i && key_lt(keys[j], key) {
            assert(key_lt(keys[i], keys[j]));
            lemma_lt_transitive(key, keys[j], key);
        }
    }
    lemma_count_below(keys, key, i);
}

/// With distinct keys, the map holds each entry.
pub proof fn lemma_map_of_at<K, V>(entries: Seq<(K, V)>, i: int)
    requires
        distinct_keys(entries),
        0 <= i < entries.len(),
    ensures
        map_of(entries).contains_key(entries[i].0),
        map_of(entries)[entries[i].0] == entries[i].1,
{
    let k = entries[i].0;
    assert(has_key_at(entries, i, k));
    let w = choose|w: int| has_key_at(entries, w, k);
    if w < i {
        assert(entries[w].0 != entries[i].0);
    } else if i < w {
        assert(entries[i].0 != entries[w].0);
    }
}

/// A key of the map stands at some position of the entries.
pub proof fn lemma_map_of_key<K, V>(entries: Seq<(K, V)>, k: K) -> (i: int)
    requires
        map_of(entries).contains_key(k),
    ensures
        has_key_at(entries, i, k),
{
    choose|i: int| has_key_at(entries, i, k)
}

/// Inserting an entry with a new key inserts it into the map.
pub proof fn lemma_map_of_insert<K, V>(entries: Seq<(K, V)>, p: int, k: K, v: V)
    requires
        distinct_keys(entries),
        0 <= p <= entries.len(),
        !map_of(entries).contains_key(k),
    ensures
        distinct_keys(entries.insert(p, (k, v))),
        map_of(entries.insert(p, (k, v))) == map_of(entries).insert(k, v),
{
    let after = entries.insert(p, (k, v));
    let before_of = |i: int| if i < p { i } else { i - 1 };
    assert forall|i: int| 0 <= i < after.len() && i != p implies #[trigger] after[i] == entries[before_of(
        i,
    )] by {}
    assert forall|i: int| 0 <= i < entries.len() implies (#[trigger] entries[i]).0 != k by {
        if entries[i].0 == k {
            assert(has_key_at(entries, i, k));
        }
    }
    assert forall|i: int, j: int| 0 <= i < j < after.len() implies (#[trigger] after[i]).0 != (
    #[trigger] after[j]).0 by {
        if i != p && j != p {
            assert(entries[before_of(i)].0 != entries[before_of(j)].0);
        } else if i == p {
            assert(entries[before_of(j)].0 != k);
        } else {
            assert(entries[before_of(i)].0 != k);
        }
    }
    let m = map_of(entries).insert(k, v);
    let n = map_of(after);
    assert forall|x: K| n.contains_key(x) <==> m.contains_key(x) by {
        if n.contains_key(x) {
            let i = lemma_map_of_key(after, x);
            if i != p {
                assert(has_key_at(entries, before_of(i), x));
            }
        }
        if map_of(entries).contains_key(x) {
            let i = lemma_map_of_key(entries, x);
            if i < p {
                assert(has_key_at(after, i, x));
            } else {
                assert(after[i + 1] == entries[i]);
                assert(has_key_at(after, i + 1, x));
            }
        }
        if x == k {
            assert(has_key_at(after, p, x));
        }
    }
    assert forall|x: K| n.contains_key(x) implies #[trigger] n[x] == m[x] by {
        let i = lemma_map_of_key(after, x);
        lemma_map_of_at(after, i);
        if i != p {
            lemma_map_of_at(entries, before_of(i));
        }
    }
    assert(n =~= m);
}

/// Removing an entry removes its key from the map.
pub proof fn lemma_map_of_remove<K, V>(entries: Seq<(K, V)>, p: int)
    requires
        distinct_keys(entries),
        0 <= p < entries.len(),
    ensures
        distinct_keys(entries.remove(p)),
        map_of(entries.remove(p)) == map_of(entries).remove(entries[p].0),
{
    let after = entries.remove(p);
    let k = entries[p].0;
    let before_of = |i: int| if i < p { i } else { i + 1 };
    assert forall|i: int| 0 <= i < after.len() implies #[trigger] after[i] == entries[before_of(i)] by {}
    assert forall|i: int, j: int| 0 <= i < j < after.len() implies (#[trigger] after[i]).0 != (
    #[trigger] after[j]).0 by {
        assert(entries[before_of(i)].0 != entries[before_of(j)].0);
    }
    let m = map_of(entries).remove(k);
    let n = map_of(after);
    assert forall|x: K| n.contains_key(x) <==> m.contains_key(x) by {
        if n.contains_key(x) {
            let i = lemma_map_of_key(after, x);
            let j = before_of(i);
            assert(has_key_at(entries, j, x));
            if j < p {
                assert(entries[j].0 != entries[p].0);
            } else {
                assert(entries[p].0 != entries[j].0);
            }
        }
        if m.contains_key(x) {
            let j = lemma_map_of_key(entries, x);
            if j < p {
                assert(has_key_at(after, j, x));
            } else {
                assert(after[j - 1] == entries[j]);
                assert(has_key_at(after, j - 1, x));
            }
        }
    }
    assert forall|x: K| n.contains_key(x) implies #[trigger] n[x] == m[x] by {
        let i = lemma_map_of_key(after, x);
        lemma_map_of_at(after, i);
        lemma_map_of_at(entries, before_of(i));
    }
    assert(n =~= m);
}

/// With distinct keys, the map has as many keys as there are entries.
pub proof fn lemma_map_of_len<K, V>(entries: Seq<(K, V)>)
    requires
        distinct_keys(entries),
    ensures
        map_of(entries).dom().finite(),
        map_of(entries).len() == entries.len(),
    decreases entries.len(),
{
    if entries.len() == 0 {
        assert(map_of(entries) =~= Map::<K, V>::empty());
    } else {
        let front = entries.drop_last();
        let last = entries.last();
        assert forall|i: int, j: int| 0 <= i < j < front.len() implies (#[trigger] front[i]).0 != (
        #[trigger] front[j]).0 by {
            assert(entries[i].0 != entries[j].0);
        }
        lemma_map_of_len(front);
        if map_of(front).contains_key(last.0) {
            let i = lemma_map_of_key(front, last.0);
            assert(entries[i].0 != entries[entries.len() - 1].0);
        }
        lemma_map_of_insert(front, front.len() as int, last.0, last.1);
        assert(front.insert(front.len() as int, (last.0, last.1)) =~= entries);
        assert(map_of(entries).dom() =~= map_of(front).dom().insert(last.0));
    }
}

/// A sequence with an element inserted holds that element and all it held.
pub proof fn lemma_insert_contains<T>(s: Seq<T>, i: int, x: T, y: T)
    requires
        0 <= i <= s.len(),
        y == x || s.contains(y),
    ensures
        s.insert(i, x).contains(y),
{
    let t = s.insert(i, x);
    if y == x {
        assert(t[i] == x);
    } else {
        let j = choose|j: int| 0 <= j < s.len() && s[j] == y;
        if j < i {
            assert(t[j] == y);
        } else {
            assert(t[j + 1] == y);
        }
    }
}

/// A sequence with the element at `i` removed holds what it held elsewhere.
pub proof fn lemma_remove_contains<T>(s: Seq<T>, i: int, y: T)
    requires
        0 <= i < s.len(),
        s.contains(y),
        s[i] != y,
    ensures
        s.remove(i).contains(y),
{
    let t = s.remove(i);
    let j = choose|j: int| 0 <= j < s.len() && s[j] == y;
    if j < i {
        assert(t[j] == y);
    } else {
        assert(t[j - 1] == y);
    }
}

} // verus!

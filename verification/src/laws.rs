//! Laws of the skip list: what its invariant means for every level, and how
//! insertion, search and removal go together.

use crate::chain::{chain_ok, key_at, lemma_chain_entries};
use crate::model::{
    count_below, distinct_keys, is_subsequence, keys_in, lemma_count_at_key, lemma_count_in_range,
    lemma_map_of_key,
    lemma_map_of_len, strictly_increasing,
};
use crate::order::{key_lt, lemma_lt_irreflexive, lemma_lt_transitive};
use crate::skip_list::{SkipList, insert_outcome, remove_outcome};
use vstd::prelude::*;

verus! {

impl<K, V> SkipList<K, V> where K: PartialOrd {
    /// On every level the keys stand in strictly increasing order; those of
    /// level 0 are the keys of the entries, each entry with its height.
    pub proof fn lemma_levels_increase(&self, lvl: int)
        requires
            self.wf(),
            0 <= lvl <= self.max_level_spec(),
        ensures
            strictly_increasing(self.level_keys(lvl)),
            keys_in(self.entries()) == self.level_keys(0),
            self.heights().len() == self.entries().len(),
            distinct_keys(self.entries()),
    {
        assert(chain_ok(self.nodes@, self.chains@[lvl], lvl));
        assert(chain_ok(self.nodes@, self.chains@[0], 0));
        lemma_chain_entries(self.nodes@, self.chains@[lvl], lvl);
        lemma_chain_entries(self.nodes@, self.chains@[0], 0);
    }

    /// The keys of every level above 0 are a subsequence of those of the
    /// level below.
    pub proof fn lemma_level_is_subsequence(&self, lvl: int)
        requires
            self.wf(),
            1 <= lvl <= self.max_level_spec(),
        ensures
            is_subsequence(self.level_keys(lvl), self.level_keys(lvl - 1)),
    {
        let nodes = self.nodes@;
        let c = self.chains@[lvl];
        let low = self.chains@[lvl - 1];
        let keys = self.level_keys(lvl);
        let low_keys = self.level_keys(lvl - 1);
        assert(chain_ok(nodes, self.chains@[lvl], lvl));
        assert(chain_ok(nodes, self.chains@[lvl - 1], lvl - 1));
        let at = Seq::new(
            keys.len(),
            |j: int| (choose|i: int| 0 <= i < low.len() && low[i] == c[j + 1]) - 1,
        );
        assert forall|j: int| 0 <= j < keys.len() implies 0 <= at[j] + 1 < low.len() && low[at[j] + 1]
            == c[j + 1] && 0 <= #[trigger] at[j] < low_keys.len() && low_keys[at[j]] == keys[j] by {
            assert(low.contains(self.chains@[lvl][j + 1]));
            assert(nodes[c[j + 1] as int].key is Some);
        }
        assert forall|i: int, j: int| 0 <= i < j < keys.len() implies #[trigger] at[i]
            < #[trigger] at[j] by {
            let ki = key_at(nodes, c[i + 1]);
            let kj = key_at(nodes, c[j + 1]);
            assert(key_lt(ki, kj));
            lemma_lt_irreflexive(ki);
            if at[i] > at[j] {
                assert(key_lt(key_at(nodes, low[at[j] + 1]), key_at(nodes, low[at[i] + 1])));
                lemma_lt_transitive(ki, kj, ki);
            }
        }
        assert(at.len() == keys.len());
    }

    /// The list holds as many entries as its map has keys.
    pub proof fn lemma_len_counts_keys(&self)
        requires
            self.wf(),
        ensures
            self@.dom().finite(),
            self@.len() == self.entries().len(),
            self.entries().len() == self.level_keys(0).len(),
    {
        assert(chain_ok(self.nodes@, self.chains@[0], 0));
        lemma_chain_entries(self.nodes@, self.chains@[0], 0);
        lemma_map_of_len(self.entries());
    }

    /// No entry is higher than the ceiling, nor is the current level, above
    /// which every level is empty, while the current level itself holds an
    /// entry unless it is level 0.
    pub proof fn lemma_heights_bounded(&self)
        requires
            self.wf(),
        ensures
            self.current_level_spec() <= self.max_level_spec(),
            forall|j: int|
                0 <= j < self.heights().len() ==> #[trigger] self.heights()[j] <= self.max_level_spec(),
            forall|l: int|
                self.current_level_spec() < l <= self.max_level_spec() ==> (#[trigger] self.level_keys(
                    l,
                )).len() == 0,
            self.current_level_spec() > 0 ==> self.level_keys(self.current_level_spec() as int).len()
                > 0,
    {
        let c0 = self.chains@[0];
        assert forall|j: int| 0 <= j < self.heights().len() implies #[trigger] self.heights()[j]
            <= self.max_level_spec() by {
            assert(self.nodes@[c0[j + 1] as int].level <= self.max_level);
        }
        assert forall|l: int|
            self.current_level_spec() < l <= self.max_level_spec() implies (#[trigger] self.level_keys(
            l,
        )).len() == 0 by {
            assert(self.chains@[l].len() == 1);
        }
    }
}

/// After an insertion the key is found: with the value that was inserted
/// where the key is new, with the value that it had where it is not. When
/// the key is then removed, the value found is handed out, the key is found
/// no more, and the list holds one entry less: all that it held before the
/// two, but for the key.
pub proof fn lemma_insert_then_remove<K: PartialOrd, V>(
    before: SkipList<K, V>,
    held: SkipList<K, V>,
    after: SkipList<K, V>,
    key: K,
    value: V,
    level: usize,
    handed_out: Option<V>,
)
    requires
        before.wf(),
        held.wf(),
        insert_outcome(before, held, key, value, level),
        remove_outcome(held, after, key, handed_out),
    ensures
        held@.contains_key(key),
        held@[key] == (if before@.contains_key(key) {
            before@[key]
        } else {
            value
        }),
        handed_out == Some(held@[key]),
        !after@.contains_key(key),
        after.entries().len() == held.entries().len() - 1,
        after@ == before@.remove(key),
        !before@.contains_key(key) ==> after@ == before@ && after.entries() == before.entries(),
{
    lemma_remove_counts(held, after, key, handed_out);
    if !before@.contains_key(key) {
        let keys = before.level_keys(0);
        let p = count_below(keys, key);
        before.lemma_levels_increase(0);
        held.lemma_levels_increase(0);
        lemma_count_in_range(keys, key);
        assert(held.level_keys(0) == keys.insert(p, key));
        assert(held.level_keys(0)[p] == key);
        lemma_count_at_key(held.level_keys(0), p);
        assert(before@.insert(key, value).remove(key) =~= before@);
        assert(before.entries().insert(p, (key, value)).remove(p) =~= before.entries());
    }
    assert(after@ =~= before@.remove(key));
}

/// An insertion raises the number of entries by one where the key is new,
/// and leaves it as it is where the key is held already.
pub proof fn lemma_insert_counts<K: PartialOrd, V>(
    before: SkipList<K, V>,
    after: SkipList<K, V>,
    key: K,
    value: V,
    level: usize,
)
    requires
        before.wf(),
        insert_outcome(before, after, key, value, level),
    ensures
        after.entries().len() == before.entries().len() + (if before@.contains_key(key) {
            0int
        } else {
            1int
        }),
{
    lemma_count_in_range(before.level_keys(0), key);
    before.lemma_len_counts_keys();
}

/// A removal lowers the number of entries by one where the key is held, and
/// leaves it as it is where the key is not held. With the law before, the
/// number of entries is that of the keys inserted and not removed since.
pub proof fn lemma_remove_counts<K: PartialOrd, V>(
    before: SkipList<K, V>,
    after: SkipList<K, V>,
    key: K,
    handed_out: Option<V>,
)
    requires
        before.wf(),
        remove_outcome(before, after, key, handed_out),
    ensures
        after.entries().len() == before.entries().len() - (if before@.contains_key(key) {
            1int
        } else {
            0int
        }),
{
    if before@.contains_key(key) {
        before.lemma_levels_increase(0);
        let i = lemma_map_of_key(before.entries(), key);
        assert(before.level_keys(0)[i] == key);
        lemma_count_at_key(before.level_keys(0), i);
    }
}

/// A second insertion under a key leaves the list as it is: the key keeps
/// the value of the first, or the one that it had before the first.
pub proof fn lemma_second_insert_keeps_value<K: PartialOrd, V>(
    before: SkipList<K, V>,
    once: SkipList<K, V>,
    twice: SkipList<K, V>,
    key: K,
    first: V,
    second: V,
    first_level: usize,
    second_level: usize,
)
    requires
        insert_outcome(before, once, key, first, first_level),
        insert_outcome(once, twice, key, second, second_level),
    ensures
        twice == once,
        twice@.contains_key(key),
        twice@[key] == (if before@.contains_key(key) {
            before@[key]
        } else {
            first
        }),
{
}

/// An entry stands on the levels up to its height and on no other.
pub proof fn lemma_entry_levels<K: PartialOrd, V>(list: SkipList<K, V>, j: int, lvl: int)
    requires
        list.wf(),
        0 <= j < list.entries().len(),
        0 <= lvl <= list.max_level_spec(),
    ensures
        list.level_keys(lvl).contains(list.entries()[j].0) <==> lvl <= list.heights()[j],
{
    let nodes = list.nodes@;
    let c0 = list.chains@[0];
    let c = list.chains@[lvl];
    let x = c0[j + 1];
    let key = list.entries()[j].0;
    let keys = list.level_keys(lvl);
    assert(chain_ok(nodes, list.chains@[0], 0));
    assert(chain_ok(nodes, list.chains@[lvl], lvl));
    list.lemma_levels_increase(0);
    if lvl <= list.heights()[j] {
        assert(list.chains@[lvl].contains(list.chains@[0][j + 1]));
        let i = choose|i: int| 0 <= i < c.len() && c[i] == x;
        assert(nodes[x as int].key is Some);
        assert(i >= 1);
        assert(keys[i - 1] == key);
    }
    if keys.contains(key) {
        let i = choose|i: int| 0 <= i < keys.len() && keys[i] == key;
        let y = c[i + 1];
        list.lemma_in_level_zero(lvl, i + 1);
        let at = choose|at: int| 0 <= at < c0.len() && c0[at] == y;
        assert(nodes[y as int].key is Some);
        assert(at >= 1);
        assert(list.level_keys(0)[at - 1] == key);
        assert(list.level_keys(0)[j] == key);
        lemma_count_at_key(list.level_keys(0), at - 1);
        lemma_count_at_key(list.level_keys(0), j);
        assert(y == x);
        assert(lvl < nodes[c[i + 1] as int].forward@.len());
    }
}

/// Every slot of the arena holds an entry or is free: the list keeps no
/// slot that it cannot reach.
pub proof fn lemma_slots_accounted<K: PartialOrd, V>(list: SkipList<K, V>)
    requires
        list.wf(),
    ensures
        list.slots() == list.entries().len() + list.free_slots(),
{
}

} // verus!

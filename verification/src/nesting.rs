//! How the levels of a list lie in one another.

use crate::chain::{chain_ok, entries_of, found, gap_at, key_at, lemma_chain_entries, stops_at};
use crate::model::lemma_map_of_at;
use crate::order::{key_lt, lemma_lt_connected, lemma_lt_transitive};
use crate::skip_list::SkipList;
use vstd::prelude::*;

verus! {

impl<K, V> SkipList<K, V> where K: PartialOrd {
    /// Where a walk that stopped on the level above comes to stand on level
    /// `l`: at the same slot, with only keys below `key` behind it.
    pub(crate) proof fn lemma_descend(&self, l: int, cur: usize, p: int, key: K) -> (q: int)
        requires
            self.wf(),
            0 <= l <= self.max_level,
            cur == 0 || (l < self.max_level && found(self.nodes@, self.chains@[l + 1], p, cur, key)),
        ensures
            0 <= q < self.chains@[l].len(),
            self.chains@[l][q] == cur,
            forall|j: int|
                #![trigger self.chains@[l][j]]
                1 <= j <= q ==> key_lt(key_at(self.nodes@, self.chains@[l][j]), key),
    {
        let c = self.chains@[l];
        assert(chain_ok(self.nodes@, self.chains@[l], l));
        if cur == 0 {
            0
        } else {
            let up = self.chains@[l + 1];
            assert(chain_ok(self.nodes@, self.chains@[l + 1], l + 1));
            assert(p >= 1);
            assert(c.contains(self.chains@[l + 1][p]));
            let q = choose|q: int| 0 <= q < c.len() && c[q] == cur;
            assert(key_lt(key_at(self.nodes@, up[p]), key));
            assert forall|j: int| #![trigger c[j]] 1 <= j <= q implies key_lt(
                key_at(self.nodes@, c[j]),
                key,
            ) by {
                if j < q {
                    assert(key_lt(key_at(self.nodes@, c[j]), key_at(self.nodes@, c[q])));
                    lemma_lt_transitive(key_at(self.nodes@, c[j]), key_at(self.nodes@, c[q]), key);
                }
            }
            q
        }
    }

    /// Every slot of a chain stands in the chain of level 0.
    pub(crate) proof fn lemma_in_level_zero(&self, l: int, j: int)
        requires
            self.wf(),
            0 <= l <= self.max_level,
            0 <= j < self.chains@[l].len(),
        ensures
            self.chains@[0].contains(self.chains@[l][j]),
        decreases l,
    {
        assert(chain_ok(self.nodes@, self.chains@[l], l));
        assert(chain_ok(self.nodes@, self.chains@[0], 0));
        if l == 0 {
            assert(self.chains@[0][j] == self.chains@[l][j]);
        } else if j == 0 {
            assert(self.chains@[0][0] == self.chains@[l][0]);
        } else {
            let x = self.chains@[l][j];
            let low = self.chains@[l - 1];
            assert(low.contains(x));
            let i = choose|i: int| 0 <= i < low.len() && low[i] == x;
            self.lemma_in_level_zero(l - 1, i);
        }
    }

    /// A walk for a key that the list does not hold stops at a gap: the keys
    /// behind it are above the key.
    pub(crate) proof fn lemma_gap(&self, l: int, p: int, key: K)
        requires
            self.wf(),
            0 <= l <= self.max_level,
            stops_at(self.nodes@, self.chains@[l], p, key),
            !self@.contains_key(key),
        ensures
            gap_at(self.nodes@, self.chains@[l], p, key),
    {
        let c = self.chains@[l];
        let c0 = self.chains@[0];
        assert(chain_ok(self.nodes@, self.chains@[l], l));
        assert(chain_ok(self.nodes@, self.chains@[0], 0));
        lemma_chain_entries(self.nodes@, c0, 0);
        assert forall|j: int| #![trigger c[j]] p < j < c.len() implies key_lt(
            key,
            key_at(self.nodes@, c[j]),
        ) by {
            self.lemma_in_level_zero(l, j);
            let i = choose|i: int| 0 <= i < c0.len() && c0[i] == c[j];
            assert(self.nodes@[c[j] as int].key is Some);
            assert(i >= 1);
            lemma_map_of_at(entries_of(self.nodes@, c0), i - 1);
            assert(entries_of(self.nodes@, c0)[i - 1].0 == key_at(self.nodes@, c[j]));
            if !key_lt(key, key_at(self.nodes@, c[j])) {
                lemma_lt_connected(key, key_at(self.nodes@, c[j]));
            }
        }
    }

    /// A slot that is in no chain of level `low` is in none above it.
    pub(crate) proof fn lemma_absent_above(&self, low: int, l: int, x: usize)
        requires
            self.wf(),
            0 <= low <= l <= self.max_level,
            x != 0,
            !self.chains@[low].contains(x),
        ensures
            !self.chains@[l].contains(x),
        decreases l - low,
    {
        if low < l {
            self.lemma_absent_above(low, l - 1, x);
            let c = self.chains@[l];
            if c.contains(x) {
                let j = choose|j: int| 0 <= j < c.len() && c[j] == x;
                assert(chain_ok(self.nodes@, self.chains@[l], l));
                assert(j >= 1);
                assert(self.chains@[l - 1].contains(self.chains@[l][j]));
            }
        }
    }
}

} // verus!

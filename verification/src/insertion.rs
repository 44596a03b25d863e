//! The list after an insertion: its invariant holds again, and it holds the
//! new entry.

use crate::chain::{
    chain_ok, entries_of, found, gap_at, lemma_chain_entries, lemma_frame_untouched,
    lemma_gap_frame, lemma_keys_same, lemma_same_keys, same_shape, same_shapes,
};
use crate::model::{count_below, lemma_insert_contains, lemma_map_of_insert};
use crate::node::Node;
use crate::skip_list::{SkipList, inserted};
use crate::splice::{lemma_entries_insert, lemma_keys_insert, placed, ready, spliced, splicing};
use vstd::prelude::*;

verus! {

impl<K, V> SkipList<K, V> where K: PartialOrd {
    /// Before a node is put into the arena for a key that the list does not
    /// hold, every level is ready to take it behind the slot that the walk
    /// for the key found.
    pub(crate) proof fn lemma_ready_all(
        &self,
        pos: Seq<int>,
        update: Seq<usize>,
        key: K,
        nodes_after: Seq<Node<K, V>>,
        free_after: Seq<usize>,
        slot: usize,
        node: Node<K, V>,
    )
        requires
            self.wf(),
            !self@.contains_key(key),
            pos.len() == self.max_level + 1,
            update.len() == self.max_level + 1,
            forall|l: int|
                0 <= l <= self.max_level ==> #[trigger] found(
                    self.nodes@,
                    self.chains@[l],
                    pos[l],
                    update[l],
                    key,
                ),
            placed(self.nodes@, self.free@, nodes_after, free_after, slot, node),
        ensures
            splicing(nodes_after, self.chains@, self.chains@, pos, update, slot, key, 0),
            slot != 0,
            nodes_after[0] == self.nodes@[0],
            forall|l: int, j: int|
                0 <= l <= self.max_level && 0 <= j < self.chains@[l].len() ==> nodes_after[(
                #[trigger] self.chains@[l][j]) as int] == self.nodes@[self.chains@[l][j] as int],
    {
        let n0 = self.nodes@;
        let cs = self.chains@;
        assert forall|l: int, j: int| 0 <= l <= self.max_level && 0 <= j < cs[l].len() implies (
        #[trigger] cs[l][j]) != slot && nodes_after[cs[l][j] as int] == n0[cs[l][j] as int] by {
            assert(chain_ok(n0, cs[l], l));
            if self.free@.len() > 0 {
                self.lemma_in_level_zero(l, j);
                assert(slot == self.free@[self.free@.len() - 1]);
            }
        }
        assert(chain_ok(n0, cs[0], 0));
        assert(cs[0][0] != slot);
        assert forall|l: int| 0 <= l < cs.len() implies #[trigger] ready(
            nodes_after,
            cs[l],
            l,
            pos[l],
            update[l],
            slot,
            key,
        ) by {
            let c = cs[l];
            assert(chain_ok(n0, cs[l], l));
            assert(found(n0, cs[l], pos[l], update[l], key));
            self.lemma_gap(l, pos[l], key);
            assert forall|j: int| #![trigger c[j]] 0 <= j < c.len() implies nodes_after[c[j] as int]
                == n0[c[j] as int] && c[j] != slot by {
                assert(cs[l][j] != slot);
            }
            lemma_frame_untouched(n0, nodes_after, c, l);
            lemma_gap_frame(n0, nodes_after, c, pos[l], key);
        }
    }
}

/// After a node has been linked in on every level up to its height, each
/// entry stands on every level up to its own.
proof fn lemma_inserted_filled<K: PartialOrd, V>(
    before: SkipList<K, V>,
    after: SkipList<K, V>,
    pos: Seq<int>,
    slot: usize,
)
    requires
        before.wf(),
        after.max_level == before.max_level,
        after.chains@.len() == before.chains@.len(),
        (slot as int) < after.nodes@.len(),
        after.nodes@[slot as int].level <= before.max_level,
        forall|l: int|
            0 <= l <= after.nodes@[slot as int].level ==> #[trigger] after.chains@[l]
                == before.chains@[l].insert(pos[l] + 1, slot) && 0 <= pos[l] < before.chains@[l].len(),
        forall|l: int|
            after.nodes@[slot as int].level < l <= before.max_level ==> #[trigger] after.chains@[l]
                == before.chains@[l],
        forall|s: int|
            #![trigger after.nodes@[s]]
            0 <= s < before.nodes@.len() && s != slot ==> same_shape(before.nodes@[s], after.nodes@[s]),
        forall|j: int| 0 <= j < before.chains@[0].len() ==> #[trigger] before.chains@[0][j] != slot,
    ensures
        after.filled(),
{
    let n0 = before.nodes@;
    let c0s = before.chains@;
    let b = after.nodes@;
    let cs = after.chains@;
    let height = b[slot as int].level as int;
    assert(cs[0] == c0s[0].insert(pos[0] + 1, slot));
    assert(chain_ok(n0, c0s[0], 0));
    assert forall|j: int, l: int|
        1 <= j < cs[0].len() && 0 <= l <= b[cs[0][j] as int].level implies #[trigger] cs[l].contains(
        cs[0][j],
    ) by {
        let x = cs[0][j];
        if j == pos[0] + 1 {
            assert(x == slot);
            assert(cs[l] == c0s[l].insert(pos[l] + 1, slot));
            lemma_insert_contains(c0s[l], pos[l] + 1, slot, x);
        } else {
            let j0 = if j <= pos[0] {
                j
            } else {
                j - 1
            };
            assert(x == c0s[0][j0]);
            assert((x as int) < n0.len());
            assert(c0s[0][j0] != slot);
            assert(same_shape(n0[x as int], b[x as int]));
            assert(n0[c0s[0][j0] as int].level <= before.max_level);
            assert(c0s[l].contains(c0s[0][j0]));
            if l <= height {
                assert(cs[l] == c0s[l].insert(pos[l] + 1, slot));
                lemma_insert_contains(c0s[l], pos[l] + 1, slot, x);
            } else {
                assert(cs[l] == c0s[l]);
            }
        }
    }
}

/// After a node for a new key has been linked in on every level up to its
/// height, the list is whole again and holds the entry.
pub(crate) proof fn lemma_inserted<K: PartialOrd, V>(
    before: SkipList<K, V>,
    after: SkipList<K, V>,
    pos: Seq<int>,
    update: Seq<usize>,
    slot: usize,
    key: K,
    value: V,
    level: usize,
    n1: Seq<Node<K, V>>,
    node: Node<K, V>,
)
    requires
        before.wf(),
        !before@.contains_key(key),
        forall|l: int|
            0 <= l <= before.max_level ==> #[trigger] found(
                before.nodes@,
                before.chains@[l],
                pos[l],
                update[l],
                key,
            ),
        placed(before.nodes@, before.free@, n1, after.free@, slot, node),
        node.key == Some(key),
        node.value == Some(value),
        node.level == (if level > before.max_level {
            before.max_level
        } else {
            level
        }),
        node.forward@.len() == node.level + 1,
        same_shapes(n1, after.nodes@),
        splicing(after.nodes@, after.chains@, before.chains@, pos, update, slot, key, node.level + 1),
        after.max_level == before.max_level,
        after.current_level == (if node.level > before.current_level {
            node.level
        } else {
            before.current_level
        }),
        after.current_element == before.current_element + 1,
    ensures
        after.wf(),
        inserted(before, after, key, value, level),
{
    let height = node.level as int;
    let max = before.max_level as int;
    let n0 = before.nodes@;
    let c0s = before.chains@;
    let free0 = before.free@;
    let b = after.nodes@;
    let cs = after.chains@;
    let base = pos[0];
    before.lemma_ready_all(pos, update, key, n1, after.free@, slot, node);
    assert(n1[slot as int] == node);
    assert forall|l: int| 0 <= l <= max implies gap_at(n0, #[trigger] c0s[l], pos[l], key) by {
        assert(found(n0, c0s[l], pos[l], update[l], key));
        before.lemma_gap(l, pos[l], key);
    }
    assert forall|l: int, j: int| 0 <= l <= max && 0 <= j < c0s[l].len() implies same_shape(
        n0[(#[trigger] c0s[l][j]) as int],
        b[c0s[l][j] as int],
    ) by {
        assert(chain_ok(n0, c0s[l], l));
        let x = c0s[l][j];
        assert(n1[x as int] == n0[x as int]);
        assert(same_shape(n1[x as int], b[x as int]));
    }
    assert forall|l: int| 0 <= l <= max implies #[trigger] chain_ok(b, cs[l], l) by {
        if l <= height {
            assert(spliced(b, cs[l], l, c0s[l], pos[l], slot));
        } else {
            assert(ready(b, cs[l], l, pos[l], update[l], slot, key));
        }
    }
    assert forall|l: int| 0 <= l <= height implies #[trigger] cs[l] == c0s[l].insert(
        pos[l] + 1,
        slot,
    ) by {
        assert(spliced(b, cs[l], l, c0s[l], pos[l], slot));
    }
    assert forall|l: int| height < l <= max implies #[trigger] cs[l] == c0s[l] by {}
    assert(after.chains_ok());
    assert(after.nested()) by {
        assert forall|l: int, j: int|
            #![trigger after.chains@[l][j]]
            1 <= l <= max && 1 <= j < cs[l].len() implies cs[l - 1].contains(cs[l][j]) by {
            let x = cs[l][j];
            let low = c0s[l - 1];
            assert(gap_at(n0, c0s[l - 1], pos[l - 1], key));
            if l <= height {
                assert(cs[l] == c0s[l].insert(pos[l] + 1, slot));
                assert(cs[l - 1] == c0s[l - 1].insert(pos[l - 1] + 1, slot));
                assert(gap_at(n0, c0s[l], pos[l], key));
                if j == pos[l] + 1 {
                    lemma_insert_contains(low, pos[l - 1] + 1, slot, x);
                } else {
                    let j0 = if j <= pos[l] {
                        j
                    } else {
                        j - 1
                    };
                    assert(x == c0s[l][j0]);
                    assert(low.contains(c0s[l][j0]));
                    lemma_insert_contains(low, pos[l - 1] + 1, slot, x);
                }
            } else {
                assert(cs[l] == c0s[l]);
                assert(low.contains(c0s[l][j]));
                if l - 1 <= height {
                    assert(cs[l - 1] == c0s[l - 1].insert(pos[l - 1] + 1, slot));
                    lemma_insert_contains(low, pos[l - 1] + 1, slot, x);
                } else {
                    assert(cs[l - 1] == c0s[l - 1]);
                }
            }
        }
    }
    assert(after.top_ok()) by {
        assert forall|l: int| after.current_level < l <= max implies (#[trigger] cs[l]).len() == 1 by {
            assert(cs[l] == c0s[l]);
        }
        if after.current_level > 0 {
            let t = after.current_level as int;
            if t <= height {
                assert(cs[t] == c0s[t].insert(pos[t] + 1, slot));
                assert(gap_at(n0, c0s[t], pos[t], key));
            } else {
                assert(cs[t] == c0s[t]);
            }
        }
    }
    assert(gap_at(n0, c0s[0], base, key));
    assert(cs[0] == c0s[0].insert(base + 1, slot));
    assert(same_shape(n1[slot as int], b[slot as int]));
    assert(same_shape(n1[0], b[0]));
    assert(chain_ok(n0, c0s[0], 0));
    assert(after.shapes_ok()) by {
        assert forall|j: int| #![trigger after.chains@[0][j]] 1 <= j < cs[0].len() implies {
            let n = b[cs[0][j] as int];
            n.level <= after.max_level && n.forward@.len() == n.level + 1
        } by {
            if j != base + 1 {
                let j0 = if j <= base {
                    j
                } else {
                    j - 1
                };
                assert(cs[0][j] == c0s[0][j0]);
                assert(same_shape(n0[c0s[0][j0] as int], b[c0s[0][j0] as int]));
            }
        }
    }
    assert(after.slots_ok()) by {
        assert forall|f: int| #![trigger after.free@[f]] 0 <= f < after.free@.len() implies 1
            <= after.free@[f] < b.len() && !cs[0].contains(after.free@[f]) by {
            let x = after.free@[f];
            assert(x == free0[f]);
            assert(!c0s[0].contains(x));
            if cs[0].contains(x) {
                let i = choose|i: int| 0 <= i < cs[0].len() && cs[0][i] == x;
                if i == base + 1 {
                    assert(x == slot);
                    if free0.len() > 0 {
                        assert(free0[free0.len() - 1] == slot);
                    }
                } else {
                    let i0 = if i <= base {
                        i
                    } else {
                        i - 1
                    };
                    assert(c0s[0][i0] == x);
                }
            }
        }
    }
    assert forall|s: int| #![trigger b[s]] 0 <= s < n0.len() && s != slot implies same_shape(
        n0[s],
        b[s],
    ) by {
        assert(n1[s] == n0[s]);
        assert(same_shape(n1[s], b[s]));
    }
    assert(ready(n1, c0s[0], 0, pos[0], update[0], slot, key));
    lemma_inserted_filled(before, after, pos, slot);
    assert(after.wf());
    lemma_chain_entries(n0, c0s[0], 0);
    assert forall|j: int| #![trigger c0s[0][j]] 0 <= j < c0s[0].len() implies same_shape(
        n0[c0s[0][j] as int],
        b[c0s[0][j] as int],
    ) by {}
    lemma_entries_insert(n0, b, c0s[0], base, slot, key, value);
    lemma_same_keys(n0, b, c0s[0]);
    lemma_keys_insert(n0, b, c0s[0], base, slot, key);
    lemma_map_of_insert(entries_of(n0, c0s[0]), base, key, value);
    assert forall|l: int| 0 <= l <= height implies #[trigger] after.level_keys(l)
        == before.level_keys(l).insert(count_below(before.level_keys(l), key), key) by {
        assert(gap_at(n0, c0s[l], pos[l], key));
        assert(cs[l] == c0s[l].insert(pos[l] + 1, slot));
        assert forall|j: int| #![trigger c0s[l][j]] 0 <= j < c0s[l].len() implies same_shape(
            n0[c0s[l][j] as int],
            b[c0s[l][j] as int],
        ) by {}
        lemma_same_keys(n0, b, c0s[l]);
        lemma_keys_insert(n0, b, c0s[l], pos[l], slot, key);
    }
    assert forall|l: int| height < l <= max implies #[trigger] after.level_keys(l)
        == before.level_keys(l) by {
        assert(cs[l] == c0s[l]);
        assert(chain_ok(n0, c0s[l], l));
        assert forall|j: int| #![trigger c0s[l][j]] 0 <= j < c0s[l].len() implies same_shape(
            n0[c0s[l][j] as int],
            b[c0s[l][j] as int],
        ) by {}
        lemma_same_keys(n0, b, c0s[l]);
        lemma_keys_same(n0, b, c0s[l]);
    }
}

} // verus!

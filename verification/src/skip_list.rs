//! The skip list and its operations.

use crate::chain::{
    chain_ok, entries_of, found, heights_of, key_at, keys_of, lemma_chain_entries, lemma_lookup,
    lemma_rest_not_below, next_in, same_shape, same_shapes, set_link, stops_at, val_at,
};
use crate::insertion::lemma_inserted;
use crate::level::{
    complete_draw, draw_flips, flips_read, lemma_complete_draw_is_read, level_for, level_from_flips,
};
use crate::model::{count_below, lemma_map_of_at, map_of};
use crate::node::{Link, Node, filled};
use crate::order::{key_less, key_lt, strict_total_order};
use crate::removal::{lemma_removal_shape, lemma_removal_view, lemma_removal_wf, removal};
use crate::splice::{lemma_splice_step, link_in, place, placed, ready, splicing};
use crate::unlink::{lemma_only_behind, lemma_unlink_step, release, unlinked, unlinking, waiting};
use vstd::prelude::*;

verus! {

/// An ordered map from keys to values, kept as a skip list: the entries
/// stand in one arena of nodes, slot 0 of which is the head, and each level
/// is a chain of links through the arena.
pub struct SkipList<K, V> where K: PartialOrd {
    pub(crate) max_level: usize,
    pub(crate) current_level: usize,
    pub(crate) current_element: usize,
    pub(crate) nodes: Vec<Node<K, V>>,
    pub(crate) free: Vec<usize>,
    pub(crate) chains: Ghost<Seq<Seq<usize>>>,
}

impl<K, V> View for SkipList<K, V> where K: PartialOrd {
    type V = Map<K, V>;

    /// The entries as a map from key to value.
    open spec fn view(&self) -> Map<K, V> {
        map_of(self.entries())
    }
}

/// How the list `after` arises from `before` when `key`, which `before` does
/// not hold, is inserted with `value` in a node of height `level`, or of the
/// greatest height allowed if `level` is above it: the entry takes its place
/// in key order on every level up to that height, and the current level
/// rises to the height if it was below. The node goes into a free slot of
/// the arena if there is one, else into a new one.
pub open spec fn inserted<K: PartialOrd, V>(
    before: SkipList<K, V>,
    after: SkipList<K, V>,
    key: K,
    value: V,
    level: usize,
) -> bool {
    let height = if level > before.max_level_spec() {
        before.max_level_spec()
    } else {
        level
    };
    &&& after.max_level_spec() == before.max_level_spec()
    &&& after.current_level_spec() == if height > before.current_level_spec() {
        height
    } else {
        before.current_level_spec()
    }
    &&& after.entries() == before.entries().insert(count_below(before.level_keys(0), key), (key, value))
    &&& after.heights() == before.heights().insert(count_below(before.level_keys(0), key), height)
    &&& after@ == before@.insert(key, value)
    &&& forall|l: int|
        0 <= l <= height ==> #[trigger] after.level_keys(l) == before.level_keys(l).insert(
            count_below(before.level_keys(l), key),
            key,
        )
    &&& forall|l: int|
        height < l <= before.max_level_spec() ==> #[trigger] after.level_keys(l) == before.level_keys(l)
    &&& after.slots() == before.slots() + if before.free_slots() > 0 {
        0int
    } else {
        1int
    }
    &&& after.free_slots() == if before.free_slots() > 0 {
        before.free_slots() - 1
    } else {
        0int
    }
}

/// What an insertion of `key` with `value` at height `level` makes of the
/// list: nothing new where the key is held already, else the list with the
/// entry in its place.
pub open spec fn insert_outcome<K: PartialOrd, V>(
    before: SkipList<K, V>,
    after: SkipList<K, V>,
    key: K,
    value: V,
    level: usize,
) -> bool {
    if before@.contains_key(key) {
        after == before
    } else {
        inserted(before, after, key, value, level)
    }
}

/// What a removal of `key` makes of the list and hands out: the value and
/// the list without the entry where the key is held, else nothing and the
/// list as it was.
pub open spec fn remove_outcome<K: PartialOrd, V>(
    before: SkipList<K, V>,
    after: SkipList<K, V>,
    key: K,
    value: Option<V>,
) -> bool {
    if before@.contains_key(key) {
        value == Some(before@[key]) && removed(before, after, key)
    } else {
        value is None && after == before
    }
}

/// How the list `after` arises from `before` when `key`, which `before`
/// holds, is removed: the entry leaves every level up to its height, which
/// are those that it stood on, and the current level falls to the highest
/// one that still holds an entry. The slot of the node is free again.
pub open spec fn removed<K: PartialOrd, V>(
    before: SkipList<K, V>,
    after: SkipList<K, V>,
    key: K,
) -> bool {
    let at = count_below(before.level_keys(0), key);
    let height = before.heights()[at];
    &&& after.max_level_spec() == before.max_level_spec()
    &&& after.entries() == before.entries().remove(at)
    &&& after.heights() == before.heights().remove(at)
    &&& after@ == before@.remove(key)
    &&& forall|l: int|
        0 <= l <= height ==> #[trigger] after.level_keys(l) == before.level_keys(l).remove(
            count_below(before.level_keys(l), key),
        )
    &&& forall|l: int|
        height < l <= before.max_level_spec() ==> #[trigger] after.level_keys(l) == before.level_keys(l)
    &&& after.current_level_spec() <= before.current_level_spec()
    &&& forall|l: int|
        after.current_level_spec() < l <= before.max_level_spec() ==> (#[trigger] after.level_keys(
            l,
        )).len() == 0
    &&& after.current_level_spec() > 0 ==> after.level_keys(after.current_level_spec() as int).len() > 0
    &&& after.slots() == before.slots()
    &&& after.free_slots() == before.free_slots() + 1
}

impl<K, V> SkipList<K, V> where K: PartialOrd {
    /// The ceiling on the height of a node, fixed when the list is made.
    pub open(crate) spec fn max_level_spec(&self) -> usize {
        self.max_level
    }

    /// The highest level in use.
    pub open(crate) spec fn current_level_spec(&self) -> usize {
        self.current_level
    }

    /// The entries in the order of level 0, each key with its value.
    pub open(crate) spec fn entries(&self) -> Seq<(K, V)> {
        entries_of(self.nodes@, self.chains@[0])
    }

    /// The keys met when level `lvl` is walked from the head.
    pub open(crate) spec fn level_keys(&self, lvl: int) -> Seq<K> {
        keys_of(self.nodes@, self.chains@[lvl])
    }

    /// The height of each entry, in the order of level 0.
    pub open(crate) spec fn heights(&self) -> Seq<usize> {
        heights_of(self.nodes@, self.chains@[0])
    }

    /// The number of slots that the arena has for entries.
    pub open(crate) spec fn slots(&self) -> nat {
        (self.nodes@.len() - 1) as nat
    }

    /// The number of slots that hold no entry and wait to be used again.
    pub open(crate) spec fn free_slots(&self) -> nat {
        self.free@.len()
    }

    /// Every level is a chain through the arena.
    pub(crate) open spec fn chains_ok(&self) -> bool {
        &&& self.chains@.len() == self.max_level + 1
        &&& forall|l: int|
            0 <= l <= self.max_level ==> #[trigger] chain_ok(self.nodes@, self.chains@[l], l)
    }

    /// Each slot of a level above 0 also stands in the level below.
    pub(crate) open spec fn nested(&self) -> bool {
        forall|l: int, j: int|
            #![trigger self.chains@[l][j]]
            1 <= l <= self.max_level && 1 <= j < self.chains@[l].len() ==> self.chains@[l - 1].contains(
                self.chains@[l][j],
            )
    }

    /// Each entry stands on every level up to its height.
    pub(crate) open spec fn filled(&self) -> bool {
        forall|j: int, l: int|
            1 <= j < self.chains@[0].len() && 0 <= l <= self.nodes@[self.chains@[0][j] as int].level
                ==> #[trigger] self.chains@[l].contains(self.chains@[0][j])
    }

    /// The levels above the current one are empty, and the current one is
    /// not, unless it is level 0.
    pub(crate) open spec fn top_ok(&self) -> bool {
        &&& self.current_level <= self.max_level
        &&& forall|l: int|
            self.current_level < l <= self.max_level ==> (#[trigger] self.chains@[l]).len() == 1
        &&& self.current_level > 0 ==> self.chains@[self.current_level as int].len() > 1
    }

    /// The head holds no key, and every entry has as many links as its
    /// height asks for, a height that stays under the ceiling.
    pub(crate) open spec fn shapes_ok(&self) -> bool {
        &&& self.nodes@.len() >= 1
        &&& self.nodes@[0].key is None
        &&& self.nodes@[0].value is None
        &&& self.nodes@[0].level == self.max_level
        &&& self.nodes@[0].forward@.len() == self.max_level + 1
        &&& forall|j: int|
            #![trigger self.chains@[0][j]]
            1 <= j < self.chains@[0].len() ==> {
                let n = self.nodes@[self.chains@[0][j] as int];
                n.level <= self.max_level && n.forward@.len() == n.level + 1
            }
    }

    /// Every slot of the arena but the head holds an entry or is free: the
    /// free slots are listed once each and none of them is in a chain.
    pub(crate) open spec fn slots_ok(&self) -> bool {
        &&& self.current_element == self.chains@[0].len() - 1
        &&& self.nodes@.len() == 1 + self.current_element + self.free@.len()
        &&& self.free@.no_duplicates()
        &&& forall|f: int|
            #![trigger self.free@[f]]
            0 <= f < self.free@.len() ==> 1 <= self.free@[f] < self.nodes@.len()
                && !self.chains@[0].contains(self.free@[f])
    }

    /// The invariant of the list.
    pub open(crate) spec fn wf(&self) -> bool {
        &&& strict_total_order::<K>()
        &&& self.max_level < usize::MAX
        &&& self.chains_ok()
        &&& self.nested()
        &&& self.filled()
        &&& self.top_ok()
        &&& self.shapes_ok()
        &&& self.slots_ok()
    }

    /// An empty list whose nodes may be up to `max_level` high.
    pub fn new(max_level: usize) -> (list: Self)
        requires
            strict_total_order::<K>(),
            max_level < usize::MAX,
        ensures
            list.wf(),
            list.entries() == Seq::<(K, V)>::empty(),
            list@ == Map::<K, V>::empty(),
            list.max_level_spec() == max_level,
            list.current_level_spec() == 0,
            forall|l: int| 0 <= l <= max_level ==> list.level_keys(l) == Seq::<K>::empty(),
            list.slots() == 0,
            list.free_slots() == 0,
    {
        let mut nodes: Vec<Node<K, V>> = Vec::new();
        nodes.push(Node::head(max_level));
        let list = Self {
            max_level,
            current_level: 0,
            current_element: 0,
            nodes,
            free: Vec::new(),
            chains: Ghost(Seq::new((max_level + 1) as nat, |l: int| seq![0usize])),
        };
        proof {
            assert forall|l: int| 0 <= l <= list.max_level implies #[trigger] chain_ok(
                list.nodes@,
                list.chains@[l],
                l,
            ) by {
                let c = list.chains@[l];
                assert(c.len() == 1);
            }
            assert(list.entries() =~= Seq::<(K, V)>::empty());
            assert(list@ =~= Map::<K, V>::empty());
            assert forall|l: int| 0 <= l <= max_level implies list.level_keys(l) == Seq::<K>::empty() by {
                assert(list.level_keys(l) =~= Seq::<K>::empty());
            }
        }
        list
    }

    /// The number of entries.
    pub fn len(&self) -> (n: usize)
        requires
            self.wf(),
        ensures
            n == self.entries().len(),
            n == self@.len(),
    {
        proof {
            self.lemma_len_counts_keys();
        }
        self.current_element
    }

    /// Whether the list holds no entry.
    pub fn is_empty(&self) -> (empty: bool)
        requires
            self.wf(),
        ensures
            empty == (self.entries().len() == 0),
            empty == (self@.len() == 0),
    {
        proof {
            self.lemma_len_counts_keys();
        }
        self.current_element == 0
    }

    /// Walks level `lvl` from the slot `start` for as long as the next key is
    /// below `key`, and returns the slot where the walk stops.
    pub(crate) fn advance(&self, start: usize, lvl: usize, key: &K, Ghost(at): Ghost<int>) -> (r: (
        usize,
        Ghost<int>,
    ))
        requires
            self.wf(),
            lvl <= self.max_level,
            0 <= at < self.chains@[lvl as int].len(),
            self.chains@[lvl as int][at] == start,
            forall|j: int|
                #![trigger self.chains@[lvl as int][j]]
                1 <= j <= at ==> key_lt(key_at(self.nodes@, self.chains@[lvl as int][j]), *key),
        ensures
            found(self.nodes@, self.chains@[lvl as int], r.1@, r.0, *key),
    {
        let ghost c = self.chains@[lvl as int];
        let mut cur: usize = start;
        let ghost mut p: int = at;
        loop
            invariant
                self.wf(),
                lvl <= self.max_level,
                c == self.chains@[lvl as int],
                0 <= p < c.len(),
                c[p] == cur,
                forall|j: int| #![trigger c[j]] 1 <= j <= p ==> key_lt(key_at(self.nodes@, c[j]), *key),
            ensures
                stops_at(self.nodes@, c, p, *key),
                c[p] == cur,
            decreases c.len() - p,
        {
            assert(chain_ok(self.nodes@, self.chains@[lvl as int], lvl as int));
            match self.nodes[cur].forward[lvl] {
                Some(next) => {
                    assert(next == c[p + 1]);
                    let next_key = self.nodes[next].get_key().unwrap();
                    if key_less(next_key, key) {
                        cur = next;
                        proof {
                            p = p + 1;
                        }
                    } else {
                        proof {
                            lemma_rest_not_below(self.nodes@, c, lvl as int, p, *key);
                        }
                        break ;
                    }
                },
                None => {
                    break ;
                },
            }
        }
        (cur, Ghost(p))
    }

    /// The value stored under `key`, if there is one.
    pub fn search(&self, key: &K) -> (value: Option<&V>)
        requires
            self.wf(),
        ensures
            value == (if self@.contains_key(*key) {
                Some(&self@[*key])
            } else {
                None
            }),
    {
        let mut cur: usize = 0;
        let ghost mut p: int = 0;
        let mut lvl: usize = self.current_level + 1;
        while lvl > 0
            invariant
                self.wf(),
                lvl <= self.current_level + 1,
                lvl == self.current_level + 1 ==> cur == 0,
                lvl <= self.current_level ==> found(self.nodes@, self.chains@[lvl as int], p, cur, *key),
            decreases lvl,
        {
            lvl = lvl - 1;
            proof {
                p = self.lemma_descend(lvl as int, cur, p, *key);
            }
            let (stop, Ghost(q)) = self.advance(cur, lvl, key, Ghost(p));
            cur = stop;
            proof {
                p = q;
            }
        }
        proof {
            assert(chain_ok(self.nodes@, self.chains@[0], 0));
            lemma_lookup(self.nodes@, self.chains@[0], p, *key);
        }
        match self.nodes[cur].forward[0] {
            Some(next) => {
                let next_key = self.nodes[next].get_key().unwrap();
                if key_less(key, next_key) {
                    None
                } else {
                    self.nodes[next].get_value()
                }
            },
            None => None,
        }
    }

    /// For every level, the slot behind which `key` belongs: the last one
    /// whose key is below `key`, or the head. On the levels above the current
    /// one, which hold no entry yet, that is the head.
    pub(crate) fn find_predecessors(&self, key: &K) -> (r: (Vec<usize>, Ghost<Seq<int>>))
        requires
            self.wf(),
        ensures
            r.0@.len() == self.max_level + 1,
            r.1@.len() == self.max_level + 1,
            forall|l: int|
                0 <= l <= self.max_level ==> #[trigger] found(
                    self.nodes@,
                    self.chains@[l],
                    r.1@[l],
                    r.0@[l],
                    *key,
                ),
    {
        let mut update: Vec<usize> = filled(self.max_level + 1, 0usize);
        let ghost mut pos: Seq<int> = Seq::new((self.max_level + 1) as nat, |l: int| 0int);
        let mut cur: usize = 0;
        let ghost mut p: int = 0;
        let mut lvl: usize = self.current_level + 1;
        proof {
            assert forall|l: int| lvl <= l <= self.max_level implies #[trigger] found(
                self.nodes@,
                self.chains@[l],
                pos[l],
                update@[l],
                *key,
            ) by {
                assert(chain_ok(self.nodes@, self.chains@[l], l));
                assert(self.chains@[l].len() == 1);
            }
        }
        while lvl > 0
            invariant
                self.wf(),
                lvl <= self.current_level + 1,
                update@.len() == self.max_level + 1,
                pos.len() == self.max_level + 1,
                lvl == self.current_level + 1 ==> cur == 0,
                lvl <= self.current_level ==> found(self.nodes@, self.chains@[lvl as int], p, cur, *key),
                forall|l: int|
                    lvl <= l <= self.max_level ==> #[trigger] found(
                        self.nodes@,
                        self.chains@[l],
                        pos[l],
                        update@[l],
                        *key,
                    ),
            decreases lvl,
        {
            let ghost pos_before = pos;
            let ghost update_before = update@;
            lvl = lvl - 1;
            proof {
                p = self.lemma_descend(lvl as int, cur, p, *key);
            }
            let (stop, Ghost(q)) = self.advance(cur, lvl, key, Ghost(p));
            cur = stop;
            update[lvl] = cur;
            proof {
                p = q;
                pos = pos.update(lvl as int, q);
                assert forall|l: int| lvl <= l <= self.max_level implies #[trigger] found(
                    self.nodes@,
                    self.chains@[l],
                    pos[l],
                    update@[l],
                    *key,
                ) by {
                    if l != lvl {
                        assert(found(
                            self.nodes@,
                            self.chains@[l],
                            pos_before[l],
                            update_before[l],
                            *key,
                        ));
                    }
                }
            }
        }
        (update, Ghost(pos))
    }

    /// Looks for `key`: whether the list holds it, and for every level the
    /// slot behind which it belongs.
    pub(crate) fn locate(&self, key: &K) -> (r: (bool, Vec<usize>, Ghost<Seq<int>>))
        requires
            self.wf(),
        ensures
            r.0 == self@.contains_key(*key),
            r.1@.len() == self.max_level + 1,
            r.2@.len() == self.max_level + 1,
            forall|l: int|
                0 <= l <= self.max_level ==> #[trigger] found(
                    self.nodes@,
                    self.chains@[l],
                    r.2@[l],
                    r.1@[l],
                    *key,
                ),
    {
        let (update, Ghost(pos)) = self.find_predecessors(key);
        proof {
            assert(chain_ok(self.nodes@, self.chains@[0], 0));
            assert(found(self.nodes@, self.chains@[0], pos[0], update@[0], *key));
            lemma_lookup(self.nodes@, self.chains@[0], pos[0], *key);
        }
        let first = update[0];
        let held = match self.nodes[first].forward[0] {
            Some(next) => !key_less(key, self.nodes[next].get_key().unwrap()),
            None => false,
        };
        (held, update, Ghost(pos))
    }

    /// Inserts `key` with `value` in a node of height `level`, or of the
    /// greatest height allowed if `level` is above it. Where the list holds
    /// `key` already, nothing changes: the value stored with it stays.
    pub fn insert_with_level(&mut self, key: K, value: V, level: usize)
        requires
            old(self).wf(),
        ensures
            final(self).wf(),
            insert_outcome(*old(self), *final(self), key, value, level),
    {
        let (held, update, Ghost(pos)) = self.locate(&key);
        if !held {
            self.link_new(key, value, level, update, Ghost(pos));
        }
    }

    /// Inserts `key` with `value` in a node of the height that `flips` give,
    /// and returns the number of flips that were read for it. Where the list
    /// holds `key` already, nothing changes and no flip is read.
    pub fn insert_with_flips(&mut self, key: K, value: V, flips: &Vec<bool>) -> (read: usize)
        requires
            old(self).wf(),
        ensures
            final(self).wf(),
            insert_outcome(
                *old(self),
                *final(self),
                key,
                value,
                level_for(flips@, old(self).max_level_spec()),
            ),
            read == (if old(self)@.contains_key(key) {
                0
            } else {
                flips_read(flips@, old(self).max_level_spec())
            }),
    {
        let (held, update, Ghost(pos)) = self.locate(&key);
        if held {
            return 0;
        }
        let (level, read) = level_from_flips(flips, self.max_level);
        self.link_new(key, value, level, update, Ghost(pos));
        read
    }

    /// Puts a new node with `key` and `value` into the list, behind the
    /// slots that the search for `key` found: a node of height `level`, or
    /// of the greatest height allowed if `level` is above it.
    pub(crate) fn link_new(
        &mut self,
        key: K,
        value: V,
        level: usize,
        update: Vec<usize>,
        Ghost(pos): Ghost<Seq<int>>,
    )
        requires
            old(self).wf(),
            !old(self)@.contains_key(key),
            update@.len() == old(self).max_level + 1,
            pos.len() == old(self).max_level + 1,
            forall|l: int|
                0 <= l <= old(self).max_level ==> #[trigger] found(
                    old(self).nodes@,
                    old(self).chains@[l],
                    pos[l],
                    update@[l],
                    key,
                ),
        ensures
            final(self).wf(),
            inserted(*old(self), *final(self), key, value, level),
    {
        let ghost k = key;
        let ghost v = value;
        let ghost c0s = self.chains@;
        let height: usize = if level > self.max_level {
            self.max_level
        } else {
            level
        };
        let node = Node::new(key, value, height);
        let ghost placed_node = node;
        let slot = place(&mut self.nodes, &mut self.free, node);
        let ghost n1 = self.nodes@;
        proof {
            old(self).lemma_ready_all(pos, update@, k, n1, self.free@, slot, placed_node);
        }
        let mut lvl: usize = 0;
        while lvl <= height
            invariant
                strict_total_order::<K>(),
                height <= self.max_level < usize::MAX,
                lvl <= height + 1,
                c0s.len() == self.max_level + 1,
                self.max_level == old(self).max_level,
                self.current_level == old(self).current_level,
                self.current_element == old(self).current_element,
                placed(old(self).nodes@, old(self).free@, n1, self.free@, slot, placed_node),
                (slot as int) < n1.len(),
                same_shapes(n1, self.nodes@),
                n1[0].key is None,
                n1[slot as int] == placed_node,
                placed_node.key == Some(k),
                placed_node.value == Some(v),
                placed_node.level == height,
                placed_node.forward@.len() == height + 1,
                splicing(self.nodes@, self.chains@, c0s, pos, update@, slot, k, lvl as int),
            decreases height + 1 - lvl,
        {
            let ghost a = self.nodes@;
            let ghost cs = self.chains@;
            proof {
                assert(ready(
                    a,
                    cs[lvl as int],
                    lvl as int,
                    pos[lvl as int],
                    update@[lvl as int],
                    slot,
                    k,
                ));
                assert(chain_ok(a, cs[lvl as int], lvl as int));
                assert(same_shape(n1[slot as int], a[slot as int]));
                assert(same_shape(n1[0], a[0]));
            }
            link_in(&mut self.nodes, update[lvl], slot, lvl);
            self.chains = Ghost(
                cs.update(lvl as int, cs[lvl as int].insert(pos[lvl as int] + 1, slot)),
            );
            proof {
                let b = self.nodes@;
                lemma_splice_step(a, b, cs, c0s, pos, update@, slot, k, lvl as int);
                assert forall|s: int|
                    #![trigger n1[s]]
                    #![trigger b[s]]
                    0 <= s < n1.len() implies same_shape(n1[s], b[s]) by {
                    assert(same_shape(n1[s], a[s]));
                    assert(same_shape(a[s], b[s]));
                }
            }
            lvl = lvl + 1;
        }
        if height > self.current_level {
            self.current_level = height;
        }
        proof {
            assert(old(self).slots_ok());
            assert(self.nodes@.len() == self.nodes.len());
        }
        self.current_element = self.current_element + 1;
        proof {
            lemma_inserted(*old(self), *self, pos, update@, slot, k, v, level, n1, placed_node);
        }
    }

    /// The height for a new node: 1, raised by one for every flip of a coin
    /// that comes up heads, until one does not or the ceiling is reached. No
    /// flip is drawn but those that the height depends on.
    pub fn get_random_level(&self) -> (level: usize)
        ensures
            1 <= level,
            level <= self.max_level_spec() || level == 1,
            exists|flips: Seq<bool>|
                complete_draw(flips, self.max_level_spec()) && level == #[trigger] level_for(
                    flips,
                    self.max_level_spec(),
                ),
    {
        let flips = draw_flips(self.max_level);
        let drawn = level_from_flips(&flips, self.max_level);
        proof {
            lemma_complete_draw_is_read(flips@, self.max_level);
            assert(drawn.1 == flips@.len());
            assert(complete_draw(flips@, self.max_level_spec()) && drawn.0 == level_for(
                flips@,
                self.max_level_spec(),
            ));
        }
        drawn.0
    }

    /// Inserts `key` with `value` in a node of a height drawn at random.
    /// Where the list holds `key` already, nothing changes: the value stored
    /// with it stays, and no height is drawn.
    pub fn insert(&mut self, key: K, value: V)
        requires
            old(self).wf(),
        ensures
            final(self).wf(),
            final(self)@ == (if old(self)@.contains_key(key) {
                old(self)@
            } else {
                old(self)@.insert(key, value)
            }),
            old(self)@.contains_key(key) ==> *final(self) == *old(self),
            !old(self)@.contains_key(key) ==> exists|flips: Seq<bool>|
                complete_draw(flips, old(self).max_level_spec()) && inserted(
                    *old(self),
                    *final(self),
                    key,
                    value,
                    #[trigger] level_for(flips, old(self).max_level_spec()),
                ),
    {
        let (held, update, Ghost(pos)) = self.locate(&key);
        if !held {
            let level = self.get_random_level();
            self.link_new(key, value, level, update, Ghost(pos));
        }
    }

    /// Removes `key` and hands out the value that was stored with it, if
    /// the list holds the key.
    pub fn remove(&mut self, key: &K) -> (value: Option<V>)
        requires
            old(self).wf(),
        ensures
            final(self).wf(),
            remove_outcome(*old(self), *final(self), *key, value),
    {
        let (update, Ghost(pos)) = self.find_predecessors(key);
        let ghost n0 = self.nodes@;
        let ghost c0s = self.chains@;
        proof {
            assert(chain_ok(n0, c0s[0], 0));
            assert(found(n0, c0s[0], pos[0], update@[0], *key));
            lemma_lookup(n0, c0s[0], pos[0], *key);
        }
        let first = update[0];
        let target: usize = match self.nodes[first].forward[0] {
            Some(next) => next,
            None => {
                return None;
            },
        };
        if key_less(key, self.nodes[target].get_key().unwrap()) {
            return None;
        }
        proof {
            assert(target == c0s[0][pos[0] + 1]);
            assert(n0[target as int].key == Some(*key));
            assert forall|l: int| 0 <= l < c0s.len() implies #[trigger] waiting(
                n0,
                c0s[l],
                l,
                pos[l],
                update@[l],
                target,
            ) by {
                assert(chain_ok(n0, c0s[l], l));
                assert(found(n0, c0s[l], pos[l], update@[l], *key));
                lemma_only_behind(n0, c0s[l], l, pos[l], *key, target);
            }
        }
        let mut lvl: usize = 0;
        loop
            invariant
                strict_total_order::<K>(),
                lvl <= self.current_level + 1,
                self.current_level <= self.max_level < usize::MAX,
                c0s.len() == self.max_level + 1,
                self.max_level == old(self).max_level,
                self.current_level == old(self).current_level,
                self.current_element == old(self).current_element,
                self.free@ == old(self).free@,
                same_shapes(n0, self.nodes@),
                n0.len() >= 1,
                n0[0].key is None,
                unlinking(self.nodes@, self.chains@, c0s, pos, update@, target, lvl as int),
            ensures
                lvl <= self.current_level + 1,
                self.max_level == old(self).max_level,
                self.current_level == old(self).current_level,
                self.current_element == old(self).current_element,
                self.free@ == old(self).free@,
                same_shapes(n0, self.nodes@),
                unlinking(self.nodes@, self.chains@, c0s, pos, update@, target, lvl as int),
                lvl <= self.current_level ==> !c0s[lvl as int].contains(target),
            decreases self.current_level + 1 - lvl,
        {
            if lvl > self.current_level {
                break ;
            }
            let ghost a = self.nodes@;
            let ghost cs = self.chains@;
            let ghost c = cs[lvl as int];
            proof {
                assert(waiting(
                    a,
                    cs[lvl as int],
                    lvl as int,
                    pos[lvl as int],
                    update@[lvl as int],
                    target,
                ));
                assert(cs[lvl as int] == c0s[lvl as int]);
                assert(a[c[pos[lvl as int]] as int].forward@[lvl as int] == next_in(c, pos[lvl as int]));
                assert(same_shape(n0[0], a[0]));
            }
            let pred = update[lvl];
            let leads_to_target = match self.nodes[pred].forward[lvl] {
                Some(next) => next == target,
                None => false,
            };
            if !leads_to_target {
                proof {
                    if c.contains(target) {
                        let j = choose|j: int| 0 <= j < c.len() && c[j] == target;
                        assert(j == pos[lvl as int] + 1);
                    }
                }
                break ;
            }
            proof {
                assert(c[pos[lvl as int] + 1] == target);
            }
            let next = self.nodes[target].forward[lvl];
            set_link(&mut self.nodes, pred, lvl, next);
            self.chains = Ghost(cs.update(lvl as int, c.remove(pos[lvl as int] + 1)));
            proof {
                let b = self.nodes@;
                lemma_unlink_step(a, b, cs, c0s, pos, update@, target, lvl as int);
                assert forall|s: int|
                    #![trigger n0[s]]
                    #![trigger b[s]]
                    0 <= s < n0.len() implies same_shape(n0[s], b[s]) by {
                    assert(same_shape(n0[s], a[s]));
                    assert(same_shape(a[s], b[s]));
                }
            }
            lvl = lvl + 1;
        }
        let ghost top = lvl as int;
        let ghost unlinked_nodes = self.nodes@;
        proof {
            assert(old(self).shapes_ok());
            assert(same_shape(n0[0], self.nodes@[0]));
            assert forall|l: int| 0 <= l < c0s.len() implies chain_ok(
                self.nodes@,
                #[trigger] self.chains@[l],
                l,
            ) by {
                if l < top {
                    assert(unlinked(self.nodes@, self.chains@[l], l, c0s[l], pos[l], target));
                } else {
                    assert(waiting(self.nodes@, self.chains@[l], l, pos[l], update@[l], target));
                }
            }
            assert forall|l: int| self.current_level < l <= self.max_level implies (
            #[trigger] self.chains@[l]).len() == 1 by {
                assert(self.chains@[l] == c0s[l]);
            }
        }
        while self.current_level > 0 && self.nodes[0].forward[self.current_level].is_none()
            invariant
                self.current_level <= old(self).current_level,
                old(self).current_level <= self.max_level,
                self.max_level == old(self).max_level,
                self.current_element == old(self).current_element,
                self.free@ == old(self).free@,
                self.nodes@ == unlinked_nodes,
                self.nodes@.len() >= 1,
                self.nodes@[0].forward@.len() == self.max_level + 1,
                self.chains@.len() == self.max_level + 1,
                unlinking(self.nodes@, self.chains@, c0s, pos, update@, target, top),
                forall|l: int|
                    0 <= l <= self.max_level ==> chain_ok(self.nodes@, #[trigger] self.chains@[l], l),
                forall|l: int|
                    self.current_level < l <= self.max_level ==> (#[trigger] self.chains@[l]).len() == 1,
            decreases self.current_level,
        {
            proof {
                let t = self.current_level as int;
                assert(chain_ok(self.nodes@, self.chains@[t], t));
                assert(self.nodes@[self.chains@[t][0] as int].forward@[t] == next_in(self.chains@[t], 0));
            }
            self.current_level = self.current_level - 1;
        }
        proof {
            let t = self.current_level as int;
            assert(chain_ok(self.nodes@, self.chains@[t], t));
            assert(self.nodes@[self.chains@[t][0] as int].forward@[t] == next_in(self.chains@[t], 0));
            assert(old(self).slots_ok());
            assert(same_shape(n0[target as int], self.nodes@[target as int]));
        }
        self.current_element = self.current_element - 1;
        let value = release(&mut self.nodes, target);
        self.free.push(target);
        proof {
            assert(removal(*old(self), *self, pos, update@, target, *key, top, unlinked_nodes));
            lemma_removal_shape(*old(self), *self, pos, update@, target, *key, top, unlinked_nodes);
            lemma_removal_wf(*old(self), *self, pos, update@, target, *key, top, unlinked_nodes);
            lemma_removal_view(*old(self), *self, pos, update@, target, *key, top, unlinked_nodes);
        }
        value
    }

    /// `out` lists level `lvl`: the keys met when the level is walked from
    /// the head, each with the value that the list holds for it.
    pub open spec fn lists_level(&self, lvl: int, out: Seq<(&K, &V)>) -> bool {
        &&& out.len() == self.level_keys(lvl).len()
        &&& forall|j: int|
            0 <= j < out.len() ==> *(#[trigger] out[j]).0 == self.level_keys(lvl)[j]
                && self@.contains_key(*out[j].0) && *out[j].1 == self@[*out[j].0]
    }

    /// The entries of level `lvl` in the order of a walk from the head; none
    /// for a level above the ceiling.
    pub fn level_entries(&self, lvl: usize) -> (out: Vec<(&K, &V)>)
        requires
            self.wf(),
        ensures
            lvl <= self.max_level_spec() ==> self.lists_level(lvl as int, out@),
            lvl > self.max_level_spec() ==> out@.len() == 0,
    {
        let mut out: Vec<(&K, &V)> = Vec::new();
        if lvl > self.max_level {
            return out;
        }
        let ghost c = self.chains@[lvl as int];
        assert(chain_ok(self.nodes@, self.chains@[lvl as int], lvl as int));
        let mut link: Link = self.nodes[0].forward[lvl];
        let ghost mut j: int = 0;
        loop
            invariant
                self.wf(),
                lvl <= self.max_level,
                c == self.chains@[lvl as int],
                0 <= j < c.len(),
                link == next_in(c, j),
                out@.len() == j,
                forall|i: int|
                    0 <= i < j ==> *(#[trigger] out@[i]).0 == key_at(self.nodes@, c[i + 1]) && *out@[i].1
                        == val_at(self.nodes@, c[i + 1]),
            ensures
                out@.len() == c.len() - 1,
                forall|i: int|
                    0 <= i < out@.len() ==> *(#[trigger] out@[i]).0 == key_at(self.nodes@, c[i + 1])
                        && *out@[i].1 == val_at(self.nodes@, c[i + 1]),
            decreases c.len() - j,
        {
            assert(chain_ok(self.nodes@, self.chains@[lvl as int], lvl as int));
            match link {
                Some(slot) => {
                    assert(slot == c[j + 1]);
                    let node = &self.nodes[slot];
                    out.push((node.get_key().unwrap(), node.get_value().unwrap()));
                    link = node.forward[lvl];
                    proof {
                        j = j + 1;
                    }
                },
                None => {
                    break ;
                },
            }
        }
        proof {
            let c0 = self.chains@[0];
            assert(chain_ok(self.nodes@, self.chains@[0], 0));
            lemma_chain_entries(self.nodes@, c0, 0);
            assert forall|i: int| 0 <= i < out@.len() implies *(#[trigger] out@[i]).0
                == self.level_keys(lvl as int)[i] && self@.contains_key(*out@[i].0) && *out@[i].1
                == self@[*out@[i].0] by {
                let x = c[i + 1];
                self.lemma_in_level_zero(lvl as int, i + 1);
                let at = choose|at: int| 0 <= at < c0.len() && c0[at] == x;
                assert(self.nodes@[x as int].key is Some);
                assert(at >= 1);
                lemma_map_of_at(entries_of(self.nodes@, c0), at - 1);
            }
        }
        out
    }

    /// The entries of every level in use, from level 0 up to the current
    /// one.
    pub fn dump(&self) -> (out: Vec<Vec<(&K, &V)>>)
        requires
            self.wf(),
        ensures
            out@.len() == self.current_level_spec() + 1,
            forall|l: int| 0 <= l < out@.len() ==> self.lists_level(l, (#[trigger] out@[l])@),
    {
        let mut out: Vec<Vec<(&K, &V)>> = Vec::new();
        let mut lvl: usize = 0;
        while lvl <= self.current_level
            invariant
                self.wf(),
                lvl <= self.current_level + 1,
                out@.len() == lvl,
                forall|l: int| 0 <= l < out@.len() ==> self.lists_level(l, (#[trigger] out@[l])@),
            decreases self.current_level + 1 - lvl,
        {
            let level = self.level_entries(lvl);
            out.push(level);
            lvl = lvl + 1;
        }
        out
    }
}

} // verus!

//! Linking a new node into the chains, level by level.

use crate::chain::{
    chain_ok, entries_of, gap_at, heights_of, key_at, keys_of, lemma_chain_distinct, lemma_frame,
    lemma_gap_frame, lemma_relinked_trans, next_in, relinked, same_shape, set_link,
};
use crate::model::{count_below, lemma_count_below};
use crate::node::Node;
use crate::order::{key_lt, lemma_lt_irreflexive, lemma_lt_transitive, strict_total_order};
use vstd::prelude::*;

verus! {

/// The arena and the free list after `node` has been put into `slot`: the
/// last free slot, or a new one behind the others where none was free.
pub(crate) open spec fn placed<K: PartialOrd, V>(
    nodes: Seq<Node<K, V>>,
    free: Seq<usize>,
    nodes_after: Seq<Node<K, V>>,
    free_after: Seq<usize>,
    slot: usize,
    node: Node<K, V>,
) -> bool {
    if free.len() == 0 {
        slot == nodes.len() && nodes_after == nodes.push(node) && free_after == free
    } else {
        slot == free.last() && nodes_after == nodes.update(slot as int, node) && free_after
            == free.drop_last()
    }
}

/// The arena after `slot` has been linked in behind `pred` on level `lvl`.
pub(crate) open spec fn linked_in<K: PartialOrd, V>(
    a: Seq<Node<K, V>>,
    b: Seq<Node<K, V>>,
    pred: usize,
    slot: usize,
    lvl: int,
) -> bool {
    &&& relinked(a, b, lvl)
    &&& b[pred as int].forward@[lvl] == Some(slot)
    &&& b[slot as int].forward@[lvl] == a[pred as int].forward@[lvl]
    &&& forall|s: int|
        #![trigger b[s]]
        0 <= s < a.len() && s != slot && s != pred ==> b[s].forward@[lvl] == a[s].forward@[lvl]
}

/// The chain of a level is ready for a slot with `key` to be linked in
/// behind position `p`, which holds the slot `pred`.
pub(crate) open spec fn ready<K: PartialOrd, V>(
    nodes: Seq<Node<K, V>>,
    c: Seq<usize>,
    l: int,
    p: int,
    pred: usize,
    slot: usize,
    key: K,
) -> bool {
    &&& chain_ok(nodes, c, l)
    &&& gap_at(nodes, c, p, key)
    &&& c[p] == pred
    &&& forall|j: int| #![trigger c[j]] 0 <= j < c.len() ==> c[j] != slot
}

/// The chain of a level after the slot has been linked in.
pub(crate) open spec fn spliced<K: PartialOrd, V>(
    nodes: Seq<Node<K, V>>,
    c: Seq<usize>,
    l: int,
    before: Seq<usize>,
    p: int,
    slot: usize,
) -> bool {
    &&& chain_ok(nodes, c, l)
    &&& c == before.insert(p + 1, slot)
}

/// The state of the levels while a slot is linked in from level 0 upwards:
/// the levels below `lvl` hold the slot, the others wait for it.
pub(crate) open spec fn splicing<K: PartialOrd, V>(
    nodes: Seq<Node<K, V>>,
    chains: Seq<Seq<usize>>,
    before: Seq<Seq<usize>>,
    pos: Seq<int>,
    update: Seq<usize>,
    slot: usize,
    key: K,
    lvl: int,
) -> bool {
    &&& chains.len() == before.len()
    &&& pos.len() == before.len()
    &&& update.len() == before.len()
    &&& forall|l: int|
        lvl <= l < before.len() ==> #[trigger] ready(nodes, chains[l], l, pos[l], update[l], slot, key)
    &&& forall|l: int|
        0 <= l < lvl && l < before.len() ==> #[trigger] spliced(
            nodes,
            chains[l],
            l,
            before[l],
            pos[l],
            slot,
        )
    &&& forall|l: int| lvl <= l < before.len() ==> #[trigger] chains[l] == before[l]
}

/// Puts a node into the arena, into a free slot if there is one, and
/// returns its slot.
pub(crate) fn place<K: PartialOrd, V>(
    nodes: &mut Vec<Node<K, V>>,
    free: &mut Vec<usize>,
    node: Node<K, V>,
) -> (slot: usize)
    requires
        forall|f: int| 0 <= f < old(free)@.len() ==> #[trigger] old(free)@[f] < old(nodes)@.len(),
    ensures
        (slot as int) < final(nodes)@.len(),
        final(nodes)@[slot as int] == node,
        placed(old(nodes)@, old(free)@, final(nodes)@, final(free)@, slot, node),
{
    match free.pop() {
        Some(slot) => {
            nodes[slot] = node;
            slot
        },
        None => {
            nodes.push(node);
            nodes.len() - 1
        },
    }
}

/// Links `slot` in behind `pred` on level `lvl`: the slot takes over the
/// link of `pred`, and `pred` leads to the slot.
pub(crate) fn link_in<K: PartialOrd, V>(
    nodes: &mut Vec<Node<K, V>>,
    pred: usize,
    slot: usize,
    lvl: usize,
)
    requires
        pred < old(nodes)@.len(),
        slot < old(nodes)@.len(),
        pred != slot,
        lvl < old(nodes)@[pred as int].forward@.len(),
        lvl < old(nodes)@[slot as int].forward@.len(),
    ensures
        linked_in(old(nodes)@, final(nodes)@, pred, slot, lvl as int),
{
    let next = nodes[pred].forward[lvl];
    let ghost a = nodes@;
    set_link(nodes, slot, lvl, next);
    let ghost m = nodes@;
    set_link(nodes, pred, lvl, Some(slot));
    proof {
        let b = nodes@;
        assert(same_shape(a[pred as int], m[pred as int]));
        lemma_relinked_trans(a, m, b, lvl as int);
        assert forall|s: int|
            #![trigger b[s]]
            0 <= s < a.len() && s != slot && s != pred implies b[s].forward@[lvl as int]
            == a[s].forward@[lvl as int] by {
            assert(b[s] == m[s]);
            assert(m[s] == a[s]);
        }
        assert(b[slot as int] == m[slot as int]);
    }
}

/// A level that waits for its turn is not disturbed by the relinking of
/// another.
pub(crate) proof fn lemma_ready_frame<K: PartialOrd, V>(
    a: Seq<Node<K, V>>,
    b: Seq<Node<K, V>>,
    c: Seq<usize>,
    l: int,
    lvl: int,
    p: int,
    pred: usize,
    slot: usize,
    key: K,
)
    requires
        ready(a, c, l, p, pred, slot, key),
        relinked(a, b, lvl),
        0 <= l,
        l != lvl,
    ensures
        ready(b, c, l, p, pred, slot, key),
{
    lemma_frame(a, b, c, l, lvl);
    assert forall|j: int| #![trigger c[j]] 0 <= j < c.len() implies b[c[j] as int].key
        == a[c[j] as int].key by {
        assert(same_shape(a[c[j] as int], b[c[j] as int]));
    }
    lemma_gap_frame(a, b, c, p, key);
}

/// Linking a fresh slot in behind position `p` of a chain gives the chain
/// with that slot inserted.
pub(crate) proof fn lemma_splice<K: PartialOrd, V>(
    a: Seq<Node<K, V>>,
    b: Seq<Node<K, V>>,
    c: Seq<usize>,
    lvl: int,
    p: int,
    slot: usize,
    key: K,
)
    requires
        strict_total_order::<K>(),
        chain_ok(a, c, lvl),
        a[0].key is None,
        gap_at(a, c, p, key),
        forall|j: int| #![trigger c[j]] 0 <= j < c.len() ==> c[j] != slot,
        0 <= lvl,
        (slot as int) < a.len(),
        a[slot as int].key == Some(key),
        a[slot as int].value is Some,
        lvl < a[slot as int].forward@.len(),
        relinked(a, b, lvl),
        b[c[p] as int].forward@[lvl] == Some(slot),
        b[slot as int].forward@[lvl] == a[c[p] as int].forward@[lvl],
        forall|s: int|
            #![trigger b[s]]
            0 <= s < a.len() && s != slot && s != c[p] ==> b[s].forward@[lvl] == a[s].forward@[lvl],
    ensures
        chain_ok(b, c.insert(p + 1, slot), lvl),
{
    let d = c.insert(p + 1, slot);
    assert(d.len() == c.len() + 1);
    assert forall|j: int| 0 <= j < d.len() implies #[trigger] d[j] == (if j <= p {
        c[j]
    } else if j == p + 1 {
        slot
    } else {
        c[j - 1]
    }) by {}
    assert forall|j: int| #![trigger d[j]] 0 <= j < d.len() implies (d[j] as int) < b.len() && lvl
        < b[d[j] as int].forward@.len() && b[d[j] as int].forward@[lvl] == next_in(d, j) by {
        if j <= p {
            assert(same_shape(a[c[j] as int], b[c[j] as int]));
            if j < p {
                lemma_chain_distinct(a, c, lvl, j, p);
                assert(a[c[j] as int].forward@[lvl] == next_in(c, j));
            }
        } else if j == p + 1 {
            assert(same_shape(a[slot as int], b[slot as int]));
            assert(a[c[p] as int].forward@[lvl] == next_in(c, p));
        } else {
            assert(same_shape(a[c[j - 1] as int], b[c[j - 1] as int]));
            lemma_chain_distinct(a, c, lvl, j - 1, p);
            assert(a[c[j - 1] as int].forward@[lvl] == next_in(c, j - 1));
        }
    }
    assert forall|j: int| #![trigger d[j]] 1 <= j < d.len() implies b[d[j] as int].key is Some
        && b[d[j] as int].value is Some && key_at(b, d[j]) == (if j <= p {
        key_at(a, c[j])
    } else if j == p + 1 {
        key
    } else {
        key_at(a, c[j - 1])
    }) by {
        if j <= p {
            assert(same_shape(a[c[j] as int], b[c[j] as int]));
        } else if j == p + 1 {
            assert(same_shape(a[slot as int], b[slot as int]));
        } else {
            assert(same_shape(a[c[j - 1] as int], b[c[j - 1] as int]));
        }
    }
    assert forall|x: int, y: int| #![trigger d[x], d[y]] 1 <= x < y < d.len() implies key_lt(
        key_at(b, d[x]),
        key_at(b, d[y]),
    ) by {
        if y <= p {
            assert(key_lt(key_at(a, c[x]), key_at(a, c[y])));
        } else if y == p + 1 {
            assert(key_lt(key_at(a, c[x]), key));
        } else if x <= p {
            assert(key_lt(key_at(a, c[x]), key_at(a, c[y - 1])));
        } else if x == p + 1 {
            assert(key_lt(key, key_at(a, c[y - 1])));
        } else {
            assert(key_lt(key_at(a, c[x - 1]), key_at(a, c[y - 1])));
        }
    }
}

/// One step of linking a slot in: level `lvl` now holds it.
pub(crate) proof fn lemma_splice_step<K: PartialOrd, V>(
    a: Seq<Node<K, V>>,
    b: Seq<Node<K, V>>,
    chains: Seq<Seq<usize>>,
    before: Seq<Seq<usize>>,
    pos: Seq<int>,
    update: Seq<usize>,
    slot: usize,
    key: K,
    lvl: int,
)
    requires
        strict_total_order::<K>(),
        splicing(a, chains, before, pos, update, slot, key, lvl),
        0 <= lvl < before.len(),
        a[0].key is None,
        (slot as int) < a.len(),
        a[slot as int].key == Some(key),
        a[slot as int].value is Some,
        lvl < a[slot as int].forward@.len(),
        linked_in(a, b, update[lvl], slot, lvl),
    ensures
        splicing(
            b,
            chains.update(lvl, chains[lvl].insert(pos[lvl] + 1, slot)),
            before,
            pos,
            update,
            slot,
            key,
            lvl + 1,
        ),
{
    let c = chains[lvl];
    let p = pos[lvl];
    let after = chains.update(lvl, c.insert(p + 1, slot));
    assert(ready(a, chains[lvl], lvl, pos[lvl], update[lvl], slot, key));
    lemma_splice(a, b, c, lvl, p, slot, key);
    assert forall|l: int| lvl + 1 <= l < before.len() implies #[trigger] ready(
        b,
        after[l],
        l,
        pos[l],
        update[l],
        slot,
        key,
    ) by {
        assert(ready(a, chains[l], l, pos[l], update[l], slot, key));
        lemma_ready_frame(a, b, chains[l], l, lvl, pos[l], update[l], slot, key);
    }
    assert forall|l: int| 0 <= l < lvl + 1 && l < before.len() implies #[trigger] spliced(
        b,
        after[l],
        l,
        before[l],
        pos[l],
        slot,
    ) by {
        if l < lvl {
            assert(spliced(a, chains[l], l, before[l], pos[l], slot));
            lemma_frame(a, b, chains[l], l, lvl);
        } else {
            assert(chains[l] == before[l]);
        }
    }
    assert forall|l: int| lvl + 1 <= l < before.len() implies #[trigger] after[l] == before[l] by {
        assert(chains[l] == before[l]);
    }
}

/// The keys of a chain after a slot with a new key has been linked in at
/// the gap.
pub(crate) proof fn lemma_keys_insert<K: PartialOrd, V>(
    a: Seq<Node<K, V>>,
    b: Seq<Node<K, V>>,
    c: Seq<usize>,
    p: int,
    slot: usize,
    key: K,
)
    requires
        strict_total_order::<K>(),
        gap_at(a, c, p, key),
        forall|j: int| #![trigger c[j]] 0 <= j < c.len() ==> b[c[j] as int].key == a[c[j] as int].key,
        b[slot as int].key == Some(key),
    ensures
        keys_of(b, c.insert(p + 1, slot)) == keys_of(a, c).insert(p, key),
        count_below(keys_of(a, c), key) == p,
{
    let d = c.insert(p + 1, slot);
    let ka = keys_of(a, c);
    let kb = keys_of(b, d);
    lemma_lt_irreflexive(key);
    assert forall|j: int| 0 <= j < kb.len() implies kb[j] == ka.insert(p, key)[j] by {
        if j < p {
            assert(d[j + 1] == c[j + 1]);
        } else if j == p {
            assert(d[j + 1] == slot);
        } else {
            assert(d[j + 1] == c[j]);
        }
    }
    assert(kb =~= ka.insert(p, key));
    assert forall|j: int| 0 <= j < p implies key_lt(#[trigger] ka[j], key) by {
        assert(key_lt(key_at(a, c[j + 1]), key));
    }
    assert forall|j: int| p <= j < ka.len() implies !key_lt(#[trigger] ka[j], key) by {
        assert(key_lt(key, key_at(a, c[j + 1])));
        if key_lt(key_at(a, c[j + 1]), key) {
            lemma_lt_transitive(key, key_at(a, c[j + 1]), key);
        }
    }
    lemma_count_below(ka, key, p);
}

/// The entries and heights of a chain after a slot has been linked in
/// behind position `p`.
pub(crate) proof fn lemma_entries_insert<K: PartialOrd, V>(
    a: Seq<Node<K, V>>,
    b: Seq<Node<K, V>>,
    c: Seq<usize>,
    p: int,
    slot: usize,
    key: K,
    value: V,
)
    requires
        0 <= p < c.len(),
        forall|j: int|
            #![trigger c[j]]
            0 <= j < c.len() ==> same_shape(a[c[j] as int], b[c[j] as int]),
        b[slot as int].key == Some(key),
        b[slot as int].value == Some(value),
    ensures
        entries_of(b, c.insert(p + 1, slot)) == entries_of(a, c).insert(p, (key, value)),
        heights_of(b, c.insert(p + 1, slot)) == heights_of(a, c).insert(p, b[slot as int].level),
{
    let d = c.insert(p + 1, slot);
    let ea = entries_of(a, c).insert(p, (key, value));
    let eb = entries_of(b, d);
    let ha = heights_of(a, c).insert(p, b[slot as int].level);
    let hb = heights_of(b, d);
    assert forall|j: int| 0 <= j < eb.len() implies eb[j] == ea[j] && hb[j] == ha[j] by {
        if j < p {
            assert(d[j + 1] == c[j + 1]);
            assert(same_shape(a[c[j + 1] as int], b[c[j + 1] as int]));
        } else if j == p {
            assert(d[j + 1] == slot);
        } else {
            assert(d[j + 1] == c[j]);
            assert(same_shape(a[c[j] as int], b[c[j] as int]));
        }
    }
    assert(eb =~= ea);
    assert(hb =~= ha);
}

} // verus!

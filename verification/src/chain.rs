//! Chains: the slots of the arena that the links of one level lead
//! through, from the head on.

use crate::model::{
    distinct_keys, keys_in, lemma_map_of_at, lemma_map_of_key, map_of, strictly_increasing,
};
use crate::node::{Link, Node};
use crate::order::{
    key_lt, lemma_lt_connected, lemma_lt_irreflexive, lemma_lt_transitive, strict_total_order,
};
use vstd::prelude::*;

verus! {

/// The key in a slot of the arena.
pub(crate) open spec fn key_at<K: PartialOrd, V>(nodes: Seq<Node<K, V>>, slot: usize) -> K {
    nodes[slot as int].key.unwrap()
}

/// The value in a slot of the arena.
pub(crate) open spec fn val_at<K: PartialOrd, V>(nodes: Seq<Node<K, V>>, slot: usize) -> V {
    nodes[slot as int].value.unwrap()
}

/// The link that follows position `j` of a chain.
pub(crate) open spec fn next_in(c: Seq<usize>, j: int) -> Link {
    if j + 1 < c.len() {
        Some(c[j + 1])
    } else {
        None
    }
}

/// `c` is the chain of level `lvl`: it starts at the head, every slot in it
/// reaches up to `lvl`, the slots after the head hold entries in strictly
/// increasing key order, and the links of that level lead from each slot to
/// the next and end after the last.
pub(crate) open spec fn chain_ok<K: PartialOrd, V>(
    nodes: Seq<Node<K, V>>,
    c: Seq<usize>,
    lvl: int,
) -> bool {
    &&& c.len() >= 1
    &&& c[0] == 0
    &&& forall|j: int|
        #![trigger c[j]]
        0 <= j < c.len() ==> (c[j] as int) < nodes.len() && lvl < nodes[c[j] as int].forward@.len()
    &&& forall|j: int|
        #![trigger c[j]]
        1 <= j < c.len() ==> nodes[c[j] as int].key is Some && nodes[c[j] as int].value is Some
    &&& forall|a: int, b: int|
        #![trigger c[a], c[b]]
        1 <= a < b < c.len() ==> key_lt(key_at(nodes, c[a]), key_at(nodes, c[b]))
    &&& forall|j: int|
        #![trigger c[j]]
        0 <= j < c.len() ==> nodes[c[j] as int].forward@[lvl] == next_in(c, j)
}

/// The keys along a chain, the head left out.
pub(crate) open spec fn keys_of<K: PartialOrd, V>(nodes: Seq<Node<K, V>>, c: Seq<usize>) -> Seq<K> {
    Seq::new((c.len() - 1) as nat, |j: int| key_at(nodes, c[j + 1]))
}

/// The heights of the entries along a chain, the head left out.
pub(crate) open spec fn heights_of<K: PartialOrd, V>(
    nodes: Seq<Node<K, V>>,
    c: Seq<usize>,
) -> Seq<usize> {
    Seq::new((c.len() - 1) as nat, |j: int| nodes[c[j + 1] as int].level)
}

/// The keys along a chain with their values, the head left out.
pub(crate) open spec fn entries_of<K: PartialOrd, V>(
    nodes: Seq<Node<K, V>>,
    c: Seq<usize>,
) -> Seq<(K, V)> {
    Seq::new((c.len() - 1) as nat, |j: int| (key_at(nodes, c[j + 1]), val_at(nodes, c[j + 1])))
}

/// Walking the chain up to position `p` meets only keys below `key`, and
/// none after it is below `key`.
pub(crate) open spec fn stops_at<K: PartialOrd, V>(
    nodes: Seq<Node<K, V>>,
    c: Seq<usize>,
    p: int,
    key: K,
) -> bool {
    &&& 0 <= p < c.len()
    &&& forall|j: int| #![trigger c[j]] 1 <= j <= p ==> key_lt(key_at(nodes, c[j]), key)
    &&& forall|j: int| #![trigger c[j]] p < j < c.len() ==> !key_lt(key_at(nodes, c[j]), key)
}

/// The walk for `key` along the chain stops at position `p`, in slot `slot`.
pub(crate) open spec fn found<K: PartialOrd, V>(
    nodes: Seq<Node<K, V>>,
    c: Seq<usize>,
    p: int,
    slot: usize,
    key: K,
) -> bool {
    stops_at(nodes, c, p, key) && c[p] == slot
}

/// `key` fits strictly between positions `p` and `p + 1` of the chain.
pub(crate) open spec fn gap_at<K: PartialOrd, V>(
    nodes: Seq<Node<K, V>>,
    c: Seq<usize>,
    p: int,
    key: K,
) -> bool {
    &&& 0 <= p < c.len()
    &&& forall|j: int| #![trigger c[j]] 1 <= j <= p ==> key_lt(key_at(nodes, c[j]), key)
    &&& forall|j: int| #![trigger c[j]] p < j < c.len() ==> key_lt(key, key_at(nodes, c[j]))
}

/// Two nodes that differ in their links at most.
pub(crate) open spec fn same_shape<K: PartialOrd, V>(a: Node<K, V>, b: Node<K, V>) -> bool {
    &&& a.key == b.key
    &&& a.value == b.value
    &&& a.level == b.level
    &&& a.forward@.len() == b.forward@.len()
}

/// Two states of the arena whose nodes differ in their links at most.
pub(crate) open spec fn same_shapes<K: PartialOrd, V>(
    a: Seq<Node<K, V>>,
    b: Seq<Node<K, V>>,
) -> bool {
    &&& a.len() == b.len()
    &&& forall|s: int| #![trigger a[s]] #![trigger b[s]] 0 <= s < a.len() ==> same_shape(a[s], b[s])
}

/// Two states of the arena that differ in links of level `lvl` at most.
pub(crate) open spec fn relinked<K: PartialOrd, V>(
    a: Seq<Node<K, V>>,
    b: Seq<Node<K, V>>,
    lvl: int,
) -> bool {
    &&& a.len() == b.len()
    &&& forall|s: int|
        #![trigger a[s]]
        #![trigger b[s]]
        0 <= s < a.len() ==> same_shape(a[s], b[s]) && forall|l: int|
            0 <= l < a[s].forward@.len() && l != lvl ==> a[s].forward@[l] == b[s].forward@[l]
}

/// Two positions of a chain hold different slots.
pub(crate) proof fn lemma_chain_distinct<K: PartialOrd, V>(
    nodes: Seq<Node<K, V>>,
    c: Seq<usize>,
    lvl: int,
    a: int,
    b: int,
)
    requires
        strict_total_order::<K>(),
        chain_ok(nodes, c, lvl),
        nodes[0].key is None,
        0 <= a < c.len(),
        0 <= b < c.len(),
        a != b,
    ensures
        c[a] != c[b],
{
    if c[a] == c[b] {
        if a == 0 || b == 0 {
            assert(c[0] == 0);
        } else {
            lemma_lt_irreflexive(key_at(nodes, c[a]));
            if a < b {
                assert(key_lt(key_at(nodes, c[a]), key_at(nodes, c[b])));
            } else {
                assert(key_lt(key_at(nodes, c[b]), key_at(nodes, c[a])));
            }
        }
    }
}

/// The keys along a chain increase strictly, so the entries along it have
/// distinct keys.
pub(crate) proof fn lemma_chain_entries<K: PartialOrd, V>(
    nodes: Seq<Node<K, V>>,
    c: Seq<usize>,
    lvl: int,
)
    requires
        strict_total_order::<K>(),
        chain_ok(nodes, c, lvl),
    ensures
        strictly_increasing(keys_of(nodes, c)),
        distinct_keys(entries_of(nodes, c)),
        keys_in(entries_of(nodes, c)) == keys_of(nodes, c),
{
    let keys = keys_of(nodes, c);
    let e = entries_of(nodes, c);
    assert forall|i: int, j: int| 0 <= i < j < keys.len() implies key_lt(
        #[trigger] keys[i],
        #[trigger] keys[j],
    ) by {
        assert(key_lt(key_at(nodes, c[i + 1]), key_at(nodes, c[j + 1])));
    }
    assert forall|i: int, j: int| 0 <= i < j < e.len() implies (#[trigger] e[i]).0 != (
    #[trigger] e[j]).0 by {
        assert(key_lt(key_at(nodes, c[i + 1]), key_at(nodes, c[j + 1])));
        lemma_lt_irreflexive(e[i].0);
    }
    assert(keys_in(e) =~= keys);
}

/// Where the key after position `p` is not below `key`, none of the later
/// ones is.
pub(crate) proof fn lemma_rest_not_below<K: PartialOrd, V>(
    nodes: Seq<Node<K, V>>,
    c: Seq<usize>,
    lvl: int,
    p: int,
    key: K,
)
    requires
        strict_total_order::<K>(),
        chain_ok(nodes, c, lvl),
        0 <= p,
        p + 1 < c.len(),
        !key_lt(key_at(nodes, c[p + 1]), key),
    ensures
        forall|j: int| #![trigger c[j]] p < j < c.len() ==> !key_lt(key_at(nodes, c[j]), key),
{
    assert forall|j: int| #![trigger c[j]] p < j < c.len() implies !key_lt(
        key_at(nodes, c[j]),
        key,
    ) by {
        if j > p + 1 && key_lt(key_at(nodes, c[j]), key) {
            assert(key_lt(key_at(nodes, c[p + 1]), key_at(nodes, c[j])));
            lemma_lt_transitive(key_at(nodes, c[p + 1]), key_at(nodes, c[j]), key);
        }
    }
}

/// After a walk of level 0 has stopped at `p`, the key is in the map exactly
/// if the next position exists and its key is not above `key`; the entry is
/// then the one stored there.
pub(crate) proof fn lemma_lookup<K: PartialOrd, V>(
    nodes: Seq<Node<K, V>>,
    c: Seq<usize>,
    p: int,
    key: K,
)
    requires
        strict_total_order::<K>(),
        chain_ok(nodes, c, 0),
        stops_at(nodes, c, p, key),
    ensures
        map_of(entries_of(nodes, c)).contains_key(key) <==> (p + 1 < c.len() && !key_lt(
            key,
            key_at(nodes, c[p + 1]),
        )),
        map_of(entries_of(nodes, c)).contains_key(key) ==> entries_of(nodes, c)[p] == (
            key,
            map_of(entries_of(nodes, c))[key],
        ) && val_at(nodes, c[p + 1]) == map_of(entries_of(nodes, c))[key],
{
    let e = entries_of(nodes, c);
    lemma_chain_entries(nodes, c, 0);
    lemma_lt_irreflexive(key);
    if p + 1 < c.len() && !key_lt(key, key_at(nodes, c[p + 1])) {
        assert(!key_lt(key_at(nodes, c[p + 1]), key));
        lemma_lt_connected(key, key_at(nodes, c[p + 1]));
        lemma_map_of_at(e, p);
    } else if map_of(e).contains_key(key) {
        let i = lemma_map_of_key(e, key);
        let j = i + 1;
        assert(key_at(nodes, c[j]) == key);
        if j <= p {
            assert(key_lt(key_at(nodes, c[j]), key));
        } else if j > p + 1 {
            assert(!key_lt(key_at(nodes, c[p + 1]), key));
            assert(key_lt(key_at(nodes, c[p + 1]), key_at(nodes, c[j])));
        }
    }
}

/// A chain of another level than the one that was relinked is a chain
/// still.
pub(crate) proof fn lemma_frame<K: PartialOrd, V>(
    a: Seq<Node<K, V>>,
    b: Seq<Node<K, V>>,
    c: Seq<usize>,
    l: int,
    lvl: int,
)
    requires
        chain_ok(a, c, l),
        relinked(a, b, lvl),
        0 <= l,
        l != lvl,
    ensures
        chain_ok(b, c, l),
{
    assert forall|j: int| #![trigger c[j]] 0 <= j < c.len() implies (c[j] as int) < b.len() && l
        < b[c[j] as int].forward@.len() && b[c[j] as int].forward@[l] == next_in(c, j) && b[c[j] as int].key
        == a[c[j] as int].key && b[c[j] as int].value == a[c[j] as int].value by {
        assert(same_shape(a[c[j] as int], b[c[j] as int]));
    }
    assert forall|x: int, y: int| #![trigger c[x], c[y]] 1 <= x < y < c.len() implies key_lt(
        key_at(b, c[x]),
        key_at(b, c[y]),
    ) by {
        assert(key_lt(key_at(a, c[x]), key_at(a, c[y])));
    }
}

/// A chain whose slots were all left alone is a chain still.
pub(crate) proof fn lemma_frame_untouched<K: PartialOrd, V>(
    a: Seq<Node<K, V>>,
    b: Seq<Node<K, V>>,
    c: Seq<usize>,
    l: int,
)
    requires
        chain_ok(a, c, l),
        a.len() <= b.len(),
        forall|j: int| #![trigger c[j]] 0 <= j < c.len() ==> b[c[j] as int] == a[c[j] as int],
    ensures
        chain_ok(b, c, l),
{
    assert forall|x: int, y: int| #![trigger c[x], c[y]] 1 <= x < y < c.len() implies key_lt(
        key_at(b, c[x]),
        key_at(b, c[y]),
    ) by {
        assert(key_lt(key_at(a, c[x]), key_at(a, c[y])));
    }
}

/// A gap stays where the keys of the chain stay.
pub(crate) proof fn lemma_gap_frame<K: PartialOrd, V>(
    a: Seq<Node<K, V>>,
    b: Seq<Node<K, V>>,
    c: Seq<usize>,
    p: int,
    key: K,
)
    requires
        gap_at(a, c, p, key),
        forall|j: int| #![trigger c[j]] 0 <= j < c.len() ==> b[c[j] as int].key == a[c[j] as int].key,
    ensures
        gap_at(b, c, p, key),
{
    assert forall|j: int| #![trigger c[j]] 1 <= j <= p implies key_lt(key_at(b, c[j]), key) by {
        assert(key_lt(key_at(a, c[j]), key));
    }
    assert forall|j: int| #![trigger c[j]] p < j < c.len() implies key_lt(key, key_at(b, c[j])) by {
        assert(key_lt(key, key_at(a, c[j])));
    }
}

/// Relinking one level twice relinks that level.
pub(crate) proof fn lemma_relinked_trans<K: PartialOrd, V>(
    a: Seq<Node<K, V>>,
    m: Seq<Node<K, V>>,
    b: Seq<Node<K, V>>,
    lvl: int,
)
    requires
        relinked(a, m, lvl),
        relinked(m, b, lvl),
    ensures
        relinked(a, b, lvl),
{
    assert forall|s: int| #![trigger a[s]] #![trigger b[s]] 0 <= s < a.len() implies same_shape(
        a[s],
        b[s],
    ) && forall|l: int|
        0 <= l < a[s].forward@.len() && l != lvl ==> a[s].forward@[l] == b[s].forward@[l] by {
        assert(same_shape(a[s], m[s]));
        assert(same_shape(m[s], b[s]));
    }
}

/// Slots of the same shape hold the same keys.
pub(crate) proof fn lemma_same_keys<K: PartialOrd, V>(
    a: Seq<Node<K, V>>,
    b: Seq<Node<K, V>>,
    c: Seq<usize>,
)
    requires
        forall|j: int|
            #![trigger c[j]]
            0 <= j < c.len() ==> same_shape(a[c[j] as int], b[c[j] as int]),
    ensures
        forall|j: int| #![trigger c[j]] 0 <= j < c.len() ==> b[c[j] as int].key == a[c[j] as int].key,
{
}

/// The keys of a chain stay where the keys of its slots stay.
pub(crate) proof fn lemma_keys_same<K: PartialOrd, V>(
    a: Seq<Node<K, V>>,
    b: Seq<Node<K, V>>,
    c: Seq<usize>,
)
    requires
        c.len() >= 1,
        forall|j: int| #![trigger c[j]] 0 <= j < c.len() ==> b[c[j] as int].key == a[c[j] as int].key,
    ensures
        keys_of(b, c) == keys_of(a, c),
{
    assert forall|j: int| 0 <= j < keys_of(a, c).len() implies keys_of(b, c)[j] == keys_of(a, c)[j] by {
        assert(b[c[j + 1] as int].key == a[c[j + 1] as int].key);
    }
    assert(keys_of(b, c) =~= keys_of(a, c));
}

/// Sets the link of level `lvl` in one slot of the arena.
pub(crate) fn set_link<K: PartialOrd, V>(
    nodes: &mut Vec<Node<K, V>>,
    slot: usize,
    lvl: usize,
    link: Link,
)
    requires
        slot < old(nodes)@.len(),
        lvl < old(nodes)@[slot as int].forward@.len(),
    ensures
        relinked(old(nodes)@, final(nodes)@, lvl as int),
        final(nodes)@[slot as int].forward@[lvl as int] == link,
        forall|s: int|
            #![trigger final(nodes)@[s]]
            0 <= s < old(nodes)@.len() && s != slot ==> final(nodes)@[s] == old(nodes)@[s],
{
    nodes[slot].forward[lvl] = link;
}

} // verus!

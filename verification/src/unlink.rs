//! Taking a node out of the chains, level by level.

use crate::chain::{
    chain_ok, entries_of, heights_of, key_at, keys_of, lemma_chain_distinct, lemma_frame, next_in,
    relinked, same_shape, stops_at,
};
use crate::node::Node;
use crate::order::{key_lt, lemma_lt_irreflexive, strict_total_order};
use vstd::prelude::*;

verus! {

/// Two states of the arena that differ in one slot at most.
pub(crate) open spec fn released<K: PartialOrd, V>(
    a: Seq<Node<K, V>>,
    b: Seq<Node<K, V>>,
    slot: usize,
) -> bool {
    &&& a.len() == b.len()
    &&& forall|s: int| #![trigger b[s]] 0 <= s < a.len() && s != slot ==> b[s] == a[s]
}

/// The arena after the link of `pred` on level `lvl` has been led past
/// `target`.
pub(crate) open spec fn bypassed<K: PartialOrd, V>(
    a: Seq<Node<K, V>>,
    b: Seq<Node<K, V>>,
    pred: usize,
    target: usize,
    lvl: int,
) -> bool {
    &&& relinked(a, b, lvl)
    &&& b[pred as int].forward@[lvl] == a[target as int].forward@[lvl]
    &&& forall|s: int| #![trigger b[s]] 0 <= s < a.len() && s != pred ==> b[s] == a[s]
}

/// The chain of a level from which `target` may have to be taken out: it
/// can stand only behind position `p`, which holds the slot `pred`.
pub(crate) open spec fn waiting<K: PartialOrd, V>(
    nodes: Seq<Node<K, V>>,
    c: Seq<usize>,
    l: int,
    p: int,
    pred: usize,
    target: usize,
) -> bool {
    &&& chain_ok(nodes, c, l)
    &&& 0 <= p < c.len()
    &&& c[p] == pred
    &&& forall|j: int| #![trigger c[j]] 0 <= j < c.len() && c[j] == target ==> j == p + 1
}

/// The chain of a level after `target` has been taken out of it.
pub(crate) open spec fn unlinked<K: PartialOrd, V>(
    nodes: Seq<Node<K, V>>,
    c: Seq<usize>,
    l: int,
    before: Seq<usize>,
    p: int,
    target: usize,
) -> bool {
    &&& chain_ok(nodes, c, l)
    &&& 0 <= p
    &&& p + 1 < before.len()
    &&& before[p + 1] == target
    &&& c == before.remove(p + 1)
}

/// The state of the levels while a slot is taken out from level 0 upwards:
/// the levels below `lvl` have let go of it, the others are as they were.
pub(crate) open spec fn unlinking<K: PartialOrd, V>(
    nodes: Seq<Node<K, V>>,
    chains: Seq<Seq<usize>>,
    before: Seq<Seq<usize>>,
    pos: Seq<int>,
    update: Seq<usize>,
    target: usize,
    lvl: int,
) -> bool {
    &&& chains.len() == before.len()
    &&& pos.len() == before.len()
    &&& update.len() == before.len()
    &&& forall|l: int|
        lvl <= l < before.len() ==> #[trigger] waiting(nodes, chains[l], l, pos[l], update[l], target)
    &&& forall|l: int|
        0 <= l < lvl && l < before.len() ==> #[trigger] unlinked(
            nodes,
            chains[l],
            l,
            before[l],
            pos[l],
            target,
        )
    &&& forall|l: int| lvl <= l < before.len() ==> #[trigger] chains[l] == before[l]
}

/// Empties a slot of the arena, so that its key and its links are dropped,
/// and hands out the value that it held.
pub(crate) fn release<K: PartialOrd, V>(
    nodes: &mut Vec<Node<K, V>>,
    slot: usize,
) -> (value: Option<V>)
    requires
        slot < old(nodes)@.len(),
    ensures
        value == old(nodes)@[slot as int].value,
        released(old(nodes)@, final(nodes)@, slot),
{
    let value = nodes[slot].value.take();
    nodes[slot].key = None;
    nodes[slot].forward = Vec::new();
    value
}

/// A slot that holds `key` can stand in a chain only right behind the
/// position where the walk for `key` stops.
pub(crate) proof fn lemma_only_behind<K: PartialOrd, V>(
    nodes: Seq<Node<K, V>>,
    c: Seq<usize>,
    lvl: int,
    p: int,
    key: K,
    target: usize,
)
    requires
        strict_total_order::<K>(),
        chain_ok(nodes, c, lvl),
        stops_at(nodes, c, p, key),
        nodes[target as int].key == Some(key),
        nodes[0].key is None,
    ensures
        forall|j: int| #![trigger c[j]] 0 <= j < c.len() && c[j] == target ==> j == p + 1,
{
    lemma_lt_irreflexive(key);
    assert forall|j: int| #![trigger c[j]] 0 <= j < c.len() && c[j] == target implies j == p + 1 by {
        if j == 0 {
            assert(c[0] == 0);
        } else if j <= p {
            assert(key_lt(key_at(nodes, c[j]), key));
        } else if j > p + 1 {
            assert(!key_lt(key_at(nodes, c[p + 1]), key));
            assert(key_lt(key_at(nodes, c[p + 1]), key_at(nodes, c[j])));
        }
    }
}

/// Leading the link of position `p` past the slot behind it gives the
/// chain without that slot.
pub(crate) proof fn lemma_bypass<K: PartialOrd, V>(
    a: Seq<Node<K, V>>,
    b: Seq<Node<K, V>>,
    c: Seq<usize>,
    lvl: int,
    p: int,
    target: usize,
)
    requires
        strict_total_order::<K>(),
        chain_ok(a, c, lvl),
        a[0].key is None,
        0 <= lvl,
        0 <= p,
        p + 1 < c.len(),
        c[p + 1] == target,
        bypassed(a, b, c[p], target, lvl),
    ensures
        chain_ok(b, c.remove(p + 1), lvl),
{
    let d = c.remove(p + 1);
    assert(d.len() == c.len() - 1);
    assert forall|j: int| 0 <= j < d.len() implies #[trigger] d[j] == (if j <= p {
        c[j]
    } else {
        c[j + 1]
    }) by {}
    assert forall|j: int| #![trigger d[j]] 0 <= j < d.len() implies (d[j] as int) < b.len() && lvl
        < b[d[j] as int].forward@.len() && b[d[j] as int].forward@[lvl] == next_in(d, j) by {
        let j0 = if j <= p {
            j
        } else {
            j + 1
        };
        assert(d[j] == c[j0]);
        assert(same_shape(a[c[j0] as int], b[c[j0] as int]));
        assert(a[c[j0] as int].forward@[lvl] == next_in(c, j0));
        if j != p {
            lemma_chain_distinct(a, c, lvl, j0, p);
        } else {
            assert(a[c[p + 1] as int].forward@[lvl] == next_in(c, p + 1));
        }
    }
    assert forall|j: int| #![trigger d[j]] 1 <= j < d.len() implies b[d[j] as int].key is Some
        && b[d[j] as int].value is Some && key_at(b, d[j]) == (if j <= p {
        key_at(a, c[j])
    } else {
        key_at(a, c[j + 1])
    }) by {
        let j0 = if j <= p {
            j
        } else {
            j + 1
        };
        assert(d[j] == c[j0]);
        assert(same_shape(a[c[j0] as int], b[c[j0] as int]));
    }
    assert forall|x: int, y: int| #![trigger d[x], d[y]] 1 <= x < y < d.len() implies key_lt(
        key_at(b, d[x]),
        key_at(b, d[y]),
    ) by {
        let x0 = if x <= p {
            x
        } else {
            x + 1
        };
        let y0 = if y <= p {
            y
        } else {
            y + 1
        };
        assert(key_lt(key_at(a, c[x0]), key_at(a, c[y0])));
    }
}

/// One step of taking a slot out: level `lvl`, whose link led to it, has
/// let go of it.
pub(crate) proof fn lemma_unlink_step<K: PartialOrd, V>(
    a: Seq<Node<K, V>>,
    b: Seq<Node<K, V>>,
    chains: Seq<Seq<usize>>,
    before: Seq<Seq<usize>>,
    pos: Seq<int>,
    update: Seq<usize>,
    target: usize,
    lvl: int,
)
    requires
        strict_total_order::<K>(),
        unlinking(a, chains, before, pos, update, target, lvl),
        0 <= lvl < before.len(),
        a[0].key is None,
        a[update[lvl] as int].forward@[lvl] == Some(target),
        bypassed(a, b, update[lvl], target, lvl),
    ensures
        unlinking(
            b,
            chains.update(lvl, chains[lvl].remove(pos[lvl] + 1)),
            before,
            pos,
            update,
            target,
            lvl + 1,
        ),
{
    let c = chains[lvl];
    let p = pos[lvl];
    let after = chains.update(lvl, c.remove(p + 1));
    assert(waiting(a, chains[lvl], lvl, pos[lvl], update[lvl], target));
    assert(chains[lvl] == before[lvl]);
    assert(a[c[p] as int].forward@[lvl] == next_in(c, p));
    lemma_bypass(a, b, c, lvl, p, target);
    assert forall|l: int| lvl + 1 <= l < before.len() implies #[trigger] waiting(
        b,
        after[l],
        l,
        pos[l],
        update[l],
        target,
    ) by {
        assert(waiting(a, chains[l], l, pos[l], update[l], target));
        lemma_frame(a, b, chains[l], l, lvl);
    }
    assert forall|l: int| 0 <= l < lvl + 1 && l < before.len() implies #[trigger] unlinked(
        b,
        after[l],
        l,
        before[l],
        pos[l],
        target,
    ) by {
        if l < lvl {
            assert(unlinked(a, chains[l], l, before[l], pos[l], target));
            lemma_frame(a, b, chains[l], l, lvl);
        }
    }
    assert forall|l: int| lvl + 1 <= l < before.len() implies #[trigger] after[l] == before[l] by {
        assert(chains[l] == before[l]);
    }
}

/// The entries, heights and keys of a chain after the slot behind position
/// `p` has been taken out.
pub(crate) proof fn lemma_entries_remove<K: PartialOrd, V>(
    a: Seq<Node<K, V>>,
    b: Seq<Node<K, V>>,
    c: Seq<usize>,
    p: int,
)
    requires
        0 <= p,
        p + 1 < c.len(),
        forall|j: int|
            #![trigger c[j]]
            0 <= j < c.len() && j != p + 1 ==> same_shape(a[c[j] as int], b[c[j] as int]),
    ensures
        entries_of(b, c.remove(p + 1)) == entries_of(a, c).remove(p),
        heights_of(b, c.remove(p + 1)) == heights_of(a, c).remove(p),
        keys_of(b, c.remove(p + 1)) == keys_of(a, c).remove(p),
{
    let d = c.remove(p + 1);
    let ea = entries_of(a, c).remove(p);
    let eb = entries_of(b, d);
    let ha = heights_of(a, c).remove(p);
    let hb = heights_of(b, d);
    let ka = keys_of(a, c).remove(p);
    let kb = keys_of(b, d);
    assert forall|j: int| 0 <= j < eb.len() implies eb[j] == ea[j] && hb[j] == ha[j] && kb[j]
        == ka[j] by {
        if j < p {
            assert(d[j + 1] == c[j + 1]);
            assert(same_shape(a[c[j + 1] as int], b[c[j + 1] as int]));
        } else {
            assert(d[j + 1] == c[j + 2]);
            assert(same_shape(a[c[j + 2] as int], b[c[j + 2] as int]));
        }
    }
    assert(eb =~= ea);
    assert(hb =~= ha);
    assert(kb =~= ka);
}

} // verus!

//! The list after a removal: its invariant holds again, and the entry is
//! gone.

use crate::chain::{
    chain_ok, entries_of, found, keys_of, lemma_chain_distinct, lemma_chain_entries,
    lemma_frame_untouched, lemma_keys_same, lemma_same_keys, same_shape, same_shapes,
};
use crate::model::{count_below, lemma_count_at_key, lemma_map_of_remove, lemma_remove_contains};
use crate::node::Node;
use crate::skip_list::{SkipList, removed};
use crate::unlink::{lemma_entries_remove, released, unlinked, unlinking, waiting};
use vstd::prelude::*;

verus! {

/// What holds when a slot has been taken out of the levels below `top`,
/// which are all that held it, and has been released.
pub(crate) open spec fn removal<K: PartialOrd, V>(
    before: SkipList<K, V>,
    after: SkipList<K, V>,
    pos: Seq<int>,
    update: Seq<usize>,
    target: usize,
    key: K,
    top: int,
    b: Seq<Node<K, V>>,
) -> bool {
    &&& before.wf()
    &&& forall|l: int|
        0 <= l <= before.max_level ==> #[trigger] found(
            before.nodes@,
            before.chains@[l],
            pos[l],
            update[l],
            key,
        )
    &&& 0 <= pos[0]
    &&& pos[0] + 1 < before.chains@[0].len()
    &&& before.chains@[0][pos[0] + 1] == target
    &&& before.nodes@[target as int].key == Some(key)
    &&& 0 <= top <= before.current_level + 1
    &&& unlinking(b, after.chains@, before.chains@, pos, update, target, top)
    &&& top <= before.current_level ==> !before.chains@[top].contains(target)
    &&& same_shapes(before.nodes@, b)
    &&& released(b, after.nodes@, target)
    &&& after.free@ == before.free@.push(target)
    &&& after.max_level == before.max_level
    &&& after.current_element == before.current_element - 1
    &&& after.current_level <= before.current_level
    &&& forall|l: int|
        after.current_level < l <= before.max_level ==> (#[trigger] after.chains@[l]).len() == 1
    &&& after.current_level > 0 ==> after.chains@[after.current_level as int].len() > 1
}

/// The chains after a removal, level by level, and what the arena still
/// holds.
pub(crate) open spec fn removal_shape<K: PartialOrd, V>(
    before: SkipList<K, V>,
    after: SkipList<K, V>,
    pos: Seq<int>,
    target: usize,
    top: int,
) -> bool {
    let c0s = before.chains@;
    let cs = after.chains@;
    &&& target != 0
    &&& 0 <= top
    &&& cs.len() == c0s.len()
    &&& forall|l: int|
        0 <= l < top ==> #[trigger] cs[l] == c0s[l].remove(pos[l] + 1) && 0 <= pos[l] && pos[l] + 1
            < c0s[l].len() && c0s[l][pos[l] + 1] == target
    &&& forall|l: int|
        top <= l <= before.max_level ==> #[trigger] cs[l] == c0s[l] && !c0s[l].contains(target)
    &&& forall|l: int, j: int|
        0 <= l <= before.max_level && 0 <= j < cs[l].len() ==> (#[trigger] cs[l][j]) != target
            && c0s[l].contains(cs[l][j])
    &&& forall|l: int| 0 <= l <= before.max_level ==> #[trigger] chain_ok(after.nodes@, cs[l], l)
    &&& after.nodes@.len() == before.nodes@.len()
    &&& forall|s: int|
        #![trigger after.nodes@[s]]
        0 <= s < before.nodes@.len() && s != target ==> same_shape(before.nodes@[s], after.nodes@[s])
}

/// After a removal every level that held the slot is without it, and no
/// chain leads through it any more.
pub(crate) proof fn lemma_removal_shape<K: PartialOrd, V>(
    before: SkipList<K, V>,
    after: SkipList<K, V>,
    pos: Seq<int>,
    update: Seq<usize>,
    target: usize,
    key: K,
    top: int,
    b: Seq<Node<K, V>>,
)
    requires
        removal(before, after, pos, update, target, key, top, b),
    ensures
        removal_shape(before, after, pos, target, top),
{
    let max = before.max_level as int;
    let n0 = before.nodes@;
    let c0s = before.chains@;
    let n2 = after.nodes@;
    let cs = after.chains@;
    let base = pos[0];
    assert(chain_ok(n0, c0s[0], 0));
    assert(target != 0) by {
        lemma_chain_distinct(n0, c0s[0], 0, 0, base + 1);
    }
    assert forall|l: int| top <= l <= max implies #[trigger] cs[l] == c0s[l] && !c0s[l].contains(
        target,
    ) by {
        if top <= before.current_level {
            before.lemma_absent_above(top, l, target);
        } else {
            assert(c0s[l].len() == 1);
            assert(chain_ok(n0, c0s[l], l));
        }
    }
    assert forall|l: int| 0 <= l < top implies #[trigger] cs[l] == c0s[l].remove(pos[l] + 1) && 0
        <= pos[l] && pos[l] + 1 < c0s[l].len() && c0s[l][pos[l] + 1] == target by {
        assert(unlinked(b, cs[l], l, c0s[l], pos[l], target));
    }
    assert forall|l: int, j: int| 0 <= l <= max && 0 <= j < cs[l].len() implies (
    #[trigger] cs[l][j]) != target && c0s[l].contains(cs[l][j]) by {
        assert(chain_ok(n0, c0s[l], l));
        if l < top {
            assert(cs[l] == c0s[l].remove(pos[l] + 1));
            let j0 = if j <= pos[l] {
                j
            } else {
                j + 1
            };
            assert(cs[l][j] == c0s[l][j0]);
            lemma_chain_distinct(n0, c0s[l], l, j0, pos[l] + 1);
        } else {
            assert(cs[l] == c0s[l]);
            assert(cs[l][j] == c0s[l][j]);
        }
    }
    assert forall|l: int| 0 <= l <= max implies #[trigger] chain_ok(n2, cs[l], l) by {
        if l < top {
            assert(unlinked(b, cs[l], l, c0s[l], pos[l], target));
        } else {
            assert(waiting(b, cs[l], l, pos[l], update[l], target));
        }
        assert forall|j: int| #![trigger cs[l][j]] 0 <= j < cs[l].len() implies n2[cs[l][j] as int]
            == b[cs[l][j] as int] by {
            assert(cs[l][j] != target);
        }
        lemma_frame_untouched(b, n2, cs[l], l);
    }
    assert forall|s: int| #![trigger n2[s]] 0 <= s < n0.len() && s != target implies same_shape(
        n0[s],
        n2[s],
    ) by {
        assert(same_shape(n0[s], b[s]));
        assert(n2[s] == b[s]);
    }
}

/// After a removal each entry that is left stands on every level up to its
/// height, as before.
proof fn lemma_removal_filled<K: PartialOrd, V>(
    before: SkipList<K, V>,
    after: SkipList<K, V>,
    pos: Seq<int>,
    target: usize,
    top: int,
)
    requires
        before.wf(),
        after.max_level == before.max_level,
        removal_shape(before, after, pos, target, top),
    ensures
        after.filled(),
{
    let n0 = before.nodes@;
    let c0s = before.chains@;
    let n2 = after.nodes@;
    let cs = after.chains@;
    assert(chain_ok(n0, c0s[0], 0));
    assert(chain_ok(n2, cs[0], 0));
    assert forall|j: int, l: int|
        1 <= j < cs[0].len() && 0 <= l <= n2[cs[0][j] as int].level implies #[trigger] cs[l].contains(
        cs[0][j],
    ) by {
        let x = cs[0][j];
        assert(x != target && c0s[0].contains(x));
        let j0 = choose|j0: int| 0 <= j0 < c0s[0].len() && c0s[0][j0] == x;
        assert(n2[x as int].key is Some);
        assert(same_shape(n0[x as int], n2[x as int]));
        assert(j0 >= 1);
        assert(n0[c0s[0][j0] as int].level <= before.max_level);
        assert(c0s[l].contains(c0s[0][j0]));
        if l < top {
            assert(cs[l] == c0s[l].remove(pos[l] + 1));
            lemma_remove_contains(c0s[l], pos[l] + 1, x);
        } else {
            assert(cs[l] == c0s[l]);
        }
    }
}

/// After a removal the list is whole again.
pub(crate) proof fn lemma_removal_wf<K: PartialOrd, V>(
    before: SkipList<K, V>,
    after: SkipList<K, V>,
    pos: Seq<int>,
    update: Seq<usize>,
    target: usize,
    key: K,
    top: int,
    b: Seq<Node<K, V>>,
)
    requires
        removal(before, after, pos, update, target, key, top, b),
        removal_shape(before, after, pos, target, top),
    ensures
        after.wf(),
{
    let max = before.max_level as int;
    let n0 = before.nodes@;
    let c0s = before.chains@;
    let free0 = before.free@;
    let n2 = after.nodes@;
    let cs = after.chains@;
    let base = pos[0];
    assert(after.chains_ok());
    assert(after.nested()) by {
        assert forall|l: int, j: int|
            #![trigger after.chains@[l][j]]
            1 <= l <= max && 1 <= j < cs[l].len() implies cs[l - 1].contains(cs[l][j]) by {
            let x = cs[l][j];
            let low = c0s[l - 1];
            assert(x != target && c0s[l].contains(x));
            let j0 = choose|j0: int| 0 <= j0 < c0s[l].len() && c0s[l][j0] == x;
            assert(chain_ok(n0, c0s[l], l));
            assert(chain_ok(n2, cs[l], l));
            assert(n2[x as int].key is Some);
            assert(j0 >= 1);
            assert(low.contains(c0s[l][j0]));
            if l - 1 < top {
                assert(cs[l - 1] == low.remove(pos[l - 1] + 1));
                lemma_remove_contains(low, pos[l - 1] + 1, x);
            } else {
                assert(cs[l - 1] == low);
            }
        }
    }
    lemma_removal_filled(before, after, pos, target, top);
    assert(after.top_ok());
    assert(chain_ok(n2, cs[0], 0));
    assert(after.shapes_ok()) by {
        assert(same_shape(n0[0], n2[0]));
        assert forall|j: int| #![trigger after.chains@[0][j]] 1 <= j < cs[0].len() implies {
            let n = n2[cs[0][j] as int];
            n.level <= after.max_level && n.forward@.len() == n.level + 1
        } by {
            let x = cs[0][j];
            assert(x != target && c0s[0].contains(x));
            let j0 = choose|j0: int| 0 <= j0 < c0s[0].len() && c0s[0][j0] == x;
            assert(n2[x as int].key is Some);
            assert(same_shape(n0[x as int], n2[x as int]));
            assert(j0 >= 1);
        }
    }
    assert(cs[0] == c0s[0].remove(base + 1));
    assert(after.slots_ok()) by {
        assert(c0s[0][base + 1] == target);
        assert(c0s[0].contains(target));
        assert forall|f: int| #![trigger after.free@[f]] 0 <= f < after.free@.len() implies 1
            <= after.free@[f] < n2.len() && !cs[0].contains(after.free@[f]) by {
            let x = after.free@[f];
            if f < free0.len() {
                assert(x == free0[f]);
            } else {
                assert(x == target);
                assert(chain_ok(n0, c0s[0], 0));
            }
            if cs[0].contains(x) {
                let i = choose|i: int| 0 <= i < cs[0].len() && cs[0][i] == x;
                assert(cs[0][i] != target && c0s[0].contains(cs[0][i]));
            }
        }
        assert forall|f: int, g: int|
            0 <= f < after.free@.len() && 0 <= g < after.free@.len() && f != g implies after.free@[f]
            != after.free@[g] by {
            if f < free0.len() && g < free0.len() {
                assert(free0[f] != free0[g]);
            } else if f < free0.len() {
                assert(!c0s[0].contains(free0[f]));
            } else {
                assert(!c0s[0].contains(free0[g]));
            }
        }
    }
}

/// After a removal the entries, the heights and the keys of every level are
/// those from before but for the one that was removed.
pub(crate) proof fn lemma_removal_view<K: PartialOrd, V>(
    before: SkipList<K, V>,
    after: SkipList<K, V>,
    pos: Seq<int>,
    update: Seq<usize>,
    target: usize,
    key: K,
    top: int,
    b: Seq<Node<K, V>>,
)
    requires
        removal(before, after, pos, update, target, key, top, b),
        removal_shape(before, after, pos, target, top),
    ensures
        removed(before, after, key),
{
    let max = before.max_level as int;
    let n0 = before.nodes@;
    let c0s = before.chains@;
    let n2 = after.nodes@;
    let cs = after.chains@;
    let base = pos[0];
    assert(chain_ok(n0, c0s[0], 0));
    lemma_chain_entries(n0, c0s[0], 0);
    assert forall|l: int, j: int| 0 <= l <= max && 0 <= j < c0s[l].len() && (l >= top || j != pos[l]
        + 1) implies same_shape(n0[(#[trigger] c0s[l][j]) as int], n2[c0s[l][j] as int]) by {
        assert(chain_ok(n0, c0s[l], l));
        let x = c0s[l][j];
        if l < top {
            assert(cs[l] == c0s[l].remove(pos[l] + 1));
            lemma_chain_distinct(n0, c0s[l], l, j, pos[l] + 1);
        } else {
            assert(cs[l] == c0s[l]);
            assert(c0s[l].contains(x));
        }
        assert(x != target);
    }
    assert(cs[0] == c0s[0].remove(base + 1));
    assert forall|j: int| #![trigger c0s[0][j]] 0 <= j < c0s[0].len() && j != base + 1 implies same_shape(
        n0[c0s[0][j] as int],
        n2[c0s[0][j] as int],
    ) by {}
    lemma_entries_remove(n0, n2, c0s[0], base);
    assert(keys_of(n0, c0s[0])[base] == key);
    lemma_count_at_key(keys_of(n0, c0s[0]), base);
    assert(entries_of(n0, c0s[0])[base].0 == key);
    lemma_map_of_remove(entries_of(n0, c0s[0]), base);
    // the levels that held the node are those up to its height
    let height = n0[target as int].level as int;
    assert(before.heights()[base] == height);
    assert(top == height + 1) by {
        assert(n0[c0s[0][base + 1] as int].forward@.len() == n0[c0s[0][base + 1] as int].level + 1);
        if top == 0 {
            assert(c0s[0].contains(c0s[0][base + 1]));
        } else {
            assert(cs[top - 1] == c0s[top - 1].remove(pos[top - 1] + 1));
            assert(chain_ok(n0, c0s[top - 1], top - 1));
            assert(c0s[top - 1][pos[top - 1] + 1] == target);
        }
        if top <= height {
            assert(before.chains@[top].contains(before.chains@[0][base + 1]));
            assert(cs[top] == c0s[top]);
        }
    }
    assert forall|l: int| 0 <= l <= height implies #[trigger] after.level_keys(l)
        == before.level_keys(l).remove(count_below(before.level_keys(l), key)) by {
        let keys = keys_of(n0, c0s[l]);
        assert(chain_ok(n0, c0s[l], l));
        lemma_chain_entries(n0, c0s[l], l);
        assert(cs[l] == c0s[l].remove(pos[l] + 1));
        assert forall|j: int| #![trigger c0s[l][j]] 0 <= j < c0s[l].len() && j != pos[l]
            + 1 implies same_shape(n0[c0s[l][j] as int], n2[c0s[l][j] as int]) by {}
        lemma_entries_remove(n0, n2, c0s[l], pos[l]);
        assert(keys[pos[l]] == key);
        lemma_count_at_key(keys, pos[l]);
    }
    assert forall|l: int| height < l <= max implies #[trigger] after.level_keys(l)
        == before.level_keys(l) by {
        assert(chain_ok(n0, c0s[l], l));
        assert(cs[l] == c0s[l]);
        assert forall|j: int| #![trigger c0s[l][j]] 0 <= j < c0s[l].len() implies same_shape(
            n0[c0s[l][j] as int],
            n2[c0s[l][j] as int],
        ) by {}
        lemma_same_keys(n0, n2, c0s[l]);
        lemma_keys_same(n0, n2, c0s[l]);
    }
    assert forall|l: int| after.current_level < l <= max implies (#[trigger] after.level_keys(l)).len()
        == 0 by {
        assert(cs[l].len() == 1);
    }
}

} // verus!

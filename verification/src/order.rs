//! The order of the keys.

use std::cmp::Ordering;
use vstd::prelude::*;
use vstd::std_specs::cmp::PartialOrdSpec;

verus! {

/// `a` stands strictly before `b` in the order that `K` compares by.
pub open spec fn key_lt<K: PartialOrd>(a: K, b: K) -> bool {
    a.partial_cmp_spec(&b) == Some(Ordering::Less)
}

/// The comparison of `K` is a strict total order on its values: what the
/// executable `<` computes is its specification, no key is below itself,
/// the order is transitive, and two different keys are ordered one way.
#[verifier::opaque]
pub open spec fn strict_total_order<K: PartialOrd>() -> bool {
    &&& K::obeys_partial_cmp_spec()
    &&& forall|a: K| !#[trigger] key_lt(a, a)
    &&& forall|a: K, b: K, c: K| #[trigger] key_lt(a, b) && #[trigger] key_lt(b, c) ==> key_lt(a, c)
    &&& forall|a: K, b: K| a != b && !#[trigger] key_lt(a, b) ==> key_lt(b, a)
}

pub proof fn lemma_lt_irreflexive<K: PartialOrd>(a: K)
    requires
        strict_total_order::<K>(),
    ensures
        !key_lt(a, a),
{
    reveal(strict_total_order);
}

pub proof fn lemma_lt_transitive<K: PartialOrd>(a: K, b: K, c: K)
    requires
        strict_total_order::<K>(),
        key_lt(a, b),
        key_lt(b, c),
    ensures
        key_lt(a, c),
{
    reveal(strict_total_order);
}

pub proof fn lemma_lt_connected<K: PartialOrd>(a: K, b: K)
    requires
        strict_total_order::<K>(),
        !key_lt(a, b),
        !key_lt(b, a),
    ensures
        a == b,
{
    reveal(strict_total_order);
}

/// Compares two keys with the executable `<` of `K`.
pub fn key_less<K: PartialOrd>(a: &K, b: &K) -> (r: bool)
    requires
        strict_total_order::<K>(),
    ensures
        r == key_lt(*a, *b),
{
    proof {
        reveal(strict_total_order);
    }
    *a < *b
}

} // verus!

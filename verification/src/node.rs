//! The nodes of a list.

use vstd::prelude::*;

verus! {

/// A link to the next node of a level: that node's slot in the arena, or
/// `None` where the level ends.
pub type Link = Option<usize>;

/// One entry of the list with its links, or the head, which holds no key.
pub struct Node<K, V> where K: PartialOrd {
    pub(crate) key: Option<K>,
    pub(crate) value: Option<V>,
    pub(crate) level: usize,
    pub forward: Vec<Link>,
}

/// `n` copies of `x`.
pub(crate) fn filled<T: Copy>(n: usize, x: T) -> (v: Vec<T>)
    ensures
        v@ == Seq::new(n as nat, |i: int| x),
{
    let mut v: Vec<T> = Vec::new();
    let mut i: usize = 0;
    while i < n
        invariant
            i <= n,
            v@ == Seq::new(i as nat, |i: int| x),
        decreases n - i,
    {
        v.push(x);
        i += 1;
        assert(v@ =~= Seq::new(i as nat, |i: int| x));
    }
    v
}

impl<K, V> Node<K, V> where K: PartialOrd {
    /// The key that the node holds; `None` for the head.
    pub open(crate) spec fn key_spec(&self) -> Option<K> {
        self.key
    }

    /// The value that the node holds; `None` for the head.
    pub open(crate) spec fn value_spec(&self) -> Option<V> {
        self.value
    }

    /// The highest level that the node takes part in.
    pub open(crate) spec fn level_spec(&self) -> usize {
        self.level
    }

    /// The links of the node, from level 0 up.
    pub open(crate) spec fn links(&self) -> Seq<Link> {
        self.forward@
    }

    /// An entry of the given height: it has `level + 1` links, none set.
    pub fn new(key: K, value: V, level: usize) -> (node: Self)
        requires
            level < usize::MAX,
        ensures
            node.key_spec() == Some(key),
            node.value_spec() == Some(value),
            node.level_spec() == level,
            node.links() == Seq::new((level + 1) as nat, |i: int| None::<usize>),
    {
        Self { key: Some(key), value: Some(value), level, forward: filled(level + 1, None) }
    }

    /// The key, unless the node is the head.
    pub fn get_key(&self) -> (key: Option<&K>)
        ensures
            key == (match self.key_spec() {
                Some(k) => Some(&k),
                None => None,
            }),
    {
        self.key.as_ref()
    }

    /// The value, unless the node is the head.
    pub fn get_value(&self) -> (value: Option<&V>)
        ensures
            value == (match self.value_spec() {
                Some(v) => Some(&v),
                None => None,
            }),
    {
        self.value.as_ref()
    }

    /// Replaces the value; key, height and links stay.
    pub fn set_value(&mut self, value: V)
        ensures
            final(self).value_spec() == Some(value),
            final(self).key_spec() == old(self).key_spec(),
            final(self).level_spec() == old(self).level_spec(),
            final(self).links() == old(self).links(),
    {
        self.value = Some(value);
    }

    /// Whether the node is the head: it is the one without a key.
    pub fn is_head(&self) -> (head: bool)
        ensures
            head == (self.key_spec() is None),
    {
        self.key.is_none()
    }

    /// The head of a list whose levels run from 0 to `max_level`.
    pub fn head(max_level: usize) -> (node: Self)
        requires
            max_level < usize::MAX,
        ensures
            node.key_spec() is None,
            node.value_spec() is None,
            node.level_spec() == max_level,
            node.links() == Seq::new((max_level + 1) as nat, |i: int| None::<usize>),
    {
        Self { key: None, value: None, level: max_level, forward: filled(max_level + 1, None) }
    }
}

} // verus!

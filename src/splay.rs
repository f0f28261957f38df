//! A search tree that moves every newly inserted key to its root.
use crate::order::TreeKey;
use crate::rand::rtree::{
    bounded, contents, heap_ordered, lemma_bounded_top, lemma_empty, ordered, top_key,
};
use vstd::prelude::*;

pub use crate::rand::rtree::Node;

verus! {

/// A search tree in which every entry has the same rank. Inserting a new key
/// rotates it up one level at a time until it is the root (move-to-root);
/// removing a key sinks it to a leaf, promoting the left child first, and
/// detaches it.
pub struct SplayTree<K, V> {
    root: Option<Box<Node<K, V>>>,
}

impl<K: TreeKey, V> View for SplayTree<K, V> {
    type V = Map<K, V>;

    closed spec fn view(&self) -> Map<K, V> {
        contents(self.root)
    }
}

impl<K: TreeKey, V> SplayTree<K, V> {
    /// Search order on keys, with every entry at the lowest rank.
    pub closed spec fn well_formed(&self) -> bool {
        ordered(self.root) && heap_ordered(self.root) && bounded(self.root, 0)
    }

    /// The key at the root, if there is one.
    pub closed spec fn root(&self) -> Option<K> {
        top_key(self.root)
    }

    /// An empty tree.
    pub fn new() -> (r: Self)
        ensures
            r.well_formed(),
            r@ == Map::<K, V>::empty(),
            r.root() == None::<K>,
    {
        proof {
            lemma_empty::<K, V>(0);
        }
        SplayTree { root: None }
    }

    /// Inserts `key` with `value`. A new key becomes the root; an equal key
    /// only has its value replaced.
    pub fn insert(&mut self, key: K, value: V)
        requires
            old(self).well_formed(),
        ensures
            final(self).well_formed(),
            final(self)@ == old(self)@.insert(key, value),
            !old(self)@.dom().contains(key) ==> final(self).root() == Some(key),
            old(self)@.dom().contains(key) ==> final(self).root() == old(self).root(),
    {
        proof {
            lemma_bounded_top(self.root, 0);
        }
        Node::insert_node(&mut self.root, key, value, 0);
    }

    /// Removes the entry with `key` and hands back its value; `None` when the
    /// key is absent.
    pub fn remove(&mut self, key: K) -> (r: Option<V>)
        requires
            old(self).well_formed(),
        ensures
            final(self).well_formed(),
            final(self)@ == old(self)@.remove(key),
            r == (if old(self)@.dom().contains(key) {
                Some(old(self)@[key])
            } else {
                None
            }),
            !old(self)@.dom().contains(key) ==> *final(self) == *old(self),
    {
        Node::remove_node(&mut self.root, &key)
    }

    /// The key at the root, if there is one.
    pub fn root_key(&self) -> (r: Option<&K>)
        ensures
            r is None <==> self.root() is None,
            r matches Some(k) ==> self.root() == Some(*k),
    {
        Node::top_key_of(&self.root)
    }

    /// Whether an entry with `needle` is held.
    pub fn contains(&self, needle: K) -> (r: bool)
        requires
            self.well_formed(),
        ensures
            r == self@.dom().contains(needle),
    {
        Node::contains_node(&self.root, &needle)
    }
}

} // verus!

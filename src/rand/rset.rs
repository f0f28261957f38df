//! An ordered set: the treap map with no value beside each key.
use crate::order::TreeKey;
use crate::rand::rtree::RTreeMap;
use vstd::prelude::*;

verus! {

/// A set of keys held in a treap.
pub struct RSet<K> {
    inner: RTreeMap<K, ()>,
}

impl<K: TreeKey> View for RSet<K> {
    type V = Set<K>;

    closed spec fn view(&self) -> Set<K> {
        self.inner@.dom()
    }
}

impl<K: TreeKey> RSet<K> {
    /// The underlying treap is well formed.
    pub closed spec fn well_formed(&self) -> bool {
        self.inner.well_formed()
    }

    /// An empty set.
    pub fn new() -> (r: Self)
        ensures
            r.well_formed(),
            r@ == Set::<K>::empty(),
    {
        let r = RSet { inner: RTreeMap::new() };
        proof {
            assert(r@ =~= Set::<K>::empty());
        }
        r
    }

    /// Adds `key`; a key already there stays as it is.
    pub fn insert(&mut self, key: K)
        requires
            old(self).well_formed(),
        ensures
            final(self).well_formed(),
            final(self)@ == old(self)@.insert(key),
    {
        self.inner.insert(key, ());
        proof {
            assert(self@ =~= old(self)@.insert(key));
        }
    }

    /// Takes `key` out; an absent key leaves the set as it is.
    pub fn remove(&mut self, key: K)
        requires
            old(self).well_formed(),
        ensures
            final(self).well_formed(),
            final(self)@ == old(self)@.remove(key),
            !old(self)@.contains(key) ==> *final(self) == *old(self),
    {
        let _ = self.inner.remove(key);
        proof {
            assert(self@ =~= old(self)@.remove(key));
        }
    }

    /// Whether `key` is in the set.
    pub fn contains(&self, key: K) -> (r: bool)
        requires
            self.well_formed(),
        ensures
            r == self@.contains(key),
    {
        self.inner.contains(key)
    }

    /// Whether the set has no key.
    pub fn is_empty(&self) -> (r: bool)
        ensures
            r == (self@ == Set::<K>::empty()),
    {
        let r = self.inner.is_empty();
        proof {
            if self@ == Set::<K>::empty() {
                assert(self.inner@ =~= Map::<K, ()>::empty());
            }
        }
        r
    }
}

} // verus!

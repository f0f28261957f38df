//! A treap: a binary search tree on keys that is at the same time a max-heap
//! on random priorities. Each node owns its children, so the link from a
//! child to its parent is the ownership edge itself.
use crate::order::TreeKey;
use std::cmp::Ordering;
use vstd::prelude::*;

verus! {

/// One entry of the tree with the two subtrees it owns.
pub struct Node<K, V> {
    key: K,
    value: V,
    priority: usize,
    left: Option<Box<Node<K, V>>>,
    right: Option<Box<Node<K, V>>>,
}

/// The entries held by a subtree, as a map from key to value.
pub closed spec fn contents<K, V>(t: Option<Box<Node<K, V>>>) -> Map<K, V>
    decreases t,
{
    match t {
        None => Map::empty(),
        Some(n) => contents(n.left).union_prefer_right(contents(n.right)).insert(n.key, n.value),
    }
}

/// Search order: every key on the left precedes the node's key, which
/// precedes every key on the right.
pub closed spec fn ordered<K: TreeKey, V>(t: Option<Box<Node<K, V>>>) -> bool
    decreases t,
{
    match t {
        None => true,
        Some(n) => {
            &&& forall|k: K| #[trigger] contents(n.left).dom().contains(k) ==> k.precedes(n.key)
            &&& forall|k: K| #[trigger] contents(n.right).dom().contains(k) ==> n.key.precedes(k)
            &&& ordered(n.left)
            &&& ordered(n.right)
        },
    }
}

/// The priority at the top of a subtree; an empty one ranks lowest.
pub closed spec fn top_priority<K, V>(t: Option<Box<Node<K, V>>>) -> usize {
    match t {
        None => 0,
        Some(n) => n.priority,
    }
}

/// The key at the top of a subtree.
pub closed spec fn top_key<K, V>(t: Option<Box<Node<K, V>>>) -> Option<K> {
    match t {
        None => None,
        Some(n) => Some(n.key),
    }
}

/// Heap order: no child outranks its parent.
pub closed spec fn heap_ordered<K, V>(t: Option<Box<Node<K, V>>>) -> bool
    decreases t,
{
    match t {
        None => true,
        Some(n) => {
            &&& top_priority(n.left) <= n.priority
            &&& top_priority(n.right) <= n.priority
            &&& heap_ordered(n.left)
            &&& heap_ordered(n.right)
        },
    }
}

/// Every priority in the subtree is at most `p`.
pub closed spec fn bounded<K, V>(t: Option<Box<Node<K, V>>>, p: usize) -> bool
    decreases t,
{
    match t {
        None => true,
        Some(n) => n.priority <= p && bounded(n.left, p) && bounded(n.right, p),
    }
}

/// Both subtrees under the top are bounded by `p`.
pub closed spec fn below_top_bounded<K, V>(t: Option<Box<Node<K, V>>>, p: usize) -> bool {
    match t {
        None => true,
        Some(n) => bounded(n.left, p) && bounded(n.right, p),
    }
}

/// The number of nodes of a subtree.
pub closed spec fn size<K, V>(t: Option<Box<Node<K, V>>>) -> nat
    decreases t,
{
    match t {
        None => 0,
        Some(n) => 1 + size(n.left) + size(n.right),
    }
}

/// What takes the place of an entry with subtrees `l` and `r` once the entry
/// is removed: of the two tops, the one with the higher priority stays on
/// top (the left one on a tie), and the rest merges in below it the same way.
pub closed spec fn merged<K, V>(l: Option<Box<Node<K, V>>>, r: Option<Box<Node<K, V>>>) -> Option<Box<Node<K, V>>>
    decreases l, r,
{
    match l {
        None => r,
        Some(a) => match r {
            None => l,
            Some(b) => if a.priority >= b.priority {
                Some(Box::new(Node { key: a.key, value: a.value, priority: a.priority, left: a.left, right: merged(a.right, r) }))
            } else {
                Some(Box::new(Node { key: b.key, value: b.value, priority: b.priority, left: merged(l, b.left), right: b.right }))
            },
        },
    }
}

/// A subtree with its top entry removed.
pub closed spec fn without_top<K, V>(t: Option<Box<Node<K, V>>>) -> Option<Box<Node<K, V>>> {
    match t {
        None => None,
        Some(n) => merged(n.left, n.right),
    }
}

proof fn lemma_heap_bounded<K, V>(t: Option<Box<Node<K, V>>>, p: usize)
    requires
        heap_ordered(t),
        top_priority(t) <= p,
    ensures
        bounded(t, p),
    decreases t,
{
    if let Some(n) = t {
        lemma_heap_bounded(n.left, p);
        lemma_heap_bounded(n.right, p);
    }
}

pub(crate) proof fn lemma_bounded_top<K, V>(t: Option<Box<Node<K, V>>>, p: usize)
    requires
        bounded(t, p),
    ensures
        top_priority(t) <= p,
{
}

/// In an ordered node the key occurs in neither subtree, and no key occurs in both.
proof fn lemma_separated<K: TreeKey, V>(t: Option<Box<Node<K, V>>>)
    requires
        t.is_some(),
        ordered(t),
    ensures
        !contents(t.unwrap().left).dom().contains(t.unwrap().key),
        !contents(t.unwrap().right).dom().contains(t.unwrap().key),
        forall|k: K|
            !(#[trigger] contents(t.unwrap().left).dom().contains(k) && contents(
                t.unwrap().right,
            ).dom().contains(k)),
{
    let n = t.unwrap();
    TreeKey::lemma_irreflexive(n.key);
    assert forall|k: K| !(#[trigger] contents(n.left).dom().contains(k) && contents(n.right).dom().contains(k)) by {
        if contents(n.left).dom().contains(k) && contents(n.right).dom().contains(k) {
            TreeKey::lemma_transitive(k, n.key, k);
            TreeKey::lemma_irreflexive(k);
        }
    }
}

impl<K: TreeKey, V> Node<K, V> {
    /// A leaf holding one entry.
    fn new(key: K, value: V, priority: usize) -> (r: Box<Self>)
        ensures
            r.key == key,
            r.value == value,
            r.priority == priority,
            r.left.is_none(),
            r.right.is_none(),
    {
        Box::new(Node { key, value, priority, left: None, right: None })
    }

    /// Promotes the left child: it takes this node's place, and this node
    /// becomes its right child, adopting the child's former right subtree.
    fn rotate_right(node: Box<Self>) -> (r: Box<Self>)
        requires
            node.left.is_some(),
            ordered(Some(node)),
        ensures
            ordered(Some(r)),
            contents(Some(r)) == contents(Some(node)),
            priorities(Some(r)) == priorities(Some(node)),
            r.key == node.left.unwrap().key,
            r.value == node.left.unwrap().value,
            r.priority == node.left.unwrap().priority,
            r.left == node.left.unwrap().left,
            r.right.is_some(),
            r.right.unwrap().key == node.key,
            r.right.unwrap().priority == node.priority,
            r.right.unwrap().value == node.value,
            r.right.unwrap().left == node.left.unwrap().right,
            r.right.unwrap().right == node.right,
    {
        let Node { key, value, priority, left, right } = *node;
        let child = left.unwrap();
        let Node { key: ck, value: cv, priority: cp, left: cl, right: cr } = *child;
        let demoted = Box::new(Node { key, value, priority, left: cr, right });
        let r = Box::new(Node { key: ck, value: cv, priority: cp, left: cl, right: Some(demoted) });
        proof {
            let c = node.left.unwrap();
            lemma_separated(Some(node));
            lemma_separated(Some(c));
            assert(contents(node.left).dom().contains(ck));
            assert(ck.precedes(key));
            assert(ordered(Some(c)));
            assert(cr == c.right && right == node.right && demoted.left == cr && demoted.right == right);
            assert(contents(Some(demoted)) == contents(cr).union_prefer_right(contents(right)).insert(key, value));
            assert forall|k: K| #[trigger] contents(Some(demoted)).dom().contains(k) implies ck.precedes(k) by {
                if contents(right).dom().contains(k) {
                    TreeKey::lemma_transitive(ck, key, k);
                } else if contents(cr).dom().contains(k) {
                } else {
                    assert(k == key);
                }
            }
            assert forall|k: K| #[trigger] contents(cr).dom().contains(k) implies k.precedes(key) by {
                assert(contents(node.left).dom().contains(k));
            }
            assert(ordered(Some(demoted)));
            assert(ordered(Some(r)));
            assert(contents(Some(r)) =~= contents(Some(node)));
            lemma_priorities_keys(cl);
            lemma_priorities_keys(cr);
            lemma_priorities_keys(node.left);
            lemma_priorities_keys(node.right);
            lemma_priorities_keys(c.left);
            lemma_priorities_keys(c.right);
            assert(priorities(Some(demoted)) == priorities(cr).union_prefer_right(priorities(right)).insert(key, priority));
            assert(priorities(node.left) == priorities(cl).union_prefer_right(priorities(cr)).insert(ck, cp));
            assert(priorities(Some(r)) =~= priorities(Some(node)));
        }
        r
    }

    /// Promotes the right child: it takes this node's place, and this node
    /// becomes its left child, adopting the child's former left subtree.
    fn rotate_left(node: Box<Self>) -> (r: Box<Self>)
        requires
            node.right.is_some(),
            ordered(Some(node)),
        ensures
            ordered(Some(r)),
            contents(Some(r)) == contents(Some(node)),
            priorities(Some(r)) == priorities(Some(node)),
            r.key == node.right.unwrap().key,
            r.value == node.right.unwrap().value,
            r.priority == node.right.unwrap().priority,
            r.right == node.right.unwrap().right,
            r.left.is_some(),
            r.left.unwrap().key == node.key,
            r.left.unwrap().priority == node.priority,
            r.left.unwrap().value == node.value,
            r.left.unwrap().right == node.right.unwrap().left,
            r.left.unwrap().left == node.left,
    {
        let Node { key, value, priority, left, right } = *node;
        let child = right.unwrap();
        let Node { key: ck, value: cv, priority: cp, left: cr, right: cl } = *child;
        let demoted = Box::new(Node { key, value, priority, left, right: cr });
        let r = Box::new(Node { key: ck, value: cv, priority: cp, left: Some(demoted), right: cl });
        proof {
            let c = node.right.unwrap();
            lemma_separated(Some(node));
            lemma_separated(Some(c));
            assert(contents(node.right).dom().contains(ck));
            assert(key.precedes(ck));
            assert(ordered(Some(c)));
            assert(cr == c.left && left == node.left && demoted.right == cr && demoted.left == left);
            assert(contents(Some(demoted)) == contents(left).union_prefer_right(contents(cr)).insert(key, value));
            assert forall|k: K| #[trigger] contents(Some(demoted)).dom().contains(k) implies k.precedes(ck) by {
                if contents(left).dom().contains(k) {
                    TreeKey::lemma_transitive(k, key, ck);
                } else if contents(cr).dom().contains(k) {
                } else {
                    assert(k == key);
                }
            }
            assert forall|k: K| #[trigger] contents(cr).dom().contains(k) implies key.precedes(k) by {
                assert(contents(node.right).dom().contains(k));
            }
            assert(ordered(Some(demoted)));
            assert(ordered(Some(r)));
            assert(contents(Some(r)) =~= contents(Some(node)));
            lemma_priorities_keys(cl);
            lemma_priorities_keys(cr);
            lemma_priorities_keys(node.left);
            lemma_priorities_keys(node.right);
            lemma_priorities_keys(c.left);
            lemma_priorities_keys(c.right);
            assert(priorities(Some(demoted)) == priorities(left).union_prefer_right(priorities(cr)).insert(key, priority));
            assert(priorities(node.right) == priorities(cr).union_prefer_right(priorities(cl)).insert(ck, cp));
            assert(priorities(Some(r)) =~= priorities(Some(node)));
        }
        r
    }

    /// Puts `key` with `value` into the subtree. An equal key has its value
    /// replaced in place; a new key starts as a leaf with `priority` and is
    /// rotated upward while it ranks at least as high as its parent.
    /// The result tells whether the new entry ended at the top of the subtree.
    pub(crate) fn insert_node(t: &mut Option<Box<Self>>, key: K, value: V, priority: usize) -> (on_top: bool)
        requires
            ordered(*old(t)),
            heap_ordered(*old(t)),
        ensures
            ordered(*final(t)),
            heap_ordered(*final(t)),
            contents(*final(t)) == contents(*old(t)).insert(key, value),
            on_top ==> !contents(*old(t)).dom().contains(key) && top_key(*final(t)) == Some(key)
                && top_priority(*final(t)) == priority,
            on_top ==> forall|p: usize| #[trigger] bounded(*old(t), p) ==> below_top_bounded(*final(t), p),
            !on_top ==> old(t).is_some() && top_key(*final(t)) == top_key(*old(t))
                && top_priority(*final(t)) == top_priority(*old(t)),
            !contents(*old(t)).dom().contains(key) && priority >= top_priority(*old(t)) ==> on_top,
            on_top ==> priority >= top_priority(*old(t)),
            forall|p: usize| #[trigger] bounded(*old(t), p) && priority <= p ==> bounded(*final(t), p),
            priorities(*final(t)) == (if contents(*old(t)).dom().contains(key) {
                priorities(*old(t))
            } else {
                priorities(*old(t)).insert(key, priority)
            }),
            contents(*old(t)).dom().contains(key) ==> in_order(*final(t)) == in_order(*old(t)),
            contents(*old(t)).dom().contains(key) ==> forall|k: K|
                #[trigger] child_keys(*final(t), k) == child_keys(*old(t), k),
        decreases *old(t),
    {
        let taken = t.take();
        match taken {
            None => {
                *t = Some(Self::new(key, value, priority));
                proof {
                    assert(contents(*t) =~= contents(*old(t)).insert(key, value));
                    assert forall|p: usize| bounded(*old(t), p) && priority <= p implies #[trigger] bounded(*t, p) by {}
                    assert(priorities(*t) =~= priorities(*old(t)).insert(key, priority));
                }
                true
            },
            Some(mut node) => {
                let ghost before = node;
                proof {
                    lemma_separated(Some(before));
                }
                match node.key.compare(&key) {
                    Ordering::Equal => {
                        node.value = value;
                        *t = Some(node);
                        proof {
                            assert(contents(*t) =~= contents(*old(t)).insert(key, value));
                            assert forall|p: usize| bounded(*old(t), p) && priority <= p implies #[trigger] bounded(*t, p) by {}
                            assert(priorities(*t) =~= priorities(*old(t)));
                            assert forall|k: K| #[trigger] child_keys(*t, k) == child_keys(*old(t), k) by {}
                        }
                        false
                    },
                    Ordering::Greater => {
                        let up = Self::insert_node(&mut node.left, key, value, priority);
                        proof {
                            Self::lemma_grown_left(before, *node, key, value, priority);
                            lemma_heap_bounded(before.left, before.priority);
                        }
                        if up && priority >= node.priority {
                            let ghost grown = *node;
                            let r = Self::rotate_right(node);
                            proof {
                                let l = grown.left.unwrap();
                                assert(bounded(before.left, before.priority));
                                assert(below_top_bounded(grown.left, before.priority));
                                lemma_bounded_top(l.right, before.priority);
                                assert(heap_ordered(r.right));
                                assert forall|p: usize| #[trigger] bounded(*old(t), p) implies below_top_bounded(Some(r), p) by {
                                    assert(bounded(before.left, p));
                                    assert(below_top_bounded(grown.left, p));
                                }
                                assert forall|p: usize| bounded(*old(t), p) && priority <= p implies #[trigger] bounded(Some(r), p) by {
                                    assert(below_top_bounded(Some(r), p));
                                }
                            }
                            *t = Some(r);
                            true
                        } else {
                            proof {
                                assert forall|p: usize| bounded(*old(t), p) && priority <= p implies #[trigger] bounded(Some(node), p) by {
                                    assert(bounded(before.left, p));
                                }
                                if contents(*old(t)).dom().contains(key) {
                                    assert(in_order(Some(node)) == in_order(Some(before)));
                                    assert(top_set(node.left) == top_set(before.left));
                                    assert forall|k: K| #[trigger] child_keys(Some(node), k) == child_keys(Some(before), k) by {
                                        assert(child_keys(node.left, k) == child_keys(before.left, k));
                                    }
                                }
                            }
                            *t = Some(node);
                            false
                        }
                    },
                    Ordering::Less => {
                        let up = Self::insert_node(&mut node.right, key, value, priority);
                        proof {
                            Self::lemma_grown_right(before, *node, key, value, priority);
                            lemma_heap_bounded(before.right, before.priority);
                        }
                        if up && priority >= node.priority {
                            let ghost grown = *node;
                            let r = Self::rotate_left(node);
                            proof {
                                let c = grown.right.unwrap();
                                assert(bounded(before.right, before.priority));
                                assert(below_top_bounded(grown.right, before.priority));
                                lemma_bounded_top(c.left, before.priority);
                                assert(heap_ordered(r.left));
                                assert forall|p: usize| #[trigger] bounded(*old(t), p) implies below_top_bounded(Some(r), p) by {
                                    assert(bounded(before.right, p));
                                    assert(below_top_bounded(grown.right, p));
                                }
                                assert forall|p: usize| bounded(*old(t), p) && priority <= p implies #[trigger] bounded(Some(r), p) by {
                                    assert(below_top_bounded(Some(r), p));
                                }
                            }
                            *t = Some(r);
                            true
                        } else {
                            proof {
                                assert forall|p: usize| bounded(*old(t), p) && priority <= p implies #[trigger] bounded(Some(node), p) by {
                                    assert(bounded(before.right, p));
                                }
                                if contents(*old(t)).dom().contains(key) {
                                    assert(in_order(Some(node)) == in_order(Some(before)));
                                    assert(top_set(node.right) == top_set(before.right));
                                    assert forall|k: K| #[trigger] child_keys(Some(node), k) == child_keys(Some(before), k) by {
                                        assert(child_keys(node.right, k) == child_keys(before.right, k));
                                    }
                                }
                            }
                            *t = Some(node);
                            false
                        }
                    },
                }
            },
        }
    }

    /// After a new entry went into the left subtree of an ordered node, the
    /// node is still ordered and holds the entry.
    proof fn lemma_grown_left(before: Box<Self>, after: Node<K, V>, key: K, value: V, priority: usize)
        requires
            ordered(Some(before)),
            key.precedes(before.key),
            ordered(after.left),
            contents(after.left) == contents(before.left).insert(key, value),
            priorities(after.left) == (if contents(before.left).dom().contains(key) {
                priorities(before.left)
            } else {
                priorities(before.left).insert(key, priority)
            }),
            after.key == before.key,
            after.value == before.value,
            after.priority == before.priority,
            after.right == before.right,
        ensures
            ordered(Some(Box::new(after))),
            contents(Some(Box::new(after))) == contents(Some(before)).insert(key, value),
            contents(Some(before)).dom().contains(key) == contents(before.left).dom().contains(key),
            priorities(Some(Box::new(after))) == (if contents(Some(before)).dom().contains(key) {
                priorities(Some(before))
            } else {
                priorities(Some(before)).insert(key, priority)
            }),
    {
        lemma_priorities_keys(before.left);
        lemma_priorities_keys(before.right);
        lemma_priorities_keys(after.left);
        lemma_separated(Some(before));
        TreeKey::lemma_irreflexive(key);
        if contents(before.right).dom().contains(key) {
            TreeKey::lemma_transitive(key, before.key, key);
            TreeKey::lemma_irreflexive(key);
        }
        assert(contents(Some(Box::new(after))) =~= contents(Some(before)).insert(key, value));
        if contents(Some(before)).dom().contains(key) {
            assert(priorities(Some(Box::new(after))) =~= priorities(Some(before)));
        } else {
            assert(priorities(Some(Box::new(after))) =~= priorities(Some(before)).insert(key, priority));
        }
    }

    /// After a new entry went into the right subtree of an ordered node, the
    /// node is still ordered and holds the entry.
    proof fn lemma_grown_right(before: Box<Self>, after: Node<K, V>, key: K, value: V, priority: usize)
        requires
            ordered(Some(before)),
            before.key.precedes(key),
            ordered(after.right),
            contents(after.right) == contents(before.right).insert(key, value),
            priorities(after.right) == (if contents(before.right).dom().contains(key) {
                priorities(before.right)
            } else {
                priorities(before.right).insert(key, priority)
            }),
            after.key == before.key,
            after.value == before.value,
            after.priority == before.priority,
            after.left == before.left,
        ensures
            ordered(Some(Box::new(after))),
            contents(Some(Box::new(after))) == contents(Some(before)).insert(key, value),
            contents(Some(before)).dom().contains(key) == contents(before.right).dom().contains(key),
            priorities(Some(Box::new(after))) == (if contents(Some(before)).dom().contains(key) {
                priorities(Some(before))
            } else {
                priorities(Some(before)).insert(key, priority)
            }),
    {
        lemma_priorities_keys(before.left);
        lemma_priorities_keys(before.right);
        lemma_priorities_keys(after.right);
        lemma_separated(Some(before));
        TreeKey::lemma_irreflexive(key);
        if contents(before.left).dom().contains(key) {
            TreeKey::lemma_transitive(key, before.key, key);
            TreeKey::lemma_irreflexive(key);
        }
        assert(contents(Some(Box::new(after))) =~= contents(Some(before)).insert(key, value));
        if contents(Some(before)).dom().contains(key) {
            assert(priorities(Some(Box::new(after))) =~= priorities(Some(before)));
        } else {
            assert(priorities(Some(Box::new(after))) =~= priorities(Some(before)).insert(key, priority));
        }
    }

    /// Takes the entry at the top of the subtree out: while it has two
    /// children, the child of higher priority (the left one on a tie) is
    /// rotated up and the entry sinks one level. Once it has one child or
    /// none, that child takes its place.
    fn remove_top(node: Box<Self>) -> (r: (Option<Box<Self>>, V))
        requires
            ordered(Some(node)),
            heap_ordered(Some(node)),
        ensures
            ordered(r.0),
            heap_ordered(r.0),
            contents(r.0) == contents(Some(node)).remove(node.key),
            r.1 == node.value,
            r.0 == merged(node.left, node.right),
            priorities(r.0) == priorities(Some(node)).remove(node.key),
            forall|p: usize| #[trigger] bounded(r.0, p) <== bounded(node.left, p) && bounded(node.right, p),
        decreases size(Some(node)),
    {
        proof {
            lemma_separated(Some(node));
        }
        if node.left.is_none() || node.right.is_none() {
            let Node { key, value, priority, left, right } = *node;
            proof {
                assert(contents(Some(node)).remove(key) =~= contents(left).union_prefer_right(contents(right)));
                lemma_priorities_keys(left);
                lemma_priorities_keys(right);
                assert(priorities(Some(node)).remove(key) =~= priorities(left).union_prefer_right(priorities(right)));
            }
            if left.is_none() {
                proof {
                    assert(contents(right) =~= contents(Some(node)).remove(key));
                    assert(priorities(right) =~= priorities(Some(node)).remove(key));
                }
                (right, value)
            } else {
                proof {
                    assert(contents(left) =~= contents(Some(node)).remove(key));
                    assert(priorities(left) =~= priorities(Some(node)).remove(key));
                }
                (left, value)
            }
        } else if node.left.as_ref().unwrap().priority >= node.right.as_ref().unwrap().priority {
            let ghost before = node;
            let mut top = Self::rotate_right(node);
            let ghost rotated = top;
            let sunk = top.right.take().unwrap();
            proof {
                let l = before.left.unwrap();
                assert(size(Some(sunk)) < size(Some(before))) by {
                    assert(size(before.left) == 1 + size(l.left) + size(l.right));
                }
                lemma_separated(Some(l));
                assert(heap_ordered(before.left));
                assert(heap_ordered(l.right) && top_priority(l.right) <= l.priority);
                lemma_heap_bounded(l.right, l.priority);
                assert(heap_ordered(Some(sunk)));
                lemma_heap_bounded(before.right, l.priority);
            }
            let (rest, value) = Self::remove_top(sunk);
            top.right = rest;
            proof {
                let l = before.left.unwrap();
                lemma_separated(Some(rotated));
                assert(bounded(rest, l.priority));
                assert forall|p: usize| bounded(before.left, p) && bounded(before.right, p) implies #[trigger] bounded(Some(top), p) by {
                    assert(bounded(rest, p));
                }
                assert(contents(Some(top)) =~= contents(Some(before)).remove(before.key));
                lemma_priorities_keys(rotated.left);
                lemma_priorities_keys(rotated.right);
                lemma_priorities_keys(rest);
                assert(priorities(Some(top)) =~= priorities(Some(before)).remove(before.key));
            }
            (Some(top), value)
        } else {
            let ghost before = node;
            let mut top = Self::rotate_left(node);
            let ghost rotated = top;
            let sunk = top.left.take().unwrap();
            proof {
                let c = before.right.unwrap();
                assert(size(Some(sunk)) < size(Some(before))) by {
                    assert(size(before.right) == 1 + size(c.left) + size(c.right));
                }
                lemma_separated(Some(c));
                assert(heap_ordered(before.right));
                assert(heap_ordered(c.left) && top_priority(c.left) <= c.priority);
                lemma_heap_bounded(c.left, c.priority);
                assert(heap_ordered(Some(sunk)));
                lemma_heap_bounded(before.left, c.priority);
            }
            let (rest, value) = Self::remove_top(sunk);
            top.left = rest;
            proof {
                let c = before.right.unwrap();
                lemma_separated(Some(rotated));
                assert(bounded(rest, c.priority));
                assert forall|p: usize| bounded(before.left, p) && bounded(before.right, p) implies #[trigger] bounded(Some(top), p) by {
                    assert(bounded(rest, p));
                }
                assert(contents(Some(top)) =~= contents(Some(before)).remove(before.key));
                lemma_priorities_keys(rotated.left);
                lemma_priorities_keys(rotated.right);
                lemma_priorities_keys(rest);
                assert(priorities(Some(top)) =~= priorities(Some(before)).remove(before.key));
            }
            (Some(top), value)
        }
    }

    /// Finds the entry with `key` and takes it out of the subtree.
    pub(crate) fn remove_node(t: &mut Option<Box<Self>>, key: &K) -> (r: Option<V>)
        requires
            ordered(*old(t)),
            heap_ordered(*old(t)),
        ensures
            ordered(*final(t)),
            heap_ordered(*final(t)),
            contents(*final(t)) == contents(*old(t)).remove(*key),
            r == (if contents(*old(t)).dom().contains(*key) {
                Some(contents(*old(t))[*key])
            } else {
                None
            }),
            forall|p: usize| #[trigger] bounded(*old(t), p) ==> bounded(*final(t), p),
            priorities(*final(t)) == priorities(*old(t)).remove(*key),
            !contents(*old(t)).dom().contains(*key) ==> *final(t) == *old(t),
            top_key(*old(t)) == Some(*key) ==> *final(t) == without_top(*old(t)),
        decreases *old(t),
    {
        let taken = t.take();
        match taken {
            None => {
                proof {
                    assert forall|p: usize| bounded(*old(t), p) implies #[trigger] bounded(*t, p) by {}
                    assert(priorities(*t) =~= priorities(*old(t)).remove(*key));
                }
                None
            },
            Some(mut node) => {
                let ghost before = node;
                proof {
                    lemma_separated(Some(before));
                    TreeKey::lemma_irreflexive(*key);
                }
                match node.key.compare(key) {
                    Ordering::Equal => {
                        let (rest, value) = Self::remove_top(node);
                        *t = rest;
                        proof {
                            assert forall|p: usize| bounded(*old(t), p) implies #[trigger] bounded(*t, p) by {
                                assert(bounded(before.left, p) && bounded(before.right, p));
                            }
                        }
                        Some(value)
                    },
                    Ordering::Greater => {
                        let r = Self::remove_node(&mut node.left, key);
                        proof {
                            if contents(before.right).dom().contains(*key) {
                                TreeKey::lemma_transitive(*key, before.key, *key);
                            }
                            lemma_heap_bounded(before.left, before.priority);
                            assert(ordered(Some(node)));
                            assert forall|p: usize| bounded(*old(t), p) implies #[trigger] bounded(Some(node), p) by {
                                assert(bounded(before.left, p));
                            }
                            lemma_priorities_keys(before.left);
                            lemma_priorities_keys(before.right);
                            lemma_priorities_keys(node.left);
                            assert(priorities(Some(node)) =~= priorities(Some(before)).remove(*key));
                            if !contents(Some(before)).dom().contains(*key) {
                                assert(*node == *before);
                            }
                            assert(contents(Some(node)) =~= contents(Some(before)).remove(*key));
                        }
                        *t = Some(node);
                        r
                    },
                    Ordering::Less => {
                        let r = Self::remove_node(&mut node.right, key);
                        proof {
                            if contents(before.left).dom().contains(*key) {
                                TreeKey::lemma_transitive(*key, before.key, *key);
                            }
                            lemma_heap_bounded(before.right, before.priority);
                            assert(ordered(Some(node)));
                            assert forall|p: usize| bounded(*old(t), p) implies #[trigger] bounded(Some(node), p) by {
                                assert(bounded(before.right, p));
                            }
                            lemma_priorities_keys(before.left);
                            lemma_priorities_keys(before.right);
                            lemma_priorities_keys(node.right);
                            assert(priorities(Some(node)) =~= priorities(Some(before)).remove(*key));
                            if !contents(Some(before)).dom().contains(*key) {
                                assert(*node == *before);
                            }
                            assert(contents(Some(node)) =~= contents(Some(before)).remove(*key));
                        }
                        *t = Some(node);
                        r
                    },
                }
            },
        }
    }

    /// Appends the keys of the subtree to `out` in in-order.
    fn collect_keys(t: &Option<Box<Self>>, out: &mut Vec<K>)
        where
            K: Copy,
        ensures
            final(out)@ == old(out)@ + in_order(*t),
        decreases t,
    {
        match t {
            None => {
                assert(out@ =~= old(out)@ + in_order(*t));
            },
            Some(node) => {
                Self::collect_keys(&node.left, out);
                out.push(node.key);
                Self::collect_keys(&node.right, out);
                assert(out@ =~= old(out)@ + in_order(*t));
            },
        }
    }

    /// The key at the top of the subtree, if there is one.
    pub(crate) fn top_key_of(t: &Option<Box<Self>>) -> (r: Option<&K>)
        ensures
            r is None <==> top_key(*t) is None,
            r matches Some(k) ==> top_key(*t) == Some(*k),
    {
        match t {
            None => None,
            Some(node) => Some(&node.key),
        }
    }

    /// Whether the subtree holds an entry with `key`.
    pub(crate) fn contains_node(t: &Option<Box<Self>>, key: &K) -> (r: bool)
        requires
            ordered(*t),
        ensures
            r == contents(*t).dom().contains(*key),
        decreases t,
    {
        match t {
            None => false,
            Some(node) => {
                proof {
                    lemma_separated(*t);
                    TreeKey::lemma_irreflexive(*key);
                }
                match node.key.compare(key) {
                    Ordering::Equal => true,
                    Ordering::Greater => {
                        proof {
                            if contents(node.right).dom().contains(*key) {
                                TreeKey::lemma_transitive(*key, node.key, *key);
                            }
                        }
                        Self::contains_node(&node.left, key)
                    },
                    Ordering::Less => {
                        proof {
                            if contents(node.left).dom().contains(*key) {
                                TreeKey::lemma_transitive(*key, node.key, *key);
                            }
                        }
                        Self::contains_node(&node.right, key)
                    },
                }
            },
        }
    }
}

/// The keys of a subtree in the order an in-order walk visits them.
pub closed spec fn in_order<K, V>(t: Option<Box<Node<K, V>>>) -> Seq<K>
    decreases t,
{
    match t {
        None => Seq::empty(),
        Some(n) => in_order(n.left) + seq![n.key] + in_order(n.right),
    }
}

/// Every key an in-order walk visits is held by the subtree.
/// The key at the top of the left subtree of the entry with key `k`.
pub closed spec fn left_key<K, V>(t: Option<Box<Node<K, V>>>, k: K) -> Option<K>
    decreases t,
{
    match t {
        None => None,
        Some(n) => if n.key == k {
            top_key(n.left)
        } else if contents(n.left).dom().contains(k) {
            left_key(n.left, k)
        } else {
            left_key(n.right, k)
        },
    }
}

/// The key at the top of the right subtree of the entry with key `k`.
pub closed spec fn right_key<K, V>(t: Option<Box<Node<K, V>>>, k: K) -> Option<K>
    decreases t,
{
    match t {
        None => None,
        Some(n) => if n.key == k {
            top_key(n.right)
        } else if contents(n.left).dom().contains(k) {
            right_key(n.left, k)
        } else {
            right_key(n.right, k)
        },
    }
}

/// At the top entry, the children and their priorities read off the subtree.
proof fn lemma_top_children<K: TreeKey, V>(t: Option<Box<Node<K, V>>>)
    requires
        ordered(t),
        t.is_some(),
    ensures
        left_key(t, t.unwrap().key) == top_key(t.unwrap().left),
        right_key(t, t.unwrap().key) == top_key(t.unwrap().right),
        t.unwrap().left matches Some(a) ==> priorities(t)[a.key] == a.priority,
        t.unwrap().right matches Some(b) ==> priorities(t)[b.key] == b.priority,
{
    let n = t.unwrap();
    lemma_separated(t);
    lemma_top_held(n.left);
    lemma_top_held(n.right);
    lemma_priorities_keys(n.left);
    lemma_priorities_keys(n.right);
}

/// Every key the subtree holds is visited by the in-order walk.
proof fn lemma_in_order_complete<K, V>(t: Option<Box<Node<K, V>>>)
    ensures
        forall|k: K| #[trigger] contents(t).dom().contains(k) ==> in_order(t).contains(k),
    decreases t,
{
    if let Some(n) = t {
        lemma_in_order_complete(n.left);
        lemma_in_order_complete(n.right);
        let a = in_order(n.left);
        let b = in_order(n.right);
        let w = in_order(t);
        assert forall|k: K| #[trigger] contents(t).dom().contains(k) implies w.contains(k) by {
            if k == n.key {
                assert(w[a.len() as int] == k);
            } else if contents(n.right).dom().contains(k) {
                let j = choose|j: int| 0 <= j < b.len() && b[j] == k;
                assert(w[a.len() + 1 + j] == k);
            } else {
                assert(contents(n.left).dom().contains(k));
                assert(a.contains(k));
                let j = choose|j: int| 0 <= j < a.len() && a[j] == k;
                assert(w[j] == k);
            }
        }
    }
}

proof fn lemma_in_order_held<K, V>(t: Option<Box<Node<K, V>>>)
    ensures
        forall|i: int| 0 <= i < in_order(t).len() ==> contents(t).dom().contains(#[trigger] in_order(t)[i]),
    decreases t,
{
    if let Some(n) = t {
        lemma_in_order_held(n.left);
        lemma_in_order_held(n.right);
        let a = in_order(n.left);
        let b = in_order(n.right);
        assert forall|i: int| 0 <= i < in_order(t).len() implies contents(t).dom().contains(#[trigger] in_order(t)[i]) by {
            if i < a.len() {
                assert(in_order(t)[i] == a[i]);
            } else if i == a.len() {
            } else {
                assert(in_order(t)[i] == b[i - a.len() - 1]);
            }
        }
    }
}

/// In an ordered subtree the in-order walk visits keys in strictly
/// ascending order.
proof fn lemma_in_order_ascending<K: TreeKey, V>(t: Option<Box<Node<K, V>>>)
    requires
        ordered(t),
    ensures
        forall|i: int, j: int|
            0 <= i < j < in_order(t).len() ==> (#[trigger] in_order(t)[i]).precedes(#[trigger] in_order(t)[j]),
    decreases t,
{
    if let Some(n) = t {
        lemma_in_order_ascending(n.left);
        lemma_in_order_ascending(n.right);
        lemma_in_order_held(n.left);
        lemma_in_order_held(n.right);
        let a = in_order(n.left);
        let b = in_order(n.right);
        let w = in_order(t);
        assert forall|i: int, j: int| 0 <= i < j < w.len() implies (#[trigger] w[i]).precedes(#[trigger] w[j]) by {
            if j < a.len() {
                assert(w[i] == a[i] && w[j] == a[j]);
            } else if i > a.len() {
                assert(w[i] == b[i - a.len() - 1] && w[j] == b[j - a.len() - 1]);
            } else if i == a.len() {
                assert(w[j] == b[j - a.len() - 1]);
                assert(contents(n.right).dom().contains(b[j - a.len() - 1]));
            } else if j == a.len() {
                assert(w[i] == a[i]);
                assert(contents(n.left).dom().contains(a[i]));
            } else {
                assert(w[i] == a[i] && w[j] == b[j - a.len() - 1]);
                assert(contents(n.left).dom().contains(a[i]));
                assert(contents(n.right).dom().contains(b[j - a.len() - 1]));
                TreeKey::lemma_transitive(a[i], n.key, b[j - a.len() - 1]);
            }
        }
    }
}

/// The priority of each entry of a subtree, by key.
pub closed spec fn priorities<K, V>(t: Option<Box<Node<K, V>>>) -> Map<K, usize>
    decreases t,
{
    match t {
        None => Map::empty(),
        Some(n) => priorities(n.left).union_prefer_right(priorities(n.right)).insert(n.key, n.priority),
    }
}

/// The keys held below the entry with key `k` in a subtree.
pub closed spec fn descendants<K, V>(t: Option<Box<Node<K, V>>>, k: K) -> Set<K>
    decreases t,
{
    match t {
        None => Set::empty(),
        Some(n) => if n.key == k {
            contents(n.left).dom() + contents(n.right).dom()
        } else {
            descendants(n.left, k) + descendants(n.right, k)
        },
    }
}

proof fn lemma_priorities_keys<K, V>(t: Option<Box<Node<K, V>>>)
    ensures
        priorities(t).dom() == contents(t).dom(),
    decreases t,
{
    if let Some(n) = t {
        lemma_priorities_keys(n.left);
        lemma_priorities_keys(n.right);
        assert(priorities(t).dom() =~= contents(t).dom());
    }
}

proof fn lemma_descendants_held<K, V>(t: Option<Box<Node<K, V>>>, k: K)
    ensures
        descendants(t, k).subset_of(contents(t).dom()),
    decreases t,
{
    if let Some(n) = t {
        lemma_descendants_held(n.left, k);
        lemma_descendants_held(n.right, k);
    }
}

/// In a heap-ordered subtree no entry outranks the top, and no entry
/// outranks any entry above it.
proof fn lemma_heap_everywhere<K: TreeKey, V>(t: Option<Box<Node<K, V>>>)
    requires
        ordered(t),
        heap_ordered(t),
    ensures
        forall|c: K| #[trigger] priorities(t).dom().contains(c) ==> priorities(t)[c] <= top_priority(t),
        forall|k: K, c: K|
            #[trigger] descendants(t, k).contains(c) ==> #[trigger] priorities(t)[c] <= priorities(t)[k],
    decreases t,
{
    if let Some(n) = t {
        lemma_heap_everywhere(n.left);
        lemma_heap_everywhere(n.right);
        lemma_priorities_keys(n.left);
        lemma_priorities_keys(n.right);
        lemma_separated(t);
        let pl = priorities(n.left);
        let pr = priorities(n.right);
        let pt = priorities(t);
        assert forall|c: K| #[trigger] pt.dom().contains(c) implies pt[c] <= top_priority(t) by {
            if c != n.key && pr.dom().contains(c) {
                assert(pt[c] == pr[c]);
            } else if c != n.key {
                assert(pt[c] == pl[c]);
            }
        }
        assert forall|k: K, c: K| #[trigger] descendants(t, k).contains(c) implies #[trigger] pt[c] <= pt[k] by {
            if k == n.key {
                if pr.dom().contains(c) {
                    assert(pt[c] == pr[c]);
                } else {
                    assert(pt[c] == pl[c]);
                }
            } else if descendants(n.left, k).contains(c) {
                lemma_descendants_held(n.left, k);
                lemma_descendants_keyed(n.left, k, c);
                assert(c != n.key);
                assert(!pr.dom().contains(c));
                assert(!pr.dom().contains(k));
                assert(pt[c] == pl[c] && pt[k] == pl[k]);
            } else {
                lemma_descendants_held(n.right, k);
                lemma_descendants_keyed(n.right, k, c);
                assert(c != n.key);
                assert(pt[c] == pr[c] && pt[k] == pr[k]);
            }
        }
    }
}

/// An entry with descendants is itself held by the subtree.
proof fn lemma_descendants_keyed<K, V>(t: Option<Box<Node<K, V>>>, k: K, c: K)
    requires
        descendants(t, k).contains(c),
    ensures
        contents(t).dom().contains(k),
    decreases t,
{
    if let Some(n) = t {
        if n.key != k {
            if descendants(n.left, k).contains(c) {
                lemma_descendants_keyed(n.left, k, c);
            } else {
                lemma_descendants_keyed(n.right, k, c);
            }
        }
    }
}

/// The key at the top of a subtree, as a set of at most one key.
pub closed spec fn top_set<K, V>(t: Option<Box<Node<K, V>>>) -> Set<K> {
    match t {
        None => Set::empty(),
        Some(n) => set![n.key],
    }
}

/// The keys at the top of the two subtrees that the entry with key `k` owns.
pub closed spec fn child_keys<K, V>(t: Option<Box<Node<K, V>>>, k: K) -> Set<K>
    decreases t,
{
    match t {
        None => Set::empty(),
        Some(n) => if n.key == k {
            top_set(n.left) + top_set(n.right)
        } else {
            child_keys(n.left, k) + child_keys(n.right, k)
        },
    }
}

/// The key of the entry that owns the entry with key `k`, found by
/// descending the subtree.
pub closed spec fn parent_key<K, V>(t: Option<Box<Node<K, V>>>, k: K) -> Option<K>
    decreases t,
{
    match t {
        None => None,
        Some(n) => if top_key(n.left) == Some(k) || top_key(n.right) == Some(k) {
            Some(n.key)
        } else if contents(n.left).dom().contains(k) {
            parent_key(n.left, k)
        } else {
            parent_key(n.right, k)
        },
    }
}

proof fn lemma_children_below<K, V>(t: Option<Box<Node<K, V>>>, k: K)
    ensures
        child_keys(t, k).subset_of(descendants(t, k)),
    decreases t,
{
    if let Some(n) = t {
        lemma_top_held(n.left);
        lemma_top_held(n.right);
        lemma_children_below(n.left, k);
        lemma_children_below(n.right, k);
    }
}

proof fn lemma_top_not_below<K: TreeKey, V>(t: Option<Box<Node<K, V>>>, k: K)
    requires
        ordered(t),
        t.is_some(),
    ensures
        !descendants(t, k).contains(t.unwrap().key),
{
    let n = t.unwrap();
    lemma_separated(t);
    lemma_descendants_held(n.left, k);
    lemma_descendants_held(n.right, k);
}

proof fn lemma_parent_absent<K, V>(t: Option<Box<Node<K, V>>>, k: K)
    requires
        !contents(t).dom().contains(k),
    ensures
        parent_key(t, k) == None::<K>,
    decreases t,
{
    if let Some(n) = t {
        lemma_top_held(n.left);
        lemma_top_held(n.right);
        lemma_parent_absent(n.right, k);
    }
}

/// Each entry's owner is the entry it hangs from, and the top entry has none.
proof fn lemma_parent_links<K: TreeKey, V>(t: Option<Box<Node<K, V>>>)
    requires
        ordered(t),
    ensures
        forall|k: K, c: K| #[trigger] child_keys(t, k).contains(c) ==> parent_key(t, c) == Some(k),
        t.is_some() ==> parent_key(t, t.unwrap().key) == None::<K>,
    decreases t,
{
    if let Some(n) = t {
        lemma_parent_links(n.left);
        lemma_parent_links(n.right);
        lemma_separated(t);
        lemma_top_held(n.left);
        lemma_top_held(n.right);
        lemma_parent_absent(n.right, n.key);
        assert forall|k: K, c: K| #[trigger] child_keys(t, k).contains(c) implies parent_key(t, c) == Some(k) by {
            if k != n.key {
                if child_keys(n.left, k).contains(c) {
                    lemma_children_below(n.left, k);
                    lemma_descendants_held(n.left, k);
                    lemma_top_not_below(n.left, k);
                } else {
                    lemma_children_below(n.right, k);
                    lemma_descendants_held(n.right, k);
                    lemma_top_not_below(n.right, k);
                }
            }
        }
    }
}

/// An empty subtree holds nothing and meets every ordering and bound.
pub(crate) proof fn lemma_empty<K: TreeKey, V>(p: usize)
    ensures
        contents(None::<Box<Node<K, V>>>) == Map::<K, V>::empty(),
        ordered(None::<Box<Node<K, V>>>),
        heap_ordered(None::<Box<Node<K, V>>>),
        bounded(None::<Box<Node<K, V>>>, p),
        top_key(None::<Box<Node<K, V>>>) == None::<K>,
{
}

/// In an entry-holding subtree the top key is one of its keys.
proof fn lemma_top_held<K, V>(t: Option<Box<Node<K, V>>>)
    ensures
        t.is_some() ==> contents(t).dom().contains(t.unwrap().key),
        t.is_none() ==> contents(t) == Map::<K, V>::empty(),
{
}

/// Relies on rand::random: a usize drawn from the thread-local generator.
/// Nothing is promised of its value.
#[verifier::external_body]
fn random_priority() -> usize {
    ::rand::random::<usize>()
}

/// The map form of the treap. Every entry is placed by its key in search
/// order and by its priority in heap order; the priority is drawn at random
/// when the entry first goes in.
pub struct RTreeMap<K, V> {
    root: Option<Box<Node<K, V>>>,
}

impl<K: TreeKey, V> View for RTreeMap<K, V> {
    type V = Map<K, V>;

    closed spec fn view(&self) -> Map<K, V> {
        contents(self.root)
    }
}

impl<K: TreeKey, V> RTreeMap<K, V> {
    /// Search order on keys and heap order on priorities.
    pub closed spec fn well_formed(&self) -> bool {
        ordered(self.root) && heap_ordered(self.root)
    }

    /// The key at the root, if there is one.
    pub closed spec fn root(&self) -> Option<K> {
        top_key(self.root)
    }

    /// The priority at the root; an empty tree ranks lowest.
    pub closed spec fn root_priority(&self) -> usize {
        top_priority(self.root)
    }

    /// The keys in the order an in-order walk of the tree visits them.
    pub closed spec fn keys_in_order(&self) -> Seq<K> {
        in_order(self.root)
    }

    /// The priority of each entry, by key.
    pub closed spec fn priority_of(&self) -> Map<K, usize> {
        priorities(self.root)
    }

    /// The keys held below the entry with key `k`.
    pub closed spec fn below(&self, k: K) -> Set<K> {
        descendants(self.root, k)
    }

    /// The keys of the entries that the entry with key `k` owns directly.
    pub closed spec fn children(&self, k: K) -> Set<K> {
        child_keys(self.root, k)
    }

    /// The key of the entry that owns the entry with key `k`.
    pub closed spec fn parent(&self, k: K) -> Option<K> {
        parent_key(self.root, k)
    }

    /// The key at the top of the left subtree of the entry with key `k`.
    pub closed spec fn left_child(&self, k: K) -> Option<K> {
        left_key(self.root, k)
    }

    /// The key at the top of the right subtree of the entry with key `k`.
    pub closed spec fn right_child(&self, k: K) -> Option<K> {
        right_key(self.root, k)
    }

    /// The key that takes the place of the entry with key `k` when it is
    /// removed: its only child, or of two children the one with the higher
    /// priority, the left one on a tie.
    pub open spec fn successor_of(&self, k: K) -> Option<K> {
        if self.left_child(k) is None {
            self.right_child(k)
        } else if self.right_child(k) is None {
            self.left_child(k)
        } else if self.priority_of()[self.left_child(k).unwrap()] >= self.priority_of()[self.right_child(
            k,
        ).unwrap()] {
            self.left_child(k)
        } else {
            self.right_child(k)
        }
    }

    /// An empty tree.
    pub fn new() -> (r: Self)
        ensures
            r.well_formed(),
            r@ == Map::<K, V>::empty(),
            r.root() == None::<K>,
            r.root_priority() == 0,
            r.priority_of() == Map::<K, usize>::empty(),
    {
        RTreeMap { root: None }
    }

    /// Inserts `key` with `value` under a random priority, or replaces the
    /// value of an equal key without changing the tree's shape.
    pub fn insert(&mut self, key: K, value: V)
        requires
            old(self).well_formed(),
        ensures
            final(self).well_formed(),
            final(self)@ == old(self)@.insert(key, value),
            old(self)@.dom().contains(key) ==> final(self).root() == old(self).root(),
            final(self).priority_of().dom() == final(self)@.dom(),
            forall|k: K| #[trigger] old(self)@.dom().contains(k) ==> final(self).priority_of()[k] == old(self).priority_of()[k],
            old(self)@.dom().contains(key) ==> final(self).priority_of() == old(self).priority_of()
                && final(self).keys_in_order() == old(self).keys_in_order()
                && forall|k: K| #[trigger] final(self).children(k) == old(self).children(k),
    {
        proof {
            lemma_priorities_keys(self.root);
        }
        let priority = random_priority();
        self.insert_with_priority(key, value, priority);
        proof {
            lemma_priorities_keys(self.root);
        }
    }

    /// Inserts `key` with `value` under the largest priority, which brings a
    /// new key to the root.
    pub fn insert_high_priority(&mut self, key: K, value: V)
        requires
            old(self).well_formed(),
        ensures
            final(self).well_formed(),
            final(self)@ == old(self)@.insert(key, value),
            old(self)@.dom().contains(key) ==> final(self).root() == old(self).root(),
            !old(self)@.dom().contains(key) ==> final(self).root() == Some(key),
            final(self).priority_of() == (if old(self)@.dom().contains(key) {
                old(self).priority_of()
            } else {
                old(self).priority_of().insert(key, usize::MAX)
            }),
            old(self)@.dom().contains(key) ==> final(self).keys_in_order() == old(self).keys_in_order()
                && forall|k: K| #[trigger] final(self).children(k) == old(self).children(k),
    {
        self.insert_with_priority(key, value, usize::MAX);
    }

    /// Inserts `key` with `value` under the given priority. A new key ends at
    /// the root exactly when its priority is at least the root's; ties go to
    /// the newer entry. An equal key only has its value replaced.
    pub fn insert_with_priority(&mut self, key: K, value: V, priority: usize)
        requires
            old(self).well_formed(),
        ensures
            final(self).well_formed(),
            final(self)@ == old(self)@.insert(key, value),
            old(self)@.dom().contains(key) ==> final(self).root() == old(self).root()
                && final(self).root_priority() == old(self).root_priority(),
            !old(self)@.dom().contains(key) && priority >= old(self).root_priority() ==> final(self).root() == Some(key) && final(self).root_priority() == priority,
            !old(self)@.dom().contains(key) && priority < old(self).root_priority() ==> final(self).root() == old(self).root() && final(self).root_priority() == old(self).root_priority(),
            final(self).priority_of() == (if old(self)@.dom().contains(key) {
                old(self).priority_of()
            } else {
                old(self).priority_of().insert(key, priority)
            }),
            old(self)@.dom().contains(key) ==> final(self).keys_in_order() == old(self).keys_in_order()
                && forall|k: K| #[trigger] final(self).children(k) == old(self).children(k),
    {
        Node::insert_node(&mut self.root, key, value, priority);
    }

    /// Removes the entry with `key` and hands back its value; `None` when the
    /// key is absent.
    pub fn remove(&mut self, key: K) -> (r: Option<V>)
        requires
            old(self).well_formed(),
        ensures
            final(self).well_formed(),
            final(self)@ == old(self)@.remove(key),
            r == (if old(self)@.dom().contains(key) {
                Some(old(self)@[key])
            } else {
                None
            }),
            final(self).priority_of() == old(self).priority_of().remove(key),
            !old(self)@.dom().contains(key) ==> *final(self) == *old(self),
            old(self).root() == Some(key) ==> final(self).root() == old(self).successor_of(key),
    {
        proof {
            if self.root.is_some() {
                lemma_top_children(self.root);
            }
        }
        Node::remove_node(&mut self.root, &key)
    }

    /// Whether an entry with `needle` is held.
    pub fn contains(&self, needle: K) -> (r: bool)
        requires
            self.well_formed(),
        ensures
            r == self@.dom().contains(needle),
    {
        Node::contains_node(&self.root, &needle)
    }

    /// Whether the tree holds no entry.
    pub fn is_empty(&self) -> (r: bool)
        ensures
            r == (self@ == Map::<K, V>::empty()),
    {
        proof {
            lemma_top_held(self.root);
        }
        self.root.is_none()
    }

    /// The keys in ascending order, as an in-order walk visits them.
    pub fn keys(&self) -> (r: Vec<K>)
        where
            K: Copy,
        ensures
            r@ == self.keys_in_order(),
    {
        let mut out: Vec<K> = Vec::new();
        Node::collect_keys(&self.root, &mut out);
        assert(out@ =~= self.keys_in_order());
        out
    }

    /// The key at the root, if there is one.
    pub fn root_key(&self) -> (r: Option<&K>)
        ensures
            r is None <==> self.root() is None,
            r matches Some(k) ==> self.root() == Some(*k),
    {
        Node::top_key_of(&self.root)
    }
}

/// In a well-formed tree, which every insert and remove keeps well formed,
/// an in-order walk visits the keys in strictly ascending order, so no key
/// appears twice, and it visits exactly the keys the tree holds.
pub proof fn lemma_keys_ascending<K: TreeKey, V>(map: &RTreeMap<K, V>)
    requires
        map.well_formed(),
    ensures
        forall|i: int, j: int|
            0 <= i < j < map.keys_in_order().len() ==> (#[trigger] map.keys_in_order()[i]).precedes(
                #[trigger] map.keys_in_order()[j],
            ),
        forall|i: int| 0 <= i < map.keys_in_order().len() ==> map@.dom().contains(#[trigger] map.keys_in_order()[i]),
        map.keys_in_order().to_set() == map@.dom(),
{
    lemma_in_order_ascending(map.root);
    lemma_in_order_held(map.root);
    lemma_in_order_complete(map.root);
    assert forall|k: K| map.keys_in_order().to_set().contains(k) <==> map@.dom().contains(k) by {
        if map.keys_in_order().contains(k) {
            let i = choose|i: int| 0 <= i < map.keys_in_order().len() && map.keys_in_order()[i] == k;
        }
    }
    assert(map.keys_in_order().to_set() =~= map@.dom());
}

/// In a well-formed tree, which every insert and remove keeps well formed,
/// every entry has a priority, the root's is the highest, and no entry
/// outranks an entry above it.
pub proof fn lemma_heap_order<K: TreeKey, V>(map: &RTreeMap<K, V>)
    requires
        map.well_formed(),
    ensures
        map.priority_of().dom() == map@.dom(),
        forall|c: K| #[trigger] map@.dom().contains(c) ==> map.priority_of()[c] <= map.root_priority(),
        forall|k: K, c: K|
            #[trigger] map.below(k).contains(c) ==> #[trigger] map.priority_of()[c] <= map.priority_of()[k],
{
    lemma_priorities_keys(map.root);
    lemma_heap_everywhere(map.root);
}

/// In a well-formed tree, which every insert and remove keeps well formed,
/// an entry's parent is the entry that owns it, and the root has no parent.
pub proof fn lemma_parent_consistent<K: TreeKey, V>(map: &RTreeMap<K, V>)
    requires
        map.well_formed(),
    ensures
        forall|k: K, c: K| #[trigger] map.children(k).contains(c) ==> map.parent(c) == Some(k),
        map.root() matches Some(r) ==> map.parent(r) == None::<K>,
{
    lemma_parent_links(map.root);
}

} // verus!

//! Laws on the map view that the treap's insert and remove act on: a round
//! trip of inserts and removes, overwriting a key, and removing an absent one.
use vstd::prelude::*;

verus! {

/// The map reached from `m` by inserting `keys[i]` with `values[i]`, for
/// each `i` in turn.
pub open spec fn inserted_all<K, V>(m: Map<K, V>, keys: Seq<K>, values: Seq<V>) -> Map<K, V>
    decreases keys.len(),
{
    if keys.len() == 0 {
        m
    } else {
        inserted_all(m, keys.drop_last(), values.drop_last()).insert(keys.last(), values.last())
    }
}

/// The map reached from `m` by removing each of `keys` in turn.
pub open spec fn removed_all<K, V>(m: Map<K, V>, keys: Seq<K>) -> Map<K, V>
    decreases keys.len(),
{
    if keys.len() == 0 {
        m
    } else {
        removed_all(m, keys.drop_last()).remove(keys.last())
    }
}

proof fn lemma_inserted_all<K, V>(keys: Seq<K>, values: Seq<V>)
    requires
        keys.no_duplicates(),
        values.len() == keys.len(),
    ensures
        inserted_all(Map::<K, V>::empty(), keys, values).dom() == keys.to_set(),
        forall|i: int|
            0 <= i < keys.len() ==> inserted_all(Map::<K, V>::empty(), keys, values)[#[trigger] keys[i]]
                == values[i],
    decreases keys.len(),
{
    let full = inserted_all(Map::<K, V>::empty(), keys, values);
    if keys.len() == 0 {
        assert(full.dom() =~= keys.to_set());
    } else {
        let ks = keys.drop_last();
        let vs = values.drop_last();
        let n = keys.len() - 1;
        assert(ks.no_duplicates()) by {
            assert forall|i: int, j: int| 0 <= i < ks.len() && 0 <= j < ks.len() && i != j implies ks[i] != ks[j] by {
                assert(ks[i] == keys[i] && ks[j] == keys[j]);
            }
        }
        lemma_inserted_all(ks, vs);
        assert forall|x: K| full.dom().contains(x) <==> keys.to_set().contains(x) by {
            if ks.to_set().contains(x) {
                let i = choose|i: int| 0 <= i < ks.len() && ks[i] == x;
                assert(keys[i] == x);
            }
            if keys.to_set().contains(x) && x != keys[n] {
                let i = choose|i: int| 0 <= i < keys.len() && keys[i] == x;
                assert(ks[i] == x);
                assert(ks.to_set().contains(x));
            }
            assert(keys.to_set().contains(keys[n])) by {
                assert(keys[n] == keys[n]);
            }
        }
        assert(full.dom() =~= keys.to_set());
        assert forall|i: int| 0 <= i < keys.len() implies full[#[trigger] keys[i]] == values[i] by {
            if i < n {
                assert(ks[i] == keys[i]);
                assert(vs[i] == values[i]);
            }
        }
    }
}

proof fn lemma_removed_all<K, V>(m: Map<K, V>, keys: Seq<K>)
    ensures
        removed_all(m, keys).dom() == m.dom().difference(keys.to_set()),
        forall|k: K| #[trigger] removed_all(m, keys).dom().contains(k) ==> removed_all(m, keys)[k] == m[k],
    decreases keys.len(),
{
    let rest = removed_all(m, keys);
    if keys.len() == 0 {
        assert(rest.dom() =~= m.dom().difference(keys.to_set()));
    } else {
        let ks = keys.drop_last();
        let n = keys.len() - 1;
        lemma_removed_all(m, ks);
        assert forall|x: K| keys.to_set().contains(x) <==> (ks.to_set().contains(x) || x == keys[n]) by {
            if ks.to_set().contains(x) {
                let i = choose|i: int| 0 <= i < ks.len() && ks[i] == x;
                assert(keys[i] == x);
            }
            if keys.to_set().contains(x) && x != keys[n] {
                let i = choose|i: int| 0 <= i < keys.len() && keys[i] == x;
                assert(ks[i] == x);
            }
            assert(keys[n] == keys[n]);
        }
        assert(rest.dom() =~= m.dom().difference(keys.to_set()));
    }
}

/// Inserting distinct keys into an empty map and then removing all of them,
/// in any order, finds each key with the value inserted with it, one key at
/// a time, and leaves the map empty. Insert and remove act on the view of an
/// `RTreeMap` exactly as `Map::insert` and `Map::remove` do.
pub proof fn lemma_round_trip<K, V>(keys: Seq<K>, values: Seq<V>, order: Seq<K>)
    requires
        keys.no_duplicates(),
        values.len() == keys.len(),
        order.no_duplicates(),
        order.to_set() == keys.to_set(),
    ensures
        forall|i: int|
            0 <= i < keys.len() ==> inserted_all(Map::<K, V>::empty(), keys, values)[#[trigger] keys[i]]
                == values[i],
        forall|j: int|
            0 <= j < order.len() ==> {
                let before = removed_all(inserted_all(Map::<K, V>::empty(), keys, values), order.take(j));
                &&& before.dom().contains(#[trigger] order[j])
                &&& before[order[j]] == inserted_all(Map::<K, V>::empty(), keys, values)[order[j]]
            },
        removed_all(inserted_all(Map::<K, V>::empty(), keys, values), order) == Map::<K, V>::empty(),
{
    let full = inserted_all(Map::<K, V>::empty(), keys, values);
    lemma_inserted_all(keys, values);
    lemma_removed_all(full, order);
    assert(removed_all(full, order) =~= Map::<K, V>::empty());
    assert forall|j: int| 0 <= j < order.len() implies {
        let before = removed_all(full, order.take(j));
        &&& before.dom().contains(#[trigger] order[j])
        &&& before[order[j]] == full[order[j]]
    } by {
        let pre = order.take(j);
        lemma_removed_all(full, pre);
        assert(order.to_set().contains(order[j]));
        if pre.to_set().contains(order[j]) {
            let i = choose|i: int| 0 <= i < pre.len() && pre[i] == order[j];
            assert(order[i] == order[j]);
        }
    }
}

/// Inserting a key that is already held with a new value, then removing
/// that key, hands back the new value and never the old one. Here `m` is the
/// view of an `RTreeMap` before the insert.
pub proof fn lemma_overwrite<K, V>(m: Map<K, V>, key: K, old_value: V, new_value: V)
    requires
        m.dom().contains(key),
        m[key] == old_value,
    ensures
        m.insert(key, new_value).dom().contains(key),
        m.insert(key, new_value)[key] == new_value,
        m.insert(key, new_value).remove(key) == m.remove(key),
{
    assert(m.insert(key, new_value).remove(key) =~= m.remove(key));
}

/// Removing a key that was never inserted finds nothing and leaves the
/// map as it was; looking it up finds nothing either.
pub proof fn lemma_absent<K, V>(m: Map<K, V>, key: K)
    requires
        !m.dom().contains(key),
    ensures
        m.remove(key) == m,
        !m.remove(key).dom().contains(key),
{
    assert(m.remove(key) =~= m);
}

} // verus!

//! Mathematical model of the cache: an association sequence of
//! `(key, value)` pairs, read both as a map from keys to values and as a
//! recency order over the keys (earlier entries are less recent).

use vstd::prelude::*;

verus! {

/// The keys of an association sequence, in entry order.
pub open spec fn keys_of<V>(entries: Seq<(u64, V)>) -> Seq<u64> {
    entries.map_values(|p: (u64, V)| p.0)
}

/// No key occurs in two entries.
pub open spec fn distinct_keys<V>(entries: Seq<(u64, V)>) -> bool {
    forall|i: int, j: int| 0 <= i < j < entries.len() ==> entries[i].0 != entries[j].0
}

/// The map denoted by an association sequence; with distinct keys each key
/// maps to the value of its unique entry.
pub open spec fn map_of<V>(entries: Seq<(u64, V)>) -> Map<u64, V>
    decreases entries.len(),
{
    if entries.len() == 0 {
        Map::empty()
    } else {
        map_of(entries.drop_last()).insert(entries.last().0, entries.last().1)
    }
}

/// A key is in the denoted map exactly when some entry carries it.
pub proof fn lemma_map_of_contains<V>(entries: Seq<(u64, V)>, key: u64)
    ensures
        map_of(entries).contains_key(key) <==> (exists|i: int|
            0 <= i < entries.len() && entries[i].0 == key),
    decreases entries.len(),
{
    if entries.len() > 0 {
        let d = entries.drop_last();
        lemma_map_of_contains(d, key);
        if entries.last().0 == key {
            assert(entries[entries.len() - 1].0 == key);
        } else {
            if map_of(entries).contains_key(key) {
                let i = choose|i: int| 0 <= i < d.len() && d[i].0 == key;
                assert(entries[i].0 == key);
            }
            if exists|i: int| 0 <= i < entries.len() && entries[i].0 == key {
                let i = choose|i: int| 0 <= i < entries.len() && entries[i].0 == key;
                assert(i < entries.len() - 1);
                assert(d[i].0 == key);
            }
        }
    }
}

/// With distinct keys, each entry's key maps to that entry's value.
pub proof fn lemma_map_of_index<V>(entries: Seq<(u64, V)>, i: int)
    requires
        distinct_keys(entries),
        0 <= i < entries.len(),
    ensures
        map_of(entries).contains_key(entries[i].0),
        map_of(entries)[entries[i].0] == entries[i].1,
    decreases entries.len(),
{
    if i < entries.len() - 1 {
        let d = entries.drop_last();
        assert(d[i] == entries[i]);
        lemma_map_of_index(d, i);
        assert(entries.last().0 != entries[i].0);
    }
}

/// With distinct keys, the denoted map is finite and has one element per entry.
pub proof fn lemma_map_of_len<V>(entries: Seq<(u64, V)>)
    requires
        distinct_keys(entries),
    ensures
        map_of(entries).dom().finite(),
        map_of(entries).len() == entries.len(),
    decreases entries.len(),
{
    if entries.len() > 0 {
        let d = entries.drop_last();
        lemma_map_of_len(d);
        lemma_map_of_contains(d, entries.last().0);
        assert(forall|i: int| 0 <= i < d.len() ==> d[i].0 != entries.last().0);
        assert(!map_of(d).contains_key(entries.last().0));
        assert(map_of(entries).dom() =~= map_of(d).dom().insert(entries.last().0));
    }
}

/// Distinctness of keys is preserved by removing an entry.
pub proof fn lemma_distinct_remove_at<V>(entries: Seq<(u64, V)>, i: int)
    requires
        distinct_keys(entries),
        0 <= i < entries.len(),
    ensures
        distinct_keys(entries.remove(i)),
{
    entries.remove_ensures(i);
    let r = entries.remove(i);
    assert forall|a: int, b: int| 0 <= a < b < r.len() implies r[a].0 != r[b].0 by {
        if a < i {
            assert(r[a] == entries[a]);
        } else {
            assert(r[a] == entries[a + 1]);
        }
        if b < i {
            assert(r[b] == entries[b]);
        } else {
            assert(r[b] == entries[b + 1]);
        }
    }
}

/// Appending an entry with a fresh key keeps the keys distinct.
pub proof fn lemma_distinct_push<V>(entries: Seq<(u64, V)>, p: (u64, V))
    requires
        distinct_keys(entries),
        forall|i: int| 0 <= i < entries.len() ==> entries[i].0 != p.0,
    ensures
        distinct_keys(entries.push(p)),
{
}

/// Taking the keys commutes with removing an entry.
pub proof fn lemma_keys_of_remove_at<V>(entries: Seq<(u64, V)>, i: int)
    requires
        0 <= i < entries.len(),
    ensures
        keys_of(entries.remove(i)) == keys_of(entries).remove(i),
{
    entries.remove_ensures(i);
    keys_of(entries).remove_ensures(i);
    assert(keys_of(entries.remove(i)) =~= keys_of(entries).remove(i));
}

/// Taking the keys commutes with appending an entry.
pub proof fn lemma_keys_of_push<V>(entries: Seq<(u64, V)>, p: (u64, V))
    ensures
        keys_of(entries.push(p)) == keys_of(entries).push(p.0),
{
    assert(keys_of(entries.push(p)) =~= keys_of(entries).push(p.0));
}

/// Appending an entry inserts its key into the denoted map.
pub proof fn lemma_map_of_push<V>(entries: Seq<(u64, V)>, p: (u64, V))
    ensures
        map_of(entries.push(p)) == map_of(entries).insert(p.0, p.1),
{
    assert(entries.push(p).drop_last() =~= entries);
    assert(entries.push(p).last() == p);
}

/// Replacing the value of the entry at index `i` updates exactly its key,
/// and leaves the keys and their order as they were.
pub proof fn lemma_map_of_update_at<V>(entries: Seq<(u64, V)>, i: int, v: V)
    requires
        distinct_keys(entries),
        0 <= i < entries.len(),
    ensures
        map_of(entries.update(i, (entries[i].0, v)))
            == map_of(entries).insert(entries[i].0, v),
        keys_of(entries.update(i, (entries[i].0, v))) == keys_of(entries),
        distinct_keys(entries.update(i, (entries[i].0, v))),
    decreases entries.len(),
{
    let key = entries[i].0;
    let u = entries.update(i, (key, v));
    assert(keys_of(u) =~= keys_of(entries));
    if i == entries.len() - 1 {
        assert(u.drop_last() =~= entries.drop_last());
        assert(u.last() == (key, v));
        assert(map_of(entries.drop_last()).insert(key, v)
            =~= map_of(entries).insert(key, v));
    } else {
        let d = entries.drop_last();
        let last = entries.last();
        assert(d[i] == entries[i]);
        lemma_map_of_update_at(d, i, v);
        assert(u.drop_last() =~= d.update(i, (key, v)));
        assert(u.last() == last);
        assert(last.0 != key);
        assert(map_of(d).insert(key, v).insert(last.0, last.1)
            =~= map_of(d).insert(last.0, last.1).insert(key, v));
    }
}

/// Removing the entry at index `i` removes exactly its key from the map.
pub proof fn lemma_map_of_remove_at<V>(entries: Seq<(u64, V)>, i: int)
    requires
        distinct_keys(entries),
        0 <= i < entries.len(),
    ensures
        map_of(entries.remove(i)) == map_of(entries).remove(entries[i].0),
    decreases entries.len(),
{
    let key = entries[i].0;
    if i == entries.len() - 1 {
        assert(entries.remove(i) =~= entries.drop_last());
        lemma_map_of_contains(entries.drop_last(), key);
        assert(!map_of(entries.drop_last()).contains_key(key));
        assert(map_of(entries).remove(key) =~= map_of(entries.drop_last()));
    } else {
        let d = entries.drop_last();
        let last = entries.last();
        assert(d[i] == entries[i]);
        lemma_map_of_remove_at(d, i);
        assert(entries.remove(i).len() == entries.len() - 1);
        assert(entries.remove(i).last() == last);
        assert(entries.remove(i).drop_last() =~= d.remove(i));
        assert(last.0 != key);
        assert(map_of(entries.remove(i))
            == map_of(d.remove(i)).insert(last.0, last.1));
        assert(map_of(d).remove(key).insert(last.0, last.1)
            =~= map_of(d).insert(last.0, last.1).remove(key));
    }
}

} // verus!

//! The bounded cache itself: a fixed positive capacity, an association
//! sequence of entries kept in recency order, and a deterministic eviction
//! policy that removes the least recent entry when a new key arrives while
//! the cache is full.

use vstd::prelude::*;

use crate::model::{
    distinct_keys, keys_of, lemma_distinct_push, lemma_distinct_remove_at,
    lemma_keys_of_push, lemma_keys_of_remove_at, lemma_map_of_contains, lemma_map_of_index,
    lemma_map_of_len, lemma_map_of_push, lemma_map_of_remove_at, lemma_map_of_update_at,
    map_of,
};

verus! {

/// Which accesses refresh an entry's recency.
///
/// Under `Lru`, both inserting over an existing key and a successful `get`
/// make the key most recent. Under `Fifo`, recency is fixed at first
/// insertion: neither replacement nor `get` moves a key.
#[derive(Clone, Copy, Debug, PartialEq, Eq, Structural)]
pub enum Policy {
    Lru,
    Fifo,
}

/// Construction-time failure: the requested capacity was not positive.
#[derive(Clone, Copy, Debug, PartialEq, Eq, Structural)]
pub enum CacheError {
    InvalidCapacity,
}

/// A bounded key-value cache. It never holds more than `capacity` entries;
/// inserting a new key while full evicts the least recent key under the
/// configured policy.
pub struct Cache<V> {
    entries: Vec<(u64, V)>,
    capacity: usize,
    policy: Policy,
}

impl<V> Cache<V> {
    /// The entries the cache holds, as a map from key to current value.
    pub closed spec fn contents(&self) -> Map<u64, V> {
        map_of(self.entries@)
    }

    /// The keys the cache holds, least recent first.
    pub closed spec fn order(&self) -> Seq<u64> {
        keys_of(self.entries@)
    }

    /// The fixed capacity chosen at construction.
    pub closed spec fn spec_capacity(&self) -> nat {
        self.capacity as nat
    }

    /// The eviction policy chosen at construction.
    pub closed spec fn spec_policy(&self) -> Policy {
        self.policy
    }

    /// Well-formedness: keys are distinct, the entry count never exceeds the
    /// capacity, and the capacity is positive. Established by construction
    /// and preserved by every operation.
    pub closed spec fn wf(&self) -> bool {
        &&& distinct_keys(self.entries@)
        &&& self.entries@.len() <= self.capacity
        &&& self.capacity > 0
    }

    /// Creates an empty cache with the given capacity and the default
    /// (least-recently-used) policy. Rejects a capacity of zero.
    pub fn new(capacity: usize) -> (r: Result<Cache<V>, CacheError>)
        ensures
            match r {
                Ok(c) => {
                    &&& capacity > 0
                    &&& c.wf()
                    &&& c.contents() == Map::<u64, V>::empty()
                    &&& c.order() == Seq::<u64>::empty()
                    &&& c.spec_capacity() == capacity
                    &&& c.spec_policy() == Policy::Lru
                },
                Err(e) => capacity == 0 && e == CacheError::InvalidCapacity,
            },
    {
        Cache::with_policy(capacity, Policy::Lru)
    }

    /// Creates an empty cache with the given capacity and eviction policy.
    /// Rejects a capacity of zero.
    pub fn with_policy(capacity: usize, policy: Policy) -> (r: Result<Cache<V>, CacheError>)
        ensures
            match r {
                Ok(c) => {
                    &&& capacity > 0
                    &&& c.wf()
                    &&& c.contents() == Map::<u64, V>::empty()
                    &&& c.order() == Seq::<u64>::empty()
                    &&& c.spec_capacity() == capacity
                    &&& c.spec_policy() == policy
                },
                Err(e) => capacity == 0 && e == CacheError::InvalidCapacity,
            },
    {
        if capacity == 0 {
            Err(CacheError::InvalidCapacity)
        } else {
            let c = Cache { entries: Vec::new(), capacity, policy };
            proof {
                assert(c.contents() =~= Map::<u64, V>::empty());
                assert(c.order() =~= Seq::<u64>::empty());
            }
            Ok(c)
        }
    }

    /// The number of entries currently held.
    pub fn len(&self) -> (n: usize)
        requires
            self.wf(),
        ensures
            n == self.contents().len(),
            n == self.order().len(),
            n <= self.spec_capacity(),
    {
        proof {
            lemma_map_of_len(self.entries@);
        }
        self.entries.len()
    }

    /// Whether the cache currently holds no entries.
    pub fn is_empty(&self) -> (r: bool)
        requires
            self.wf(),
        ensures
            r <==> self.contents().len() == 0,
            r <==> self.order().len() == 0,
    {
        proof {
            lemma_map_of_len(self.entries@);
        }
        self.entries.len() == 0
    }

    /// The capacity the cache was constructed with.
    pub fn capacity(&self) -> (n: usize)
        ensures
            n == self.spec_capacity(),
    {
        self.capacity
    }

    /// The eviction policy the cache was constructed with.
    pub fn policy(&self) -> (p: Policy)
        ensures
            p == self.spec_policy(),
    {
        self.policy
    }

    /// Index of the entry holding `key`, if any.
    fn position_of(&self, key: u64) -> (r: Option<usize>)
        ensures
            match r {
                Some(i) => i < self.entries@.len() && self.entries@[i as int].0 == key,
                None => forall|j: int|
                    0 <= j < self.entries@.len() ==> self.entries@[j].0 != key,
            },
    {
        let mut i: usize = 0;
        while i < self.entries.len()
            invariant
                i <= self.entries@.len(),
                forall|j: int| 0 <= j < i ==> self.entries@[j].0 != key,
            decreases self.entries@.len() - i,
        {
            if self.entries[i].0 == key {
                return Some(i);
            }
            i = i + 1;
        }
        None
    }

    /// Inserts `key` with `value`, returning the previous value if the key
    /// was already present.
    ///
    /// A present key has its value replaced: the length does not change and
    /// no key is evicted, so for any sequence of inserts the length stays
    /// within the capacity. A new key is added outright while the cache is
    /// below capacity. A new key arriving while the cache is full first
    /// evicts exactly one victim — the least recent key, the front of the
    /// order — and only then is added.
    pub fn insert(&mut self, key: u64, value: V) -> (prev: Option<V>)
        requires
            old(self).wf(),
        ensures
            final(self).wf(),
            final(self).spec_capacity() == old(self).spec_capacity(),
            final(self).spec_policy() == old(self).spec_policy(),
            final(self).contents().contains_key(key),
            final(self).contents()[key] == value,
            final(self).contents().len() <= final(self).spec_capacity(),
            final(self).order().len() == final(self).contents().len(),
            old(self).contents().contains_key(key) ==> {
                &&& prev == Some(old(self).contents()[key])
                &&& final(self).contents() == old(self).contents().insert(key, value)
                &&& final(self).contents().len() == old(self).contents().len()
                &&& forall|k: u64|
                    old(self).contents().contains_key(k)
                        <==> final(self).contents().contains_key(k)
                &&& old(self).spec_policy() == Policy::Fifo
                    ==> final(self).order() == old(self).order()
                &&& old(self).spec_policy() == Policy::Lru ==> {
                    &&& final(self).order().last() == key
                    &&& exists|i: int|
                        0 <= i < old(self).order().len() && old(self).order()[i] == key
                            && final(self).order() == old(self).order().remove(i).push(key)
                }
            },
            !old(self).contents().contains_key(key)
                && old(self).contents().len() < old(self).spec_capacity() ==> {
                &&& prev is None
                &&& final(self).contents() == old(self).contents().insert(key, value)
                &&& final(self).order() == old(self).order().push(key)
                &&& final(self).contents().len() == old(self).contents().len() + 1
            },
            !old(self).contents().contains_key(key)
                && old(self).contents().len() == old(self).spec_capacity() ==> {
                &&& prev is None
                &&& old(self).order().len() > 0
                &&& final(self).contents()
                    == old(self).contents().remove(old(self).order()[0]).insert(key, value)
                &&& !final(self).contents().contains_key(old(self).order()[0])
                &&& final(self).order() == old(self).order().drop_first().push(key)
                &&& final(self).contents().len() == old(self).contents().len()
            },
    {
        proof {
            lemma_map_of_contains(self.entries@, key);
            lemma_map_of_len(self.entries@);
        }
        match self.position_of(key) {
            Some(i) => {
                let ghost before = self.entries@;
                proof {
                    lemma_map_of_index(before, i as int);
                    lemma_map_of_remove_at(before, i as int);
                    lemma_distinct_remove_at(before, i as int);
                    lemma_keys_of_remove_at(before, i as int);
                }
                let p = self.entries.remove(i);
                let ghost mid = self.entries@;
                proof {
                    lemma_map_of_contains(mid, key);
                }
                match self.policy {
                    Policy::Lru => {
                        self.entries.push((key, value));
                        proof {
                            lemma_map_of_push(mid, (key, value));
                            lemma_keys_of_push(mid, (key, value));
                            lemma_distinct_push(mid, (key, value));
                            assert(map_of(before).remove(key).insert(key, value)
                                =~= map_of(before).insert(key, value));
                            assert(0 <= (i as int) < old(self).order().len()
                                && old(self).order()[i as int] == key
                                && self.order()
                                    == old(self).order().remove(i as int).push(key));
                            lemma_map_of_len(self.entries@);
                        }
                    },
                    Policy::Fifo => {
                        self.entries.insert(i, (key, value));
                        proof {
                            assert(self.entries@ =~= before.update(i as int, (key, value)));
                            lemma_map_of_update_at(before, i as int, value);
                            lemma_map_of_len(self.entries@);
                        }
                    },
                }
                Some(p.1)
            },
            None => {
                if self.entries.len() == self.capacity {
                    let ghost before = self.entries@;
                    proof {
                        lemma_map_of_index(before, 0);
                        lemma_map_of_remove_at(before, 0);
                        lemma_distinct_remove_at(before, 0);
                        lemma_keys_of_remove_at(before, 0);
                    }
                    let _victim = self.entries.remove(0);
                    let ghost mid = self.entries@;
                    proof {
                        lemma_map_of_contains(mid, key);
                    }
                    self.entries.push((key, value));
                    proof {
                        lemma_map_of_push(mid, (key, value));
                        lemma_keys_of_push(mid, (key, value));
                        lemma_distinct_push(mid, (key, value));
                        assert(keys_of(before).remove(0) =~= keys_of(before).drop_first());
                        assert(before[0].0 != key);
                        lemma_map_of_len(self.entries@);
                    }
                } else {
                    let ghost before = self.entries@;
                    self.entries.push((key, value));
                    proof {
                        lemma_map_of_push(before, (key, value));
                        lemma_keys_of_push(before, (key, value));
                        lemma_distinct_push(before, (key, value));
                        lemma_map_of_len(self.entries@);
                    }
                }
                None
            },
        }
    }

    /// Looks up `key`. A hit returns the entry's current value and, under
    /// the LRU policy, makes the key the most recent one; under the FIFO
    /// policy a hit leaves the order unchanged. A miss returns `None` and
    /// has no effect. The contents never change.
    pub fn get(&mut self, key: u64) -> (r: Option<&V>)
        requires
            old(self).wf(),
        ensures
            final(self).wf(),
            final(self).spec_capacity() == old(self).spec_capacity(),
            final(self).spec_policy() == old(self).spec_policy(),
            final(self).contents() == old(self).contents(),
            match r {
                Some(v) => old(self).contents().contains_key(key)
                    && *v == old(self).contents()[key],
                None => !old(self).contents().contains_key(key),
            },
            !old(self).contents().contains_key(key)
                ==> final(self).order() == old(self).order(),
            old(self).contents().contains_key(key) && old(self).spec_policy() == Policy::Fifo
                ==> final(self).order() == old(self).order(),
            old(self).contents().contains_key(key) && old(self).spec_policy() == Policy::Lru
                ==> {
                    &&& final(self).order().last() == key
                    &&& exists|i: int|
                        0 <= i < old(self).order().len() && old(self).order()[i] == key
                            && final(self).order() == old(self).order().remove(i).push(key)
                },
    {
        proof {
            lemma_map_of_contains(self.entries@, key);
        }
        match self.position_of(key) {
            Some(i) => {
                proof {
                    lemma_map_of_index(self.entries@, i as int);
                }
                match self.policy {
                    Policy::Fifo => Some(&self.entries[i].1),
                    Policy::Lru => {
                        let ghost before = self.entries@;
                        proof {
                            lemma_map_of_remove_at(before, i as int);
                            lemma_distinct_remove_at(before, i as int);
                            lemma_keys_of_remove_at(before, i as int);
                        }
                        let p = self.entries.remove(i);
                        let ghost mid = self.entries@;
                        let ghost moved = p;
                        proof {
                            lemma_map_of_contains(mid, key);
                        }
                        self.entries.push(p);
                        proof {
                            lemma_map_of_push(mid, moved);
                            lemma_keys_of_push(mid, moved);
                            lemma_distinct_push(mid, moved);
                            assert(map_of(before).remove(key).insert(key, moved.1)
                                =~= map_of(before));
                            assert(0 <= (i as int) < old(self).order().len()
                                && old(self).order()[i as int] == key
                                && self.order()
                                    == old(self).order().remove(i as int).push(key));
                        }
                        let n = self.entries.len();
                        Some(&self.entries[n - 1].1)
                    },
                }
            },
            None => None,
        }
    }

    /// Deletes the entry for `key` and returns its value; a miss returns
    /// `None` and changes nothing, so removing an absent key leaves the
    /// length unchanged and removing twice is the same as removing once.
    pub fn remove(&mut self, key: u64) -> (r: Option<V>)
        requires
            old(self).wf(),
        ensures
            final(self).wf(),
            final(self).spec_capacity() == old(self).spec_capacity(),
            final(self).spec_policy() == old(self).spec_policy(),
            !final(self).contents().contains_key(key),
            old(self).contents().contains_key(key) ==> {
                &&& r == Some(old(self).contents()[key])
                &&& final(self).contents() == old(self).contents().remove(key)
                &&& final(self).contents().len() == old(self).contents().len() - 1
                &&& exists|i: int|
                    0 <= i < old(self).order().len() && old(self).order()[i] == key
                        && final(self).order() == old(self).order().remove(i)
            },
            !old(self).contents().contains_key(key) ==> {
                &&& r is None
                &&& final(self).contents() == old(self).contents()
                &&& final(self).order() == old(self).order()
            },
    {
        proof {
            lemma_map_of_contains(self.entries@, key);
        }
        match self.position_of(key) {
            Some(i) => {
                let ghost before = self.entries@;
                proof {
                    lemma_map_of_index(before, i as int);
                    lemma_map_of_remove_at(before, i as int);
                    lemma_distinct_remove_at(before, i as int);
                    lemma_keys_of_remove_at(before, i as int);
                    lemma_map_of_len(before);
                    lemma_map_of_len(before.remove(i as int));
                }
                let p = self.entries.remove(i);
                proof {
                    assert(0 <= (i as int) < old(self).order().len()
                        && old(self).order()[i as int] == key
                        && self.order() == old(self).order().remove(i as int));
                }
                Some(p.1)
            },
            None => None,
        }
    }

    /// Empties the cache; its capacity and policy are unchanged, so it
    /// behaves afterwards exactly as a freshly constructed cache.
    pub fn clear(&mut self)
        requires
            old(self).wf(),
        ensures
            final(self).wf(),
            final(self).spec_capacity() == old(self).spec_capacity(),
            final(self).spec_policy() == old(self).spec_policy(),
            final(self).contents() == Map::<u64, V>::empty(),
            final(self).order() == Seq::<u64>::empty(),
            final(self).contents().len() == 0,
    {
        self.entries.clear();
        proof {
            assert(self.contents() =~= Map::<u64, V>::empty());
            assert(self.order() =~= Seq::<u64>::empty());
        }
    }
}

/// Capacity invariant: a well-formed cache never holds more entries than its
/// capacity. Construction establishes well-formedness and every operation
/// preserves it, so the bound is observable before and after every call —
/// in particular after any sequence of `insert` calls.
pub proof fn lemma_capacity_invariant<V>(c: &Cache<V>)
    requires
        c.wf(),
    ensures
        c.contents().len() <= c.spec_capacity(),
        c.order().len() <= c.spec_capacity(),
{
    lemma_map_of_len(c.entries@);
}

/// Key uniqueness: a well-formed cache holds each key at most once. The
/// recency order lists exactly the held keys, each exactly once, so it has
/// as many entries as the contents.
pub proof fn lemma_order_tracks_contents<V>(c: &Cache<V>)
    requires
        c.wf(),
    ensures
        c.order().no_duplicates(),
        forall|k: u64| c.order().contains(k) <==> c.contents().contains_key(k),
        c.order().len() == c.contents().len(),
{
    lemma_map_of_len(c.entries@);
    assert forall|k: u64| c.order().contains(k) <==> c.contents().contains_key(k) by {
        lemma_map_of_contains(c.entries@, k);
        if c.order().contains(k) {
            let i = choose|i: int| 0 <= i < c.order().len() && c.order()[i] == k;
            assert(c.entries@[i].0 == k);
        }
        if c.contents().contains_key(k) {
            let i = choose|i: int| 0 <= i < c.entries@.len() && c.entries@[i].0 == k;
            assert(c.order()[i] == k);
        }
    }
    assert forall|a: int, b: int|
        0 <= a < c.order().len() && 0 <= b < c.order().len() && a != b
        implies c.order()[a] != c.order()[b] by {
        assert(c.order()[a] == c.entries@[a].0);
        assert(c.order()[b] == c.entries@[b].0);
    }
}

/// No insert is lost: after `Cache::insert` the contents map the key to the
/// inserted value, and `Cache::get` returns exactly the mapped value, so a
/// successful insert stays retrievable until the key is evicted or removed.
pub proof fn lemma_insert_retrievable<V>(contents: Map<u64, V>, key: u64, value: V)
    ensures
        contents.insert(key, value).contains_key(key),
        contents.insert(key, value)[key] == value,
{
}

/// Idempotence of removal: the first removal leaves the key absent, and
/// `Cache::remove` on an absent key changes nothing, so removing a key twice
/// leaves exactly the contents that removing it once leaves.
pub proof fn lemma_remove_idempotent<V>(contents: Map<u64, V>, key: u64)
    ensures
        !contents.remove(key).contains_key(key),
        contents.remove(key).remove(key) == contents.remove(key),
{
    assert(contents.remove(key).remove(key) =~= contents.remove(key));
}

} // verus!

use bounded_cache::cache::{Cache, CacheError, Policy};

#[test]
fn new_rejects_zero_capacity() {
    let r = Cache::<u64>::new(0);
    assert!(matches!(r, Err(CacheError::InvalidCapacity)));
    let r = Cache::<u64>::with_policy(0, Policy::Fifo);
    assert!(matches!(r, Err(CacheError::InvalidCapacity)));
}

#[test]
fn new_cache_is_empty() {
    let c = Cache::<u64>::new(4).unwrap();
    assert_eq!(c.len(), 0);
    assert!(c.is_empty());
    assert_eq!(c.capacity(), 4);
    assert_eq!(c.policy(), Policy::Lru);
}

#[test]
fn insert_and_get_roundtrip() {
    let mut c = Cache::<u64>::new(4).unwrap();
    assert_eq!(c.insert(1, 100), None);
    assert_eq!(c.insert(2, 200), None);
    assert_eq!(c.get(1), Some(&100));
    assert_eq!(c.get(2), Some(&200));
    assert_eq!(c.get(3), None);
    assert_eq!(c.len(), 2);
}

#[test]
fn capacity_invariant_under_distinct_inserts() {
    let mut c = Cache::<u64>::new(3).unwrap();
    let mut key: u64 = 0;
    while key < 10 {
        c.insert(key, key * 10);
        assert!(c.len() <= c.capacity());
        key += 1;
    }
    assert_eq!(c.len(), 3);
}

#[test]
fn replace_does_not_evict() {
    let mut c = Cache::<u64>::new(2).unwrap();
    assert_eq!(c.insert(1, 10), None);
    assert_eq!(c.insert(2, 20), None);
    assert_eq!(c.insert(1, 11), Some(10));
    assert_eq!(c.len(), 2);
    assert_eq!(c.get(1), Some(&11));
    assert_eq!(c.get(2), Some(&20));
}

#[test]
fn lru_eviction_prefers_least_recently_used() {
    let a: u64 = 1;
    let b: u64 = 2;
    let k: u64 = 3;
    let mut c = Cache::<u64>::new(2).unwrap();
    assert_eq!(c.insert(a, 1), None);
    assert_eq!(c.insert(b, 2), None);
    assert_eq!(c.get(a), Some(&1));
    assert_eq!(c.insert(k, 3), None);
    assert_eq!(c.get(b), None);
    assert_eq!(c.get(a), Some(&1));
    assert_eq!(c.get(k), Some(&3));
    assert_eq!(c.len(), 2);
}

#[test]
fn fifo_baseline_evicts_first_inserted() {
    let mut c = Cache::<u64>::with_policy(3, Policy::Fifo).unwrap();
    assert_eq!(c.insert(1, 10), None);
    assert_eq!(c.insert(2, 20), None);
    assert_eq!(c.insert(3, 30), None);
    assert_eq!(c.insert(4, 40), None);
    assert_eq!(c.get(1), None);
    assert_eq!(c.get(2), Some(&20));
    assert_eq!(c.get(3), Some(&30));
    assert_eq!(c.get(4), Some(&40));
    assert_eq!(c.len(), 3);
}

#[test]
fn fifo_get_does_not_refresh() {
    let mut c = Cache::<u64>::with_policy(2, Policy::Fifo).unwrap();
    c.insert(1, 10);
    c.insert(2, 20);
    assert_eq!(c.get(1), Some(&10));
    c.insert(3, 30);
    assert_eq!(c.get(1), None);
    assert_eq!(c.get(2), Some(&20));
    assert_eq!(c.get(3), Some(&30));
}

#[test]
fn fifo_replace_keeps_first_in_line() {
    let mut c = Cache::<u64>::with_policy(2, Policy::Fifo).unwrap();
    c.insert(1, 10);
    c.insert(2, 20);
    assert_eq!(c.insert(1, 11), Some(10));
    c.insert(3, 30);
    assert_eq!(c.get(1), None);
    assert_eq!(c.get(2), Some(&20));
    assert_eq!(c.get(3), Some(&30));
}

#[test]
fn lru_replace_refreshes_recency() {
    let mut c = Cache::<u64>::new(2).unwrap();
    c.insert(1, 10);
    c.insert(2, 20);
    assert_eq!(c.insert(1, 11), Some(10));
    c.insert(3, 30);
    assert_eq!(c.get(2), None);
    assert_eq!(c.get(1), Some(&11));
    assert_eq!(c.get(3), Some(&30));
}

#[test]
fn miss_get_has_no_side_effect() {
    let mut c = Cache::<u64>::new(2).unwrap();
    c.insert(1, 10);
    c.insert(2, 20);
    assert_eq!(c.get(99), None);
    c.insert(3, 30);
    assert_eq!(c.get(1), None);
    assert_eq!(c.get(2), Some(&20));
    assert_eq!(c.get(3), Some(&30));
}

#[test]
fn remove_returns_value_and_misses_are_harmless() {
    let mut c = Cache::<u64>::new(3).unwrap();
    c.insert(1, 10);
    c.insert(2, 20);
    assert_eq!(c.remove(99), None);
    assert_eq!(c.len(), 2);
    assert_eq!(c.remove(1), Some(10));
    assert_eq!(c.len(), 1);
    assert_eq!(c.remove(1), None);
    assert_eq!(c.len(), 1);
    assert_eq!(c.get(1), None);
    assert_eq!(c.get(2), Some(&20));
}

#[test]
fn removed_slot_frees_room() {
    let mut c = Cache::<u64>::new(2).unwrap();
    c.insert(1, 10);
    c.insert(2, 20);
    assert_eq!(c.remove(1), Some(10));
    assert_eq!(c.insert(3, 30), None);
    assert_eq!(c.get(2), Some(&20));
    assert_eq!(c.get(3), Some(&30));
    assert_eq!(c.len(), 2);
}

#[test]
fn clear_resets_state() {
    let mut c = Cache::<u64>::new(2).unwrap();
    c.insert(1, 10);
    c.insert(2, 20);
    c.clear();
    assert_eq!(c.len(), 0);
    assert!(c.is_empty());
    assert_eq!(c.capacity(), 2);
    assert_eq!(c.policy(), Policy::Lru);
    c.insert(3, 30);
    c.insert(4, 40);
    c.get(3);
    c.insert(5, 50);
    assert_eq!(c.get(4), None);
    assert_eq!(c.get(3), Some(&30));
    assert_eq!(c.get(5), Some(&50));
}

#[test]
fn string_values_are_supported() {
    let mut c = Cache::<String>::new(2).unwrap();
    c.insert(1, String::from("one"));
    c.insert(2, String::from("two"));
    assert_eq!(c.get(1).map(|s| s.as_str()), Some("one"));
    assert_eq!(c.insert(1, String::from("uno")), Some(String::from("one")));
    assert_eq!(c.get(1).map(|s| s.as_str()), Some("uno"));
    assert_eq!(c.remove(2), Some(String::from("two")));
}

#[test]
fn capacity_one_always_keeps_latest() {
    let mut c = Cache::<u64>::new(1).unwrap();
    let mut key: u64 = 0;
    while key < 5 {
        c.insert(key, key);
        assert_eq!(c.len(), 1);
        assert_eq!(c.get(key), Some(&key));
        key += 1;
    }
    assert_eq!(c.get(4), Some(&4));
    assert_eq!(c.get(3), None);
}

use minne::unbounded::Unbounded;

#[test]
fn unbounded_test_insert_and_get() {
    let mut cache = Unbounded::new();
    cache.insert(1, "a".to_string());
    assert_eq!(cache.get(&1), Some("a".to_string()));
    assert_eq!(cache.get(&2), None);
}

#[test]
fn unbounded_test_remove() {
    let mut cache = Unbounded::new();
    cache.insert(1, "a".to_string());
    assert_eq!(cache.remove(&1), Some("a".to_string()));
    assert_eq!(cache.remove(&1), None);
}

#[test]
fn unbounded_test_hits_and_misses() {
    let mut cache = Unbounded::new();
    cache.insert(1, "a".to_string());

    assert_eq!(cache.get(&1), Some("a".to_string()));
    assert_eq!(cache.get(&2), None);

    assert_eq!(cache.hits(), 1);
    assert_eq!(cache.misses(), 1);
}

#[test]
fn unbounded_test_clear() {
    let mut cache = Unbounded::new();
    cache.insert(1, "a".to_string());
    cache.clear();
    assert_eq!(cache.len(), 0);
}

#[test]
fn unbounded_many_inserts_all_stay() {
    let mut cache = Unbounded::new();
    for i in 0..10u64 {
        cache.insert(i, (i * 2).to_string());
        assert_eq!(cache.get(&i), Some((i * 2).to_string()));
    }
    for i in 0..10u64 {
        assert_eq!(cache.get(&i), Some((i * 2).to_string()));
    }
    assert_eq!(cache.len(), 10);
}

#[test]
fn unbounded_len_counts_distinct_keys() {
    let mut cache = Unbounded::new();
    let keys: [u64; 7] = [3, 1, 3, 2, 1, 3, 9];
    for k in keys {
        cache.insert(k, k.to_string());
    }
    assert_eq!(cache.len(), 4);
    assert!(!cache.is_empty());
}

#[test]
fn unbounded_insert_overwrites() {
    let mut cache = Unbounded::new();
    cache.insert(1, "a".to_string());
    cache.insert(1, "b".to_string());
    assert_eq!(cache.len(), 1);
    assert_eq!(cache.get(&1), Some("b".to_string()));
}

#[test]
fn unbounded_same_pair_twice() {
    let mut cache = Unbounded::new();
    cache.insert(1, "a".to_string());
    let before = cache.len();
    cache.insert(1, "a".to_string());
    assert_eq!(cache.len(), before);
    assert_eq!(cache.get(&1), Some("a".to_string()));
    assert_eq!(cache.remove(&1), Some("a".to_string()));
    assert_eq!(cache.get(&1), None);
}

#[test]
fn unbounded_new_and_default_are_empty() {
    let cache = Unbounded::new();
    assert_eq!(cache.len(), 0);
    assert!(cache.is_empty());
    assert_eq!(cache.hits(), 0);
    assert_eq!(cache.misses(), 0);
    let other = Unbounded::default();
    assert!(other.is_empty());
    assert_eq!(other.entries(), Vec::new());
}

#[test]
fn unbounded_entries_hold_each_pair_once() {
    let mut cache = Unbounded::new();
    cache.insert(2, "two".to_string());
    cache.insert(1, "one".to_string());
    cache.insert(2, "deux".to_string());
    let mut entries = cache.entries();
    entries.sort();
    assert_eq!(entries, vec![(1, "one".to_string()), (2, "deux".to_string())]);
}

#[test]
fn unbounded_clear_keeps_counters() {
    let mut cache = Unbounded::new();
    cache.insert(1, "a".to_string());
    cache.get(&1);
    cache.get(&5);
    cache.clear();
    assert!(cache.is_empty());
    assert_eq!(cache.hits(), 1);
    assert_eq!(cache.misses(), 1);
}

#[test]
fn unbounded_hit_and_miss_count_one_each() {
    let mut cache = Unbounded::new();
    cache.insert(7, "seven".to_string());
    let (hits, misses) = (cache.hits(), cache.misses());
    assert_eq!(cache.get(&7), Some("seven".to_string()));
    assert_eq!(cache.hits(), hits + 1);
    assert_eq!(cache.misses(), misses);
    assert_eq!(cache.get(&8), None);
    assert_eq!(cache.hits(), hits + 1);
    assert_eq!(cache.misses(), misses + 1);
}

use minne::lru::LRU;
use minne::Cache;

#[test]
fn lru_test_insert_and_get() {
    let mut cache = Cache::new_lru(10);
    cache.insert(1, "one".to_string());
    cache.insert(2, "two".to_string());
    cache.insert(3, "three".to_string());

    assert_eq!(cache.get(&1), Some("one".to_string()));
    assert_eq!(cache.get(&2), Some("two".to_string()));
    assert_eq!(cache.get(&3), Some("three".to_string()));
}

#[test]
fn test_insert_evict_and_get() {
    let mut cache = Cache::new_lru(3);
    cache.insert(1, "one".to_string());
    cache.insert(2, "two".to_string());
    cache.insert(3, "three".to_string());
    cache.insert(4, "four".to_string());

    assert_eq!(cache.get(&1), None);
    assert_eq!(cache.get(&2), Some("two".to_string()));
    assert_eq!(cache.get(&3), Some("three".to_string()));
    assert_eq!(cache.get(&4), Some("four".to_string()));
}

#[test]
fn lru_test_remove() {
    let mut cache = Cache::new_lru(3);
    cache.insert(1, "one".to_string());
    cache.insert(2, "two".to_string());
    cache.insert(3, "three".to_string());

    assert_eq!(cache.remove(&2), Some("two".to_string()));
    assert_eq!(cache.get(&2), None);
}

#[test]
fn lru_test_clear() {
    let mut cache = Cache::new_lru(3);
    cache.insert(1, "one".to_string());
    cache.insert(2, "two".to_string());
    cache.insert(3, "three".to_string());

    cache.clear();

    assert_eq!(cache.len(), 0);
    assert_eq!(cache.is_empty(), true);
}

#[test]
fn lru_test_hits_and_misses() {
    let mut cache = Cache::new_lru(3);
    cache.insert(1, "one".to_string());
    cache.insert(2, "two".to_string());
    cache.insert(3, "three".to_string());

    assert_eq!(cache.hits(), 0);
    assert_eq!(cache.misses(), 0);

    cache.get(&1);
    cache.get(&2);
    cache.get(&4);

    assert_eq!(cache.hits(), 2);
    assert_eq!(cache.misses(), 1);
}

#[test]
fn lru_many_inserts_stay_within_capacity() {
    let mut cache = LRU::new(5);
    for i in 0..10u64 {
        cache.insert(i, (i * 2).to_string());
        assert_eq!(cache.get(&i), Some((i * 2).to_string()));
        assert!(cache.len() <= 5);
    }
    assert_eq!(cache.len(), 5);
    for i in 0..5u64 {
        assert_eq!(cache.get(&i), None);
    }
    for i in 5..10u64 {
        assert_eq!(cache.get(&i), Some((i * 2).to_string()));
    }
}

#[test]
fn lru_lookup_touches_the_key() {
    let mut cache = LRU::new(3);
    cache.insert(1, "one".to_string());
    cache.insert(2, "two".to_string());
    cache.insert(3, "three".to_string());
    assert_eq!(cache.get(&1), Some("one".to_string()));
    cache.insert(4, "four".to_string());

    assert_eq!(cache.len(), 3);
    assert_eq!(cache.get(&2), None);
    assert_eq!(cache.get(&1), Some("one".to_string()));
    assert_eq!(cache.get(&3), Some("three".to_string()));
    assert_eq!(cache.get(&4), Some("four".to_string()));
}

#[test]
fn lru_insert_of_a_present_key_touches_it() {
    let mut cache = LRU::new(2);
    cache.insert(1, "one".to_string());
    cache.insert(2, "two".to_string());
    cache.insert(1, "uno".to_string());
    assert_eq!(cache.len(), 2);
    cache.insert(3, "three".to_string());

    assert_eq!(cache.get(&2), None);
    assert_eq!(cache.get(&1), Some("uno".to_string()));
    assert_eq!(cache.get(&3), Some("three".to_string()));
}

#[test]
fn lru_miss_leaves_the_order() {
    let mut cache = LRU::new(2);
    cache.insert(1, "one".to_string());
    cache.insert(2, "two".to_string());
    assert_eq!(cache.get(&9), None);
    cache.insert(3, "three".to_string());

    assert_eq!(cache.get(&1), None);
    assert_eq!(cache.get(&2), Some("two".to_string()));
}

#[test]
fn lru_remove_gives_up_the_place_in_the_order() {
    let mut cache = LRU::new(3);
    cache.insert(1, "one".to_string());
    cache.insert(2, "two".to_string());
    cache.insert(3, "three".to_string());
    assert_eq!(cache.remove(&1), Some("one".to_string()));
    assert_eq!(cache.remove(&1), None);
    assert_eq!(cache.len(), 2);
    cache.insert(4, "four".to_string());
    assert_eq!(cache.len(), 3);
    cache.insert(5, "five".to_string());

    assert_eq!(cache.len(), 3);
    assert_eq!(cache.get(&2), None);
    assert_eq!(cache.get(&3), Some("three".to_string()));
    assert_eq!(cache.get(&4), Some("four".to_string()));
    assert_eq!(cache.get(&5), Some("five".to_string()));
}

#[test]
fn lru_same_pair_twice() {
    let mut cache = LRU::new(3);
    cache.insert(1, "one".to_string());
    cache.insert(2, "two".to_string());
    let before = cache.len();
    cache.insert(2, "two".to_string());
    assert_eq!(cache.len(), before);
    assert_eq!(cache.len(), 2);
    assert_eq!(cache.get(&2), Some("two".to_string()));
    assert_eq!(cache.remove(&2), Some("two".to_string()));
    assert_eq!(cache.get(&2), None);
}

#[test]
fn lru_without_room_keeps_nothing() {
    let mut cache = LRU::new(0);
    cache.insert(1, "one".to_string());
    assert_eq!(cache.len(), 0);
    assert!(cache.is_empty());
    assert_eq!(cache.get(&1), None);
    assert_eq!(cache.misses(), 1);
}

#[test]
fn lru_new_is_empty() {
    let cache = LRU::new(4);
    assert_eq!(cache.len(), 0);
    assert!(cache.is_empty());
    assert_eq!(cache.hits(), 0);
    assert_eq!(cache.misses(), 0);
    assert_eq!(cache.entries(), Vec::new());
}

#[test]
fn lru_clear_keeps_counters_and_capacity() {
    let mut cache = LRU::new(2);
    cache.insert(1, "one".to_string());
    cache.get(&1);
    cache.get(&2);
    cache.clear();
    assert_eq!(cache.len(), 0);
    assert_eq!(cache.hits(), 1);
    assert_eq!(cache.misses(), 1);
    cache.insert(1, "one".to_string());
    cache.insert(2, "two".to_string());
    cache.insert(3, "three".to_string());
    assert_eq!(cache.len(), 2);
    assert_eq!(cache.get(&1), None);
}

#[test]
fn lru_hit_and_miss_count_one_each() {
    let mut cache = LRU::new(2);
    cache.insert(7, "seven".to_string());
    let (hits, misses) = (cache.hits(), cache.misses());
    assert_eq!(cache.get(&7), Some("seven".to_string()));
    assert_eq!(cache.hits(), hits + 1);
    assert_eq!(cache.misses(), misses);
    assert_eq!(cache.get(&8), None);
    assert_eq!(cache.hits(), hits + 1);
    assert_eq!(cache.misses(), misses + 1);
}

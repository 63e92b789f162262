use minne::snapshot::SnapshotError;
use minne::{Cache, Statistics};

#[test]
fn statistics_count_from_zero() {
    let mut stats = Statistics::new();
    assert_eq!(stats.hits(), 0);
    assert_eq!(stats.misses(), 0);
    stats.add_hit();
    stats.add_hit();
    stats.add_miss();
    assert_eq!(stats.hits(), 2);
    assert_eq!(stats.misses(), 1);
}

#[test]
fn facade_tells_its_variant() {
    assert!(Cache::Absent.is_none());
    assert!(!Cache::Absent.is_some());
    assert!(Cache::new_lru(1).is_some());
    assert!(!Cache::new_lru(1).is_none());
    assert!(Cache::new_unbounded().is_some());
    assert!(!Cache::new_unbounded().is_none());
    assert!(matches!(Cache::new_lru(1), Cache::LRU(_)));
    assert!(matches!(Cache::new_unbounded(), Cache::Unbounded(_)));
}

#[test]
fn absent_cache_keeps_nothing() {
    let mut cache = Cache::Absent;
    cache.insert(1, "one".to_string());
    assert_eq!(cache.get(&1), None);
    assert_eq!(cache.remove(&1), None);
    assert_eq!(cache.len(), 0);
    assert!(cache.is_empty());
    assert_eq!(cache.hits(), 0);
    assert_eq!(cache.misses(), 0);
    cache.clear();
    assert_eq!(cache.write(), Ok(None));
    assert_eq!(cache.read(&[]), Ok(()));
    assert_eq!(cache.read(&[1, 2, 3]), Ok(()));
    assert!(cache.is_none());
}

#[test]
fn facade_over_an_unbounded_cache() {
    let mut cache = Cache::new_unbounded();
    assert!(cache.is_empty());
    for i in 0..50u64 {
        cache.insert(i, i.to_string());
    }
    assert_eq!(cache.len(), 50);
    assert_eq!(cache.get(&0), Some("0".to_string()));
    assert_eq!(cache.get(&50), None);
    assert_eq!(cache.remove(&0), Some("0".to_string()));
    assert_eq!(cache.remove(&0), None);
    assert_eq!(cache.len(), 49);
    assert_eq!(cache.hits(), 1);
    assert_eq!(cache.misses(), 1);
    cache.clear();
    assert!(cache.is_empty());
    assert_eq!(cache.hits(), 1);
    assert_eq!(cache.read(&[9]), Err(SnapshotError::DecodeFailure));
    assert!(cache.is_empty());
}

#[test]
fn facade_over_a_bounded_cache() {
    let mut cache = Cache::new_lru(2);
    assert!(cache.is_empty());
    cache.insert(1, "one".to_string());
    cache.insert(2, "two".to_string());
    cache.insert(3, "three".to_string());
    assert_eq!(cache.len(), 2);
    assert!(!cache.is_empty());
    assert_eq!(cache.get(&1), None);
    assert_eq!(cache.remove(&2), Some("two".to_string()));
    assert_eq!(cache.len(), 1);
    assert_eq!(cache.hits(), 0);
    assert_eq!(cache.misses(), 1);
}

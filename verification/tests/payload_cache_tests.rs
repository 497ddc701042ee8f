use nesso::storage::payload_cache::{PayloadCache, DEFAULT_PAYLOAD_CACHE_CAPACITY};
use std::sync::Arc;

#[test]
fn test_cache_hit_and_miss() {
    let mut cache = PayloadCache::new(10);
    let payload = Arc::new(b"hello world".to_vec());

    cache.insert(1, Arc::clone(&payload));
    assert_eq!(cache.get(1), Some(payload));
    assert_eq!(cache.get(2), None);

    let (hits, misses, evictions) = cache.stats();
    assert_eq!(hits, 1);
    assert_eq!(misses, 1);
    assert_eq!(evictions, 0);
}

#[test]
fn test_cache_bounded_eviction() {
    let mut cache = PayloadCache::new(3);

    cache.insert(1, Arc::new(vec![1]));
    cache.insert(2, Arc::new(vec![2]));
    cache.insert(3, Arc::new(vec![3]));
    assert_eq!(cache.len(), 3);

    // The fourth entry pushes out the oldest.
    cache.insert(4, Arc::new(vec![4]));
    assert_eq!(cache.len(), 3);
    assert_eq!(cache.get(1), None);
    assert_eq!(cache.get(2).unwrap().as_slice(), &[2]);
    assert_eq!(cache.get(3).unwrap().as_slice(), &[3]);
    assert_eq!(cache.get(4).unwrap().as_slice(), &[4]);

    let (_, _, evictions) = cache.stats();
    assert_eq!(evictions, 1);
}

#[test]
fn test_cache_explicit_removal() {
    let mut cache = PayloadCache::new(10);
    cache.insert(1, Arc::new(b"task 1".to_vec()));
    assert_eq!(cache.len(), 1);

    let removed = cache.remove(1);
    assert!(removed.is_some());
    assert_eq!(cache.len(), 0);
    assert_eq!(cache.get(1), None);
}

#[test]
fn test_cache_of_capacity_zero_keeps_nothing() {
    let mut cache = PayloadCache::new(0);
    cache.insert(1, Arc::new(vec![1]));
    assert_eq!(cache.len(), 0);
    assert_eq!(cache.get(1), None);
    assert_eq!(cache.stats(), (0, 1, 0));
}

#[test]
fn test_cache_replaces_the_payload_of_an_id() {
    let mut cache = PayloadCache::new(2);
    cache.insert(1, Arc::new(vec![1]));
    cache.insert(1, Arc::new(vec![9]));
    assert_eq!(cache.len(), 1);
    assert_eq!(cache.get(1).unwrap().as_slice(), &[9]);
    assert_eq!(cache.stats().2, 0);
}

#[test]
fn test_cache_passes_over_removed_ids_when_it_evicts() {
    let mut cache = PayloadCache::new(2);
    cache.insert(1, Arc::new(vec![1]));
    cache.insert(2, Arc::new(vec![2]));
    cache.remove(1);
    cache.insert(3, Arc::new(vec![3]));
    // The oldest entry is 2, since 1 is gone.
    cache.insert(4, Arc::new(vec![4]));
    assert_eq!(cache.get(2), None);
    assert!(cache.get(3).is_some());
    assert!(cache.get(4).is_some());
    assert_eq!(cache.stats().2, 1);
}

#[test]
fn test_cache_survives_a_long_churn() {
    let mut cache = PayloadCache::new(4);
    for id in 0..1000u64 {
        cache.insert(id, Arc::new(id.to_be_bytes().to_vec()));
        if id % 3 == 0 {
            assert_eq!(cache.remove(id).unwrap().as_slice(), &id.to_be_bytes());
        } else {
            assert_eq!(cache.get(id).unwrap().as_slice(), &id.to_be_bytes());
        }
        assert!(cache.len() <= 4);
    }
}

#[test]
fn test_cache_clear_keeps_the_counters() {
    let mut cache = PayloadCache::new(2);
    cache.insert(1, Arc::new(vec![1]));
    assert!(cache.get(1).is_some());
    cache.clear();
    assert_eq!(cache.len(), 0);
    assert_eq!(cache.get(1), None);
    assert_eq!(cache.stats(), (1, 1, 0));
    assert_eq!(cache.capacity(), 2);
}

#[test]
fn test_cache_default_capacity() {
    let cache = PayloadCache::default();
    assert_eq!(cache.capacity(), DEFAULT_PAYLOAD_CACHE_CAPACITY);
    assert_eq!(cache.capacity(), 10_000);
}

#[test]
fn test_returning_id_is_the_newest() {
    let mut cache = PayloadCache::new(2);
    cache.insert(1, Arc::new(vec![1]));
    cache.insert(2, Arc::new(vec![2]));
    assert_eq!(cache.remove(1).unwrap().as_slice(), &[1]);
    cache.insert(1, Arc::new(vec![9]));
    cache.insert(3, Arc::new(vec![3]));

    assert_eq!(cache.get(2), None);
    assert_eq!(cache.get(1).unwrap().as_slice(), &[9]);
    assert_eq!(cache.get(3).unwrap().as_slice(), &[3]);
    assert_eq!(cache.len(), 2);
    assert_eq!(cache.stats().2, 1);
}

#[test]
fn test_the_last_inserted_are_held() {
    let mut cache = PayloadCache::new(3);
    for id in 1u64..=8 {
        cache.insert(id, Arc::new(vec![id as u8; 2]));
        cache.get(1);
        assert!(cache.len() <= 3);
        assert_eq!(cache.capacity(), 3);
    }
    for id in 1u64..=5 {
        assert_eq!(cache.get(id), None);
    }
    for id in 6u64..=8 {
        assert_eq!(cache.get(id).unwrap().as_slice(), &[id as u8; 2]);
    }
    assert_eq!(cache.stats().2, 5);
}

#[test]
fn test_clear_starts_anew() {
    let mut cache = PayloadCache::new(2);
    for id in 1u64..=3 {
        cache.insert(id, Arc::new(vec![id as u8]));
    }
    cache.get(3);
    cache.get(1);
    assert_eq!(cache.stats(), (1, 1, 1));

    cache.clear();
    assert_eq!(cache.len(), 0);
    assert_eq!(cache.capacity(), 2);
    assert_eq!(cache.stats(), (1, 1, 1));

    let mut other = PayloadCache::new(2);
    for id in 2u64..=4 {
        cache.insert(id, Arc::new(vec![id as u8]));
        other.insert(id, Arc::new(vec![id as u8]));
    }
    for id in 1u64..=4 {
        assert_eq!(cache.get(id), other.get(id));
    }
    let (hits, misses, evictions) = other.stats();
    assert_eq!(cache.stats(), (1 + hits, 1 + misses, 1 + evictions));
}

#[test]
fn test_cache_counters_balance() {
    let mut cache = PayloadCache::new(2);
    // Five ids enter: 1, 2, 3, 4 and 2 once more.
    cache.insert(1, Arc::new(vec![1]));
    cache.insert(2, Arc::new(vec![2]));
    cache.insert(2, Arc::new(vec![22]));
    cache.insert(3, Arc::new(vec![3]));
    assert_eq!(cache.stats().2, 1);
    assert!(cache.remove(2).is_some());
    assert!(cache.remove(2).is_none());
    cache.insert(4, Arc::new(vec![4]));
    let held = cache.len();
    assert_eq!(held, 2);
    cache.clear();
    cache.insert(2, Arc::new(vec![2]));
    assert_eq!(cache.get(2).unwrap().as_slice(), &[2]);
    assert_eq!(cache.get(4), None);
    // One is held, one was evicted, one removed and two cleared away.
    assert_eq!(cache.stats(), (1, 1, 1));
    assert_eq!(cache.len() as u64 + cache.stats().2 + 1 + held as u64, 5);
}

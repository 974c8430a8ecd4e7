use lfu::LFUCache;

#[test]
fn it_works() {
    let mut lfu = LFUCache::new(20).unwrap();
    lfu.set(10, 10);
    lfu.set(20, 30);
    assert_eq!(lfu.get(&10).unwrap(), &10);
    assert_eq!(lfu.get(&30), None);
}

#[test]
fn test_lru_eviction() {
    let mut lfu = LFUCache::new(2).unwrap();
    lfu.set(1, 1);
    lfu.set(2, 2);
    lfu.set(3, 3);
    assert_eq!(lfu.get(&1), None)
}

#[test]
fn test_key_frequency_update() {
    let mut lfu = LFUCache::new(2).unwrap();
    lfu.set(1, 1);
    lfu.set(2, 2);
    lfu.set(1, 3);

    lfu.set(10, 10);
    assert_eq!(lfu.get(&2), None);
    assert_eq!(*lfu.index(10), 10);
}

#[test]
fn test_lfu_indexing() {
    let mut lfu: LFUCache<u64> = LFUCache::new(2).unwrap();
    lfu.set(1, 1);
    assert_eq!(*lfu.index(1), 1);
}

#[test]
fn test_lfu_deletion() {
    let mut lfu = LFUCache::new(2).unwrap();
    lfu.set(1, 1);
    lfu.set(2, 2);
    lfu.remove(1);
    assert_eq!(lfu.get(&1), None);
    lfu.set(3, 3);
    lfu.set(4, 4);
    assert_eq!(lfu.get(&2), None);
    assert_eq!(lfu.get(&3), Some(&3));
}

#[test]
fn test_duplicates() {
    let mut lfu = LFUCache::new(2).unwrap();
    lfu.set(1, 1);
    lfu.set(1, 2);
    lfu.set(1, 3);
    assert_eq!(*lfu.index(1), 3);
}

#[test]
fn test_lfu_consumption() {
    let mut lfu = LFUCache::new(1).unwrap();
    lfu.set(1, 1);
    for (_, v) in lfu.into_entries() {
        assert_eq!(v, 1);
    }
}

#[test]
fn test_zero_capacity_rejected() {
    assert!(LFUCache::<u64>::new(0).is_err());
    assert!(LFUCache::<u64>::new(1).is_ok());
}

#[test]
fn test_capacity_bound_over_many_sets() {
    let mut lfu = LFUCache::new(3).unwrap();
    for k in 0..100u64 {
        lfu.set(k, k * 2);
        assert!(lfu.len() <= 3);
    }
    assert_eq!(lfu.len(), 3);
}

#[test]
fn test_doc_example_eviction() {
    let mut lfu = LFUCache::new(2).unwrap();
    lfu.set(2, 2);
    lfu.set(3, 3);
    lfu.set(3, 30);
    lfu.set(4, 4);
    assert_eq!(lfu.get(&2), None);
    assert_eq!(lfu.get(&3), Some(&30));
}

#[test]
fn test_get_counts_as_access() {
    let mut lfu = LFUCache::new(2).unwrap();
    lfu.set(1, 1);
    lfu.set(2, 2);
    assert_eq!(lfu.get(&1), Some(&1));
    lfu.set(3, 3);
    assert_eq!(lfu.get(&2), None);
    assert_eq!(lfu.get(&1), Some(&1));
    assert_eq!(lfu.get(&3), Some(&3));
}

#[test]
fn test_tie_break_oldest_at_count_leaves() {
    let mut lfu = LFUCache::new(2).unwrap();
    lfu.set(1, 1);
    lfu.set(2, 2);
    lfu.set(10, 10);
    assert_eq!(lfu.get(&1), None);
    assert_eq!(lfu.get(&2), Some(&2));
    assert_eq!(lfu.get(&10), Some(&10));
}

#[test]
fn test_removal_idempotence() {
    let mut lfu = LFUCache::new(2).unwrap();
    lfu.set(1, 1);
    assert!(!lfu.remove(5));
    assert_eq!(lfu.len(), 1);
    assert_eq!(lfu.get(&1), Some(&1));
    assert!(lfu.remove(1));
    assert_eq!(lfu.get(&1), None);
    assert!(!lfu.remove(1));
    assert_eq!(lfu.len(), 0);
}

#[test]
fn test_contains_and_len_do_not_touch_frequency() {
    let mut lfu = LFUCache::new(2).unwrap();
    lfu.set(1, 1);
    lfu.set(2, 2);
    assert_eq!(lfu.get(&2), Some(&2));
    assert!(lfu.contains(&1));
    assert_eq!(lfu.len(), 2);
    lfu.set(3, 3);
    assert_eq!(lfu.get(&1), None);
}

#[test]
fn test_iteration_does_not_mutate() {
    let mut lfu = LFUCache::new(2).unwrap();
    lfu.set(1, 1);
    lfu.set(2, 2);
    assert_eq!(lfu.get(&2), Some(&2));
    let mut pairs = lfu.entries();
    pairs.sort();
    assert_eq!(pairs, vec![(1, 1), (2, 2)]);
    lfu.set(3, 3);
    assert_eq!(lfu.get(&1), None);
    assert_eq!(lfu.get(&2), Some(&2));
    assert_eq!(lfu.get(&3), Some(&3));
}

#[test]
fn test_get_mut_updates_value_and_counts_as_access() {
    let mut lfu = LFUCache::new(2).unwrap();
    lfu.set(1, 1);
    lfu.set(2, 2);
    match lfu.get_mut(&1) {
        Some(v) => *v = 99,
        None => panic!("key 1 should be present"),
    }
    assert_eq!(lfu.get_mut(&5), None);
    lfu.set(3, 3);
    assert_eq!(lfu.get(&2), None);
    assert_eq!(lfu.get(&1), Some(&99));
}

#[test]
fn test_value_counter_inc() {
    let mut vc = lfu::ValueCounter { value: 7u64, count: 1 };
    vc.inc();
    vc.inc();
    assert_eq!(vc.count, 3);
    assert_eq!(vc.value, 7);
}

#[test]
fn test_capacity_one_cycles() {
    let mut lfu = LFUCache::new(1).unwrap();
    lfu.set(1, 1);
    lfu.set(2, 2);
    assert_eq!(lfu.get(&1), None);
    assert_eq!(lfu.get(&2), Some(&2));
    assert!(lfu.remove(2));
    assert_eq!(lfu.len(), 0);
    lfu.set(3, 3);
    assert_eq!(lfu.get(&3), Some(&3));
    assert_eq!(lfu.len(), 1);
}

#[test]
fn test_empty_cache_queries() {
    let mut lfu: LFUCache<u64> = LFUCache::new(3).unwrap();
    assert_eq!(lfu.len(), 0);
    assert!(!lfu.contains(&1));
    assert_eq!(lfu.get(&1), None);
    assert!(!lfu.remove(1));
    assert!(lfu.entries().is_empty());
}

use lru_cache::Cache;

#[test]
fn test_cache_basic() {
    let mut cache = Cache::new(2);
    cache.push(vec![1], vec![10]);
    cache.push(vec![2], vec![20]);
}

#[test]
fn test_cache_eviction() {
    let mut cache = Cache::new(2);
    cache.push(vec![1], vec![10]);
    cache.push(vec![2], vec![20]);
    cache.push(vec![3], vec![30]); // This should evict key [1]

    assert!(cache.get(&vec![1]).is_none());
    assert_eq!(cache.get(&vec![2]), Some(vec![20]));
    assert_eq!(cache.get(&vec![3]), Some(vec![30]));
}

#[test]
fn get_promotes_before_eviction() {
    let mut cache = Cache::new(2);
    cache.push(vec![1], vec![10]);
    cache.push(vec![2], vec![20]);
    assert_eq!(cache.get(&vec![1]), Some(vec![10])); // promotes key [1]
    cache.push(vec![3], vec![30]); // evicts key [2], not the promoted [1]

    assert!(cache.get(&vec![2]).is_none());
    assert_eq!(cache.get(&vec![1]), Some(vec![10]));
    assert_eq!(cache.get(&vec![3]), Some(vec![30]));
}

#[test]
fn update_at_capacity_one() {
    let mut cache = Cache::new(1);
    cache.push(vec![1], vec![10]);
    cache.push(vec![1], vec![20]);

    assert_eq!(cache.get(&vec![1]), Some(vec![20]));
    assert_eq!(cache.len(), 1);
}

#[test]
fn update_does_not_evict() {
    let mut cache = Cache::new(2);
    cache.push(vec![1], vec![10]);
    cache.push(vec![2], vec![20]);
    cache.push(vec![2], vec![21]); // update only: no eviction

    assert_eq!(cache.len(), 2);
    assert_eq!(cache.get(&vec![1]), Some(vec![10]));
    assert_eq!(cache.get(&vec![2]), Some(vec![21]));
}

#[test]
fn miss_on_empty_cache() {
    let mut cache = Cache::new(3);
    assert!(cache.get(&vec![9]).is_none());
    assert_eq!(cache.len(), 0);
}

#[test]
fn items_walk_in_recency_order() {
    let mut cache = Cache::new(3);
    cache.push(vec![1], vec![10]);
    cache.push(vec![2], vec![20]);
    cache.push(vec![3], vec![30]);
    assert_eq!(cache.get(&vec![1]), Some(vec![10])); // promotes key [1]

    let items = cache.items();
    assert_eq!(items.len(), 3);
    assert_eq!(items[0], (vec![1], vec![10]));
    assert_eq!(items[1], (vec![3], vec![30]));
    assert_eq!(items[2], (vec![2], vec![20]));
}

#[test]
fn capacity_is_fixed() {
    let cache = Cache::new(5);
    assert_eq!(cache.capacity(), 5);
    assert_eq!(cache.len(), 0);
}

#[test]
fn empty_key_and_value() {
    let mut cache = Cache::new(2);
    cache.push(vec![], vec![]);
    assert_eq!(cache.get(&vec![]), Some(vec![]));
}

#[test]
fn longer_keys_compared_by_content() {
    let mut cache = Cache::new(2);
    cache.push(b"alpha".to_vec(), b"one".to_vec());
    cache.push(b"beta".to_vec(), b"two".to_vec());

    assert_eq!(cache.get(&b"alpha".to_vec()), Some(b"one".to_vec()));
    assert!(cache.get(&b"gamma".to_vec()).is_none());
}

#[test]
fn size_never_exceeds_capacity() {
    let mut cache = Cache::new(3);
    let mut k: u8 = 0;
    while k < 10 {
        cache.push(vec![k], vec![k]);
        assert!(cache.len() <= 3);
        k += 1;
    }
    assert_eq!(cache.len(), 3);
    assert!(cache.get(&vec![0]).is_none());
    assert_eq!(cache.get(&vec![9]), Some(vec![9]));
}

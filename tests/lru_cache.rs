use fast_lru::lru::LRUCache;

#[test]
fn make_lru() {
    let mut lru: LRUCache<u64, u64> = LRUCache::new(5);

    lru.add(1, 1);
    lru.add(2, 2);

    assert_eq!(lru.get_first(), Some(2));
    lru.get(1);
    assert_eq!(lru.get_first(), Some(1));

    lru.get(2);
    assert_eq!(lru.get_first(), Some(2));

    lru.add(3, 3);
    assert_eq!(lru.get_first(), Some(3));
}

#[test]
fn test_eviction() {
    let mut lru: LRUCache<u64, u64> = LRUCache::new(1);

    let res = lru.add(1, 1);
    assert!(res.is_none());

    let res = lru.add(2, 2);
    assert_eq!(Some((1, 1)), res);

    assert_eq!(lru.get_first(), Some(2));

    let value = lru.get(1);
    assert_eq!(None, value);

    let value = lru.get(2);
    assert_eq!(Some(2), value);
}

#[test]
fn test_peek() {
    let mut lru: LRUCache<u64, u64> = LRUCache::new(5);

    lru.add(1, 1);
    lru.add(2, 2);

    assert_eq!(lru.get_first(), Some(2));
    lru.peek(1);
    assert_eq!(lru.get_first(), Some(2));

    lru.get(1);
    assert_eq!(lru.get_first(), Some(1));
}

#[test]
fn test_remove() {
    let mut lru: LRUCache<u64, u64> = LRUCache::new(5);

    lru.add(1, 1);
    lru.add(2, 2);
    assert_eq!(lru.len(), 2);
    assert_eq!(lru.get_first(), Some(2));
    lru.remove(1);
    assert_eq!(lru.get_first(), Some(2));
    assert_eq!(lru.get_last(), Some(2));
    assert_eq!(lru.len(), 1);

    let value = lru.get(1);
    assert!(value.is_none())
}

#[test]
fn test_update() {
    let mut lru: LRUCache<u64, u64> = LRUCache::new(5);
    lru.add(1, 1);
    lru.add(2, 2);
    lru.add(1, 3);
    assert_eq!(lru.len(), 2);
    assert_eq!(lru.get_first(), Some(3));
}

use fast_lru::lru::LRUCache;

#[test]
fn empty_cache_has_no_first_or_last() {
    let mut lru: LRUCache<u64, u64> = LRUCache::new(5);
    assert_eq!(lru.len(), 0);
    assert!(lru.is_empty());
    assert_eq!(lru.get_first(), None);
    assert_eq!(lru.get_last(), None);
}

#[test]
fn zero_capacity_evicts_each_new_entry_at_once() {
    let mut lru: LRUCache<u64, u64> = LRUCache::new(0);
    assert_eq!(lru.add(7, 70), Some((7, 70)));
    assert_eq!(lru.len(), 0);
    assert!(lru.is_empty());
    assert_eq!(lru.get(7), None);
    assert_eq!(lru.get_first(), None);
}

#[test]
fn len_stays_within_capacity_and_counts_found_keys() {
    let mut lru: LRUCache<u64, u64> = LRUCache::new(3);
    for k in 0..10u64 {
        lru.add(k, k * 10);
        assert!(lru.len() <= 3);
        lru.get(k / 2);
        lru.peek(k);
        if k % 4 == 3 {
            lru.remove(k - 1);
        }
        let mut found: usize = 0;
        for q in 0..10u64 {
            if lru.peek(q).is_some() {
                found += 1;
            }
        }
        assert_eq!(found, lru.len());
    }
}

#[test]
fn full_add_evicts_least_recently_used() {
    let mut lru: LRUCache<u64, u64> = LRUCache::new(3);
    assert_eq!(lru.add(1, 10), None);
    assert_eq!(lru.add(2, 20), None);
    assert_eq!(lru.add(3, 30), None);
    assert_eq!(lru.get(1), Some(10));
    assert_eq!(lru.add(2, 21), None);
    assert_eq!(lru.add(4, 40), Some((3, 30)));
    assert_eq!(lru.len(), 3);
    assert_eq!(lru.peek(3), None);
    assert_eq!(lru.get_last(), Some(10));
    assert_eq!(lru.add(5, 50), Some((1, 10)));
}

#[test]
fn peek_keeps_the_order() {
    let mut lru: LRUCache<u64, u64> = LRUCache::new(3);
    lru.add(1, 10);
    lru.add(2, 20);
    lru.add(3, 30);
    assert_eq!(lru.peek(1), Some(10));
    assert_eq!(lru.peek(1), Some(10));
    assert_eq!(lru.get_first(), Some(30));
    assert_eq!(lru.get_last(), Some(10));
    assert_eq!(lru.add(4, 40), Some((1, 10)));
    assert_eq!(lru.peek(9), None);
}

#[test]
fn get_and_update_promote() {
    let mut lru: LRUCache<u64, u64> = LRUCache::new(3);
    lru.add(1, 10);
    lru.add(2, 20);
    lru.add(3, 30);
    assert_eq!(lru.get(2), Some(20));
    assert_eq!(lru.get_first(), Some(20));
    lru.add(1, 11);
    assert_eq!(lru.get_first(), Some(11));
    assert_eq!(lru.get_last(), Some(30));
    assert_eq!(lru.get(9), None);
    assert_eq!(lru.get_first(), Some(11));
}

#[test]
fn add_then_get_round_trip() {
    let mut lru: LRUCache<u64, u64> = LRUCache::new(2);
    lru.add(1, 1);
    lru.add(2, 2);
    lru.add(3, 33);
    assert_eq!(lru.get(3), Some(33));
    lru.add(2, 22);
    assert_eq!(lru.get(2), Some(22));
}

#[test]
fn remove_returns_value_and_frees_room() {
    let mut lru: LRUCache<u64, u64> = LRUCache::new(2);
    lru.add(1, 10);
    lru.add(2, 20);
    assert_eq!(lru.remove(1), Some(10));
    assert_eq!(lru.remove(1), None);
    assert_eq!(lru.len(), 1);
    assert_eq!(lru.add(3, 30), None);
    assert_eq!(lru.add(4, 40), Some((2, 20)));
    assert_eq!(lru.remove(3), Some(30));
    assert_eq!(lru.remove(4), Some(40));
    assert!(lru.is_empty());
    assert_eq!(lru.get_first(), None);
    assert_eq!(lru.add(5, 50), None);
    assert_eq!(lru.get_first(), Some(50));
    assert_eq!(lru.get_last(), Some(50));
}

#[test]
fn many_operations_keep_the_list_consistent() {
    let mut lru: LRUCache<u64, u64> = LRUCache::new(4);
    for k in 0..100u64 {
        lru.add(k % 7, k);
        if k % 3 == 0 {
            lru.remove((k + 2) % 7);
        }
        if k % 5 == 0 {
            lru.get((k + 1) % 7);
        }
    }
    assert!(lru.len() <= 4);
    let first = lru.get_first().unwrap();
    assert_eq!(lru.peek(first % 7), Some(first));
}

use lru_cache::lru::{LRUOperators, LRU};

#[test]
fn new_cache_is_empty() {
    let lru = LRU::new(3);
    assert_eq!(lru.len(), 0);
    assert_eq!(lru.first(), None);
    assert_eq!(lru.last(), None);
    assert_eq!(lru.capacity(), 3);
    assert_eq!(lru.entries_in_order(), Vec::<(i32, i32)>::new());
}

#[test]
fn get_on_empty_cache_misses() {
    let mut lru = LRU::new(1);
    assert_eq!(lru.get(7), None);
    assert_eq!(lru.len(), 0);
}

#[test]
fn len_never_exceeds_capacity() {
    let mut lru = LRU::new(3);
    for k in 0..20 {
        lru.put(k, k * 10);
        assert!(lru.len() <= 3);
    }
    assert_eq!(lru.len(), 3);
    assert_eq!(lru.entries_in_order(), vec![(19, 190), (18, 180), (17, 170)]);
}

#[test]
fn full_cache_evicts_exactly_the_least_recent() {
    let mut lru = LRU::new(3);
    lru.put(1, 10);
    lru.put(2, 20);
    lru.put(3, 30);
    lru.put(4, 40);
    assert_eq!(lru.len(), 3);
    assert_eq!(lru.entries_in_order(), vec![(4, 40), (3, 30), (2, 20)]);
    assert_eq!(lru.get(1), None);
}

#[test]
fn miss_leaves_state_alone() {
    let mut lru = LRU::new(3);
    lru.put(1, 10);
    lru.put(2, 20);
    let before = lru.entries_in_order();
    assert_eq!(lru.get(9), None);
    assert_eq!(lru.entries_in_order(), before);
    assert_eq!(lru.first(), Some(&(2, 20)));
    assert_eq!(lru.last(), Some(&(1, 10)));
    assert_eq!(lru.len(), 2);
}

#[test]
fn hit_promotes_to_front() {
    let mut lru = LRU::new(3);
    lru.put(1, 10);
    lru.put(2, 20);
    lru.put(3, 30);
    assert_eq!(lru.get(1), Some(10));
    assert_eq!(lru.first(), Some(&(1, 10)));
    assert_eq!(lru.entries_in_order(), vec![(1, 10), (3, 30), (2, 20)]);
    assert_eq!(lru.get(3), Some(30));
    assert_eq!(lru.entries_in_order(), vec![(3, 30), (1, 10), (2, 20)]);
}

#[test]
fn hit_in_the_middle_keeps_the_rest_in_order() {
    let mut lru = LRU::new(4);
    lru.put(1, 1);
    lru.put(2, 2);
    lru.put(3, 3);
    lru.put(4, 4);
    assert_eq!(lru.get(3), Some(3));
    assert_eq!(lru.entries_in_order(), vec![(3, 3), (4, 4), (2, 2), (1, 1)]);
    assert_eq!(lru.get(1), Some(1));
    assert_eq!(lru.entries_in_order(), vec![(1, 1), (3, 3), (4, 4), (2, 2)]);
}

#[test]
fn overwrite_refreshes_and_keeps_len() {
    let mut lru = LRU::new(3);
    lru.put(1, 10);
    lru.put(2, 20);
    lru.put(3, 30);
    lru.put(1, 11);
    assert_eq!(lru.len(), 3);
    assert_eq!(lru.first(), Some(&(1, 11)));
    assert_eq!(lru.entries_in_order(), vec![(1, 11), (3, 30), (2, 20)]);
    lru.put(4, 40);
    assert_eq!(lru.get(2), None);
    assert_eq!(lru.get(1), Some(11));
}

#[test]
fn overwrite_of_the_only_entry() {
    let mut lru = LRU::new(1);
    lru.put(5, 1);
    lru.put(5, 2);
    assert_eq!(lru.len(), 1);
    assert_eq!(lru.first(), Some(&(5, 2)));
    assert_eq!(lru.last(), Some(&(5, 2)));
}

#[test]
fn eviction_order_first_key_goes() {
    let mut lru = LRU::new(3);
    lru.put(10, 1);
    lru.put(20, 2);
    lru.put(30, 3);
    lru.put(40, 4);
    assert_eq!(lru.get(10), None);
    assert_eq!(lru.get(20), Some(2));
    assert_eq!(lru.get(30), Some(3));
    assert_eq!(lru.get(40), Some(4));
}

#[test]
fn capacity_one_keeps_the_latest() {
    let mut lru = LRU::new(1);
    lru.put(1, 1);
    lru.put(2, 2);
    assert_eq!(lru.len(), 1);
    assert_eq!(lru.get(1), None);
    assert_eq!(lru.first(), Some(&(2, 2)));
    assert_eq!(lru.last(), Some(&(2, 2)));
}

#[test]
fn extreme_keys_and_values() {
    let mut lru = LRU::new(2);
    lru.put(i32::MIN, i32::MAX);
    lru.put(i32::MAX, i32::MIN);
    assert_eq!(lru.get(i32::MIN), Some(i32::MAX));
    assert_eq!(lru.entries_in_order(), vec![(i32::MIN, i32::MAX), (i32::MAX, i32::MIN)]);
}

#[test]
fn scenario_b_evicts_key_one() {
    let mut lru = LRU::new(2);
    lru.put(1, 2);
    lru.put(2, 5);
    lru.put(3, 4);
    assert_eq!(lru.len(), 2);
    assert_eq!(lru.get(1), None);
}

#[test]
fn scenario_a_len_after_get() {
    let mut lru = LRU::new(2);
    lru.put(1, 23);
    lru.put(2, 53);
    assert_eq!(lru.get(2), Some(53));
    assert_eq!(lru.len(), 2);
}

#[test]
fn slots_are_reused_after_many_evictions() {
    let mut lru = LRU::new(2);
    for k in 0..100 {
        lru.put(k % 7, k);
        if k % 3 == 0 {
            lru.get((k + 1) % 7);
        }
    }
    assert_eq!(lru.len(), 2);
    assert!(lru.first().is_some());
    assert!(lru.last().is_some());
    assert_ne!(lru.first(), lru.last());
}

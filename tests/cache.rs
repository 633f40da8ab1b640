use lru_cache::lru;
use lru_cache::lru::LRUOperators;

#[test]
fn test_get_put_fn() {
    let mut lru = lru::LRU::new(2);
    lru.put(1, 23);
    lru.put(2, 53);
    let get = lru.get(2);
    assert_eq!(get, Some(53));
}

#[test]
fn test_len_fn() {
    let mut lru = lru::LRU::new(2);
    lru.put(1, 2);
    assert_eq!(lru.len(), 1);
    lru.put(2, 5);
    assert_eq!(lru.len(), 2);
    lru.put(3, 4);
    assert_eq!(lru.len(), 2);
}

#[test]
fn test_order_no_overflow() {
    let mut lru = lru::LRU::new(3);
    lru.put(1, 23);
    lru.put(2, 353);
    lru.put(4, 3);

    lru.get(2);
    assert_eq!(lru.first(), Some(&(2, 353)));

    lru.get(4);
    assert_eq!(lru.first(), Some(&(4, 3)));

    let get_three = lru.get(3);
    assert_eq!(get_three, None);

    assert_eq!(lru.last(), Some(&(1, 23)));
}

#[test]
fn test_order_with_overflow() {
    let mut lru = lru::LRU::new(2);
    lru.put(1, 2);
    lru.put(2, 3);

    lru.get(2);
    assert_eq!(lru.first(), Some(&(2, 3)));

    lru.put(3, 5);
    assert_eq!(lru.get(1), None);
    assert_eq!(lru.first(), Some(&(3, 5)));
    assert_eq!(lru.last(), Some(&(2, 3)));

    lru.put(5, 22);
    assert_eq!(lru.first(), Some(&(5, 22)));
    assert_eq!(lru.last(), Some(&(3, 5)));
}

#[test]
fn test_put_with_duplicate_key() {
    let mut lru = lru::LRU::new(2);
    lru.put(1, 2);
    lru.put(3, 4);
    lru.put(3, 22);

    assert_eq!(lru.len(), 2);
    assert_eq!(lru.first(), Some(&(3, 22)));
    assert_eq!(lru.get(3), Some(22));
    assert_eq!(lru.last(), Some(&(1, 2)));
}

use nodegraph::handle_map::HandleMap;

#[test]
fn insert_then_get_returns_value() {
    let mut map = HandleMap::new();
    let h = map.insert(42u32);
    assert_eq!(map.get(&h), Some(&42));
    assert!(map.contains(&h));
    assert_eq!(map.len(), 1);
    assert!(!map.is_empty());
}

#[test]
fn new_map_is_empty() {
    let map: HandleMap<u8> = HandleMap::new();
    assert_eq!(map.len(), 0);
    assert!(map.is_empty());
    assert!(map.handles().is_empty());
    assert!(map.values().collect().is_empty());
}

#[test]
fn handles_are_unique_across_reuse() {
    let mut map = HandleMap::new();
    let a = map.insert("a");
    let b = map.insert("b");
    assert_ne!(a, b);
    assert_eq!(map.remove(&a), Some("a"));
    let c = map.insert("c");
    // c reuses a's slot, yet is a different handle
    assert_ne!(a, c);
    assert_ne!(b, c);
    assert_eq!(map.len(), 2);
}

#[test]
fn stale_handle_is_rejected() {
    let mut map = HandleMap::new();
    let a = map.insert(1u64);
    assert_eq!(map.remove(&a), Some(1));
    assert_eq!(map.get(&a), None);
    assert_eq!(map.get_mut(&a), None);
    assert!(!map.contains(&a));
    assert_eq!(map.remove(&a), None);
    let b = map.insert(2u64);
    assert_eq!(map.get(&a), None);
    assert_eq!(map.get_mut(&a), None);
    assert!(!map.contains(&a));
    assert_eq!(map.remove(&a), None);
    assert_eq!(map.get(&b), Some(&2));
}

#[test]
fn removal_keeps_the_slot() {
    let mut map = HandleMap::new();
    let a = map.insert(1u8);
    let _b = map.insert(2u8);
    map.remove(&a);
    assert_eq!(map.len(), 2);
    assert!(!map.is_empty());
}

#[test]
fn insert_fills_lowest_empty_slot() {
    let mut map = HandleMap::new();
    let a = map.insert(1u8);
    let b = map.insert(2u8);
    let c = map.insert(3u8);
    map.remove(&c);
    map.remove(&a);
    let d = map.insert(4u8);
    assert_eq!(map.len(), 3);
    assert_eq!(map.handles(), vec![d, b]);
    assert_eq!(map.values().collect(), vec![&4u8, &2u8]);
}

#[test]
fn get_mut_writes_through() {
    let mut map = HandleMap::new();
    let h = map.insert(String::from("x"));
    map.get_mut(&h).unwrap().push('y');
    assert_eq!(map.get(&h).map(|s| s.as_str()), Some("xy"));
}

#[test]
fn foreign_handle_is_rejected() {
    let mut small = HandleMap::new();
    let mut big = HandleMap::new();
    let _s = small.insert(1u8);
    let _b0 = big.insert(10u8);
    let b1 = big.insert(11u8);
    // out of range for the small map
    assert_eq!(small.get(&b1), None);
    assert!(!small.contains(&b1));
    assert_eq!(small.remove(&b1), None);
    assert_eq!(small.len(), 1);
}

#[test]
fn values_and_handles_in_slot_order_skip_empty() {
    let mut map = HandleMap::new();
    let a = map.insert('a');
    let b = map.insert('b');
    let c = map.insert('c');
    map.remove(&b);
    assert_eq!(map.handles(), vec![a, c]);
    assert_eq!(map.handles_mut(), vec![a, c]);
    let mut it = map.values();
    assert_eq!(it.next(), Some(&'a'));
    assert_eq!(it.next(), Some(&'c'));
    assert_eq!(it.next(), None);
    assert_eq!(it.next(), None);
}

#[test]
fn handle_from_another_map_at_same_slot_is_rejected() {
    let mut first = HandleMap::new();
    let mut second = HandleMap::new();
    let a = first.insert(1u8);
    let b = second.insert(2u8);
    assert_ne!(a, b);
    assert_eq!(first.get(&b), None);
    assert_eq!(second.get(&a), None);
    assert!(!first.contains(&b));
    assert_eq!(first.remove(&b), None);
    assert_eq!(first.get(&a), Some(&1));
}

use xenon::account_map::AccountMap;

#[test]
fn insert_get_and_order() {
    let mut m: AccountMap<u32> = AccountMap::new();
    assert_eq!(m.insert(5, 50), None);
    assert_eq!(m.insert(2, 20), None);
    assert_eq!(m.insert(5, 55), Some(50));
    assert_eq!(m.len(), 2);
    assert_eq!(m.get(5), Some(&55));
    assert_eq!(m.get(7), None);
    assert!(m.contains_key(2));
    // a stored key keeps its position
    assert_eq!(m.entry_at(0), (5, &55));
    assert_eq!(m.entry_at(1), (2, &20));
}

#[test]
fn remove_and_clear() {
    let mut m: AccountMap<u32> = AccountMap::new();
    m.insert(1, 10);
    m.insert(2, 20);
    m.insert(3, 30);
    assert_eq!(m.remove(2), Some(20));
    assert_eq!(m.remove(2), None);
    assert_eq!(m.len(), 2);
    assert_eq!(m.entry_at(1), (3, &30));
    m.clear();
    assert_eq!(m.len(), 0);
    assert!(!m.contains_key(1));
}

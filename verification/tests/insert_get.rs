use bptree::BTreeMap;

#[test]
fn empty_map_has_nothing() {
    let m = BTreeMap::new();
    assert_eq!(m.len(), 0);
    assert!(m.is_empty());
    assert_eq!(m.get(&3), None);
}

#[test]
fn insert_then_get() {
    let mut m = BTreeMap::new();
    assert_eq!(m.insert(5, 50), None);
    assert_eq!(m.insert(1, 10), None);
    assert_eq!(m.insert(9, 90), None);
    assert_eq!(m.len(), 3);
    assert_eq!(m.get(&5), Some(&50));
    assert_eq!(m.get(&1), Some(&10));
    assert_eq!(m.get(&9), Some(&90));
    assert_eq!(m.get(&2), None);
}

#[test]
fn insert_existing_key_replaces_value() {
    let mut m = BTreeMap::new();
    assert_eq!(m.insert(7, 1), None);
    assert_eq!(m.insert(7, 2), Some(1));
    assert_eq!(m.len(), 1);
    assert_eq!(m.get(&7), Some(&2));
}

#[test]
fn many_inserts_in_scattered_order() {
    let mut m = BTreeMap::new();
    let n: u64 = 2000;
    let mut k: u64 = 1;
    for i in 0..n {
        k = (k * 7919 + 13) % 100_003;
        let had = m.get(&k).copied();
        assert_eq!(m.insert(k, i), had);
    }
    let mut k: u64 = 1;
    let mut last = std::collections::BTreeMap::new();
    for i in 0..n {
        k = (k * 7919 + 13) % 100_003;
        last.insert(k, i);
    }
    assert_eq!(m.len(), last.len());
    for (k, v) in last.iter() {
        assert_eq!(m.get(k), Some(v));
    }
    assert_eq!(m.get(&100_004), None);
}

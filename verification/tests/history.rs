use bptree::BTreeMap;

// The most recent insertion of a key that no removal followed decides what a
// lookup gives.
#[test]
fn lookup_follows_the_latest_change() {
    let mut m = BTreeMap::new();
    assert_eq!(m.insert(3, 1), None);
    assert_eq!(m.insert(4, 2), None);
    assert_eq!(m.insert(3, 5), Some(1));
    assert_eq!(m.remove(&4), Some(2));
    assert_eq!(m.insert(9, 9), None);
    assert_eq!(m.get(&3), Some(&5));
    assert_eq!(m.get(&4), None);
    assert_eq!(m.get(&9), Some(&9));
    assert_eq!(m.get(&1), None);
    assert_eq!(m.insert(4, 7), None);
    assert_eq!(m.get(&4), Some(&7));
}

#[test]
fn len_counts_live_keys() {
    let mut m = BTreeMap::new();
    assert_eq!(m.len(), 0);
    m.insert(1, 1);
    assert_eq!(m.len(), 1);
    m.insert(1, 2);
    assert_eq!(m.len(), 1);
    m.insert(2, 2);
    assert_eq!(m.len(), 2);
    m.remove(&3);
    assert_eq!(m.len(), 2);
    m.remove(&1);
    assert_eq!(m.len(), 1);
    m.remove(&1);
    assert_eq!(m.len(), 1);
    m.remove(&2);
    assert_eq!(m.len(), 0);
    assert!(m.is_empty());
}

#[test]
fn insert_twice_then_get() {
    let mut m = BTreeMap::new();
    assert_eq!(m.insert(11, 1), None);
    assert_eq!(m.insert(11, 2), Some(1));
    assert_eq!(m.get(&11), Some(&2));
}

#[test]
fn remove_twice() {
    let mut m = BTreeMap::new();
    for k in 0..50u64 {
        m.insert(k, k);
    }
    assert_eq!(m.remove(&25), Some(25));
    let after_first = m.to_vec();
    assert_eq!(m.remove(&25), None);
    assert_eq!(m.to_vec(), after_first);
    assert_eq!(m.len(), 49);
}

#[test]
fn is_empty_only_without_keys() {
    let mut m = BTreeMap::new();
    assert!(m.is_empty());
    m.insert(0, 0);
    assert!(!m.is_empty());
    m.remove(&0);
    assert!(m.is_empty());
}

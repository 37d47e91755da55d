use bptree::BTreeMap;

#[test]
fn remove_from_empty_map() {
    let mut m = BTreeMap::new();
    assert_eq!(m.remove(&1), None);
    assert_eq!(m.len(), 0);
}

#[test]
fn remove_twice_gives_value_then_nothing() {
    let mut m = BTreeMap::new();
    m.insert(4, 40);
    m.insert(2, 20);
    assert_eq!(m.remove(&4), Some(40));
    assert_eq!(m.remove(&4), None);
    assert_eq!(m.len(), 1);
    assert_eq!(m.get(&2), Some(&20));
    assert_eq!(m.get(&4), None);
}

#[test]
fn remove_absent_key_changes_nothing() {
    let mut m = BTreeMap::new();
    for k in 0..20u64 {
        m.insert(2 * k, k);
    }
    assert_eq!(m.remove(&7), None);
    assert_eq!(m.len(), 20);
    for k in 0..20u64 {
        assert_eq!(m.get(&(2 * k)), Some(&k));
    }
}

#[test]
fn insert_eight_then_remove_in_reverse() {
    let mut m = BTreeMap::new();
    for k in 1..=8u64 {
        assert_eq!(m.insert(k, 10 * k), None);
        assert_eq!(m.len(), k as usize);
    }
    for k in (1..=8u64).rev() {
        assert_eq!(m.remove(&k), Some(10 * k));
        assert_eq!(m.len(), (k - 1) as usize);
        for q in 1..k {
            assert_eq!(m.get(&q), Some(&(10 * q)));
        }
    }
    assert!(m.is_empty());
}

#[test]
fn scattered_inserts_then_scattered_removals() {
    let mut m = BTreeMap::new();
    let mut model = std::collections::BTreeMap::new();
    let n: u64 = 3000;
    let mut k: u64 = 17;
    for i in 0..n {
        k = (k * 48271 + 11) % 65_537;
        assert_eq!(m.insert(k, i), model.insert(k, i));
    }
    assert_eq!(m.len(), model.len());
    let mut k: u64 = 5;
    for _ in 0..(4 * n) {
        k = (k * 69621 + 7) % 65_537;
        assert_eq!(m.remove(&k), model.remove(&k));
        assert_eq!(m.len(), model.len());
    }
    for (k, v) in model.iter() {
        assert_eq!(m.get(k), Some(v));
    }
    let left: Vec<u64> = model.keys().copied().collect();
    for k in left {
        assert_eq!(m.remove(&k), model.remove(&k));
    }
    assert!(m.is_empty());
    assert_eq!(m.len(), 0);
}

#[test]
fn slots_are_reused_after_removal() {
    let mut m = BTreeMap::new();
    for round in 0..5u64 {
        for k in 0..500u64 {
            assert_eq!(m.insert(k, k + round), None);
        }
        for k in 0..500u64 {
            assert_eq!(m.remove(&k), Some(k + round));
        }
        assert!(m.is_empty());
    }
}

use bptree::BTreeMap;

#[test]
fn get_mut_of_absent_key() {
    let mut m = BTreeMap::new();
    assert_eq!(m.get_mut(&1), None);
    m.insert(2, 20);
    assert_eq!(m.get_mut(&1), None);
    assert_eq!(m.len(), 1);
}

#[test]
fn write_through_get_mut() {
    let mut m = BTreeMap::new();
    for k in 0..100u64 {
        m.insert(k, k);
    }
    match m.get_mut(&42) {
        Some(v) => {
            assert_eq!(*v, 42);
            *v = 4200;
        }
        None => panic!("key 42 is present"),
    }
    assert_eq!(m.get(&42), Some(&4200));
    assert_eq!(m.get(&41), Some(&41));
    assert_eq!(m.get(&43), Some(&43));
    assert_eq!(m.len(), 100);
    assert!(m.is_balanced());
    assert_eq!(m.remove(&42), Some(4200));
}

#[test]
fn get_mut_on_every_key() {
    let mut m = BTreeMap::new();
    for k in 0..300u64 {
        m.insert(3 * k, 0);
    }
    for k in 0..300u64 {
        if let Some(v) = m.get_mut(&(3 * k)) {
            *v += k;
        }
        assert_eq!(m.get_mut(&(3 * k + 1)), None);
    }
    let all = m.to_vec();
    for (i, e) in all.iter().enumerate() {
        assert_eq!(*e, (3 * i as u64, i as u64));
    }
}

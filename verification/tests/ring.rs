use bptree::BTreeMap;

#[test]
fn walk_reads_keys_in_increasing_order() {
    let mut m = BTreeMap::new();
    let mut k: u64 = 99;
    for i in 0..1500u64 {
        k = (k * 25214903917 + 11) % 1_000_003;
        m.insert(k, i);
    }
    let all = m.to_vec();
    assert_eq!(all.len(), m.len());
    for w in all.windows(2) {
        assert!(w[0].0 < w[1].0);
    }
    for (k, v) in all.iter() {
        assert_eq!(m.get(k), Some(v));
    }
}

#[test]
fn walk_agrees_with_a_sorted_reference() {
    let mut m = BTreeMap::new();
    let mut model = std::collections::BTreeMap::new();
    let mut k: u64 = 7;
    for i in 0..2000u64 {
        k = (k * 1103515245 + 12345) % 4096;
        if i % 3 == 2 {
            assert_eq!(m.remove(&k), model.remove(&k));
        } else {
            assert_eq!(m.insert(k, i), model.insert(k, i));
        }
        assert!(m.is_balanced());
    }
    let want: Vec<(u64, u64)> = model.into_iter().collect();
    assert_eq!(m.to_vec(), want);
}

#[test]
fn walk_after_leaves_were_fused() {
    let mut m = BTreeMap::new();
    for k in 0..64u64 {
        m.insert(k, k);
    }
    for k in 0..64u64 {
        if k % 4 != 0 {
            assert_eq!(m.remove(&k), Some(k));
        }
    }
    let want: Vec<(u64, u64)> = (0..16u64).map(|k| (4 * k, 4 * k)).collect();
    assert_eq!(m.to_vec(), want);
    assert_eq!(m.len(), 16);
    assert!(m.is_balanced());
}

use bptree::{BTreeMap, MAX_LEN, MIN_LEN};

fn scramble(n: u64, seed: u64) -> Vec<u64> {
    let mut keys: Vec<u64> = (0..n).collect();
    let mut s = seed;
    let mut i = keys.len();
    while i > 1 {
        s = s.wrapping_mul(6364136223846793005).wrapping_add(1442695040888963407);
        let j = ((s >> 33) % (i as u64)) as usize;
        i -= 1;
        keys.swap(i, j);
    }
    keys
}

#[test]
fn occupancy_constants() {
    assert_eq!(MIN_LEN, 4);
    assert_eq!(MAX_LEN, 7);
    assert_eq!(MAX_LEN, 2 * MIN_LEN - 1);
}

#[test]
fn new_map_has_no_levels() {
    let m = BTreeMap::new();
    assert_eq!(m.height(), 0);
    assert_eq!(m.leaf_count(), 0);
    assert!(m.is_balanced());
    assert_eq!(m.to_vec(), vec![]);
}

#[test]
fn seven_keys_fit_in_the_root_leaf() {
    let mut m = BTreeMap::new();
    for k in 1..=7u64 {
        m.insert(k, k);
        assert_eq!(m.height(), 1);
        assert_eq!(m.leaf_count(), 1);
        assert!(m.is_balanced());
    }
}

#[test]
fn eighth_key_divides_the_root_leaf() {
    let mut m = BTreeMap::new();
    for k in 1..=7u64 {
        assert_eq!(m.insert(k, 100 + k), None);
        assert_eq!(m.len(), k as usize);
    }
    assert_eq!(m.height(), 1);
    assert_eq!(m.insert(8, 108), None);
    assert_eq!(m.len(), 8);
    assert_eq!(m.height(), 2);
    assert_eq!(m.leaf_count(), 2);
    assert!(m.is_balanced());
    for k in 1..=8u64 {
        assert_eq!(m.get(&k), Some(&(100 + k)));
    }
    for k in (1..=8u64).rev() {
        assert_eq!(m.remove(&k), Some(100 + k));
        assert!(m.is_balanced());
        assert_eq!(m.len(), (k - 1) as usize);
        if k <= 7 {
            assert_eq!(m.height(), 1);
            assert_eq!(m.leaf_count(), 1);
        }
    }
    assert!(m.is_empty());
    assert_eq!(m.height(), 1);
    assert_eq!(m.leaf_count(), 1);
    assert_eq!(m.to_vec(), vec![]);
}

#[test]
fn new_key_in_the_lower_half_of_a_full_leaf() {
    let mut m = BTreeMap::new();
    for k in [10u64, 20, 30, 40, 50, 60, 70] {
        m.insert(k, k);
    }
    m.insert(15, 15);
    assert_eq!(m.leaf_count(), 2);
    assert!(m.is_balanced());
    assert_eq!(
        m.to_vec(),
        vec![(10, 10), (15, 15), (20, 20), (30, 30), (40, 40), (50, 50), (60, 60), (70, 70)]
    );
}

#[test]
fn key_equal_to_a_separator_is_found_and_replaced() {
    let mut m = BTreeMap::new();
    for k in 1..=8u64 {
        m.insert(k, k);
    }
    // the upper leaf starts at 5
    assert_eq!(m.get(&5), Some(&5));
    assert_eq!(m.insert(5, 55), Some(5));
    assert_eq!(m.len(), 8);
    assert_eq!(m.get(&5), Some(&55));
    assert_eq!(m.remove(&5), Some(55));
    assert_eq!(m.get(&5), None);
    assert_eq!(m.get(&6), Some(&6));
    assert!(m.is_balanced());
}

#[test]
fn taking_from_the_left_sibling() {
    let mut m = BTreeMap::new();
    for k in [10u64, 20, 30, 40, 50, 60, 70, 80] {
        m.insert(k, k);
    }
    // leaves: 10..40 and 50..80; grow the left one, then shrink the right one
    m.insert(5, 5);
    assert_eq!(m.remove(&80), Some(80));
    assert_eq!(m.leaf_count(), 2);
    assert!(m.is_balanced());
    assert_eq!(
        m.to_vec(),
        vec![(5, 5), (10, 10), (20, 20), (30, 30), (40, 40), (50, 50), (60, 60), (70, 70)]
    );
    for k in [5u64, 10, 20, 30, 40, 50, 60, 70] {
        assert_eq!(m.get(&k), Some(&k));
    }
}

#[test]
fn taking_from_the_right_sibling() {
    let mut m = BTreeMap::new();
    for k in [10u64, 20, 30, 40, 50, 60, 70, 80] {
        m.insert(k, k);
    }
    m.insert(90, 90);
    assert_eq!(m.remove(&10), Some(10));
    assert_eq!(m.leaf_count(), 2);
    assert!(m.is_balanced());
    for k in [20u64, 30, 40, 50, 60, 70, 80, 90] {
        assert_eq!(m.get(&k), Some(&k));
    }
    assert_eq!(m.get(&10), None);
}

#[test]
fn fusing_two_leaves_brings_the_root_back_to_a_leaf() {
    let mut m = BTreeMap::new();
    for k in 1..=8u64 {
        m.insert(k, k);
    }
    assert_eq!(m.height(), 2);
    assert_eq!(m.remove(&3), Some(3));
    assert_eq!(m.height(), 1);
    assert_eq!(m.leaf_count(), 1);
    assert_eq!(m.len(), 7);
    assert!(m.is_balanced());
    assert_eq!(m.to_vec(), vec![(1, 1), (2, 2), (4, 4), (5, 5), (6, 6), (7, 7), (8, 8)]);
}

#[test]
fn ascending_inserts_build_three_levels() {
    let mut m = BTreeMap::new();
    for k in 0..200u64 {
        assert_eq!(m.insert(k, 2 * k), None);
        assert!(m.is_balanced());
    }
    assert!(m.height() >= 3);
    assert_eq!(m.len(), 200);
    let leaves = m.leaf_count();
    assert!(MIN_LEN * leaves <= 200 && 200 <= MAX_LEN * leaves);
    for k in 0..200u64 {
        assert_eq!(m.get(&k), Some(&(2 * k)));
    }
}

#[test]
fn descending_inserts_stay_balanced() {
    let mut m = BTreeMap::new();
    for k in (0..300u64).rev() {
        assert_eq!(m.insert(k, k + 1), None);
        assert!(m.is_balanced());
    }
    let all = m.to_vec();
    assert_eq!(all.len(), 300);
    for (i, e) in all.iter().enumerate() {
        assert_eq!(*e, (i as u64, i as u64 + 1));
    }
}

#[test]
fn height_changes_by_one_level_at_most() {
    let mut m = BTreeMap::new();
    let keys = scramble(600, 3);
    let mut h = m.height();
    for k in keys.iter() {
        m.insert(*k, 0);
        let h2 = m.height();
        assert!(h2 == h || h2 == h + 1);
        h = h2;
    }
    for k in scramble(600, 4).iter() {
        m.remove(k);
        let h2 = m.height();
        assert!(h2 == h || h2 + 1 == h);
        h = h2;
    }
    assert_eq!(h, 1);
}

#[test]
fn random_inserts_then_random_removals_stay_balanced() {
    let n: u64 = 2500;
    let mut m = BTreeMap::new();
    let ins = scramble(n, 11);
    for (i, k) in ins.iter().enumerate() {
        assert_eq!(m.insert(*k, *k ^ 0xABCD), None);
        assert_eq!(m.len(), i + 1);
        assert!(m.is_balanced());
    }
    let leaves = m.leaf_count();
    assert!(MIN_LEN * leaves <= n as usize && n as usize <= MAX_LEN * leaves);
    let del = scramble(n, 29);
    assert_ne!(ins, del);
    for (i, k) in del.iter().enumerate() {
        assert_eq!(m.remove(k), Some(*k ^ 0xABCD));
        assert_eq!(m.len(), n as usize - i - 1);
        assert!(m.is_balanced());
        assert_eq!(m.get(k), None);
    }
    assert!(m.is_empty());
    assert_eq!(m.len(), 0);
    assert_eq!(m.height(), 1);
    assert_eq!(m.leaf_count(), 1);
    assert_eq!(m.to_vec(), vec![]);
}

#[test]
fn extreme_keys_and_values() {
    let mut m = BTreeMap::new();
    assert_eq!(m.insert(u64::MAX, 0), None);
    assert_eq!(m.insert(0, u64::MAX), None);
    assert_eq!(m.get(&0), Some(&u64::MAX));
    assert_eq!(m.get(&u64::MAX), Some(&0));
    assert_eq!(m.to_vec(), vec![(0, u64::MAX), (u64::MAX, 0)]);
    assert_eq!(m.remove(&u64::MAX), Some(0));
    assert_eq!(m.remove(&0), Some(u64::MAX));
    assert!(m.is_empty());
}

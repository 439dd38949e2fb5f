use bimap::BiMap;

fn sorted(mut v: Vec<u64>) -> Vec<u64> {
    v.sort();
    v
}

fn sorted_pairs(mut v: Vec<(u64, u64)>) -> Vec<(u64, u64)> {
    v.sort();
    v
}

#[test]
fn new_store_is_empty() {
    let b = BiMap::new();
    assert_eq!(b.len(), 0);
    assert!(b.is_empty());
    assert_eq!(b.get_left(&1), None);
    assert_eq!(b.get_right(&1), None);
    assert!(!b.contains_left(&1));
    assert!(!b.contains_right(&1));
}

#[test]
fn with_capacity_is_empty() {
    let b = BiMap::with_capacity(16);
    assert_eq!(b.len(), 0);
    assert!(b.is_empty());
}

#[test]
fn default_is_empty() {
    let b = BiMap::default();
    assert_eq!(b.len(), 0);
    assert!(b.is_empty());
}

#[test]
fn insert_fresh_pairs() {
    let mut b = BiMap::new();
    assert_eq!(b.insert(1, 10), None);
    assert_eq!(b.len(), 1);
    assert!(!b.is_empty());
    assert_eq!(b.insert(2, 20), None);
    assert_eq!(b.len(), 2);
    assert_eq!(b.get_left(&1), Some(&10));
    assert_eq!(b.get_left(&2), Some(&20));
    assert_eq!(b.get_right(&10), Some(&1));
    assert_eq!(b.get_right(&20), Some(&2));
    assert!(b.contains_left(&1));
    assert!(b.contains_right(&20));
}

#[test]
fn insert_existing_pair_is_a_noop() {
    let mut b = BiMap::new();
    b.insert(1, 10);
    b.insert(2, 20);
    assert_eq!(b.insert(1, 10), None);
    assert_eq!(b.len(), 2);
    assert_eq!(b.get_left(&1), Some(&10));
    assert_eq!(b.get_left(&2), Some(&20));
    assert_eq!(b.get_right(&10), Some(&1));
    assert_eq!(b.get_right(&20), Some(&2));
}

#[test]
fn insert_left_collision_evicts_old_pair() {
    let mut b = BiMap::new();
    b.insert(1, 10);
    assert_eq!(b.insert(1, 20), Some((1, 10)));
    assert_eq!(b.len(), 1);
    assert_eq!(b.get_left(&1), Some(&20));
    assert_eq!(b.get_right(&10), None);
    assert_eq!(b.get_right(&20), Some(&1));
}

#[test]
fn insert_right_collision_evicts_old_pair() {
    let mut b = BiMap::new();
    b.insert(1, 10);
    assert_eq!(b.insert(2, 10), Some((1, 10)));
    assert_eq!(b.len(), 1);
    assert_eq!(b.get_right(&10), Some(&2));
    assert_eq!(b.get_left(&1), None);
    assert_eq!(b.get_left(&2), Some(&10));
}

#[test]
fn insert_double_collision_drops_both_old_pairs() {
    let mut b = BiMap::new();
    assert_eq!(b.insert(1, 10), None);
    assert_eq!(b.insert(2, 20), None);
    // right side wins: (2, 20) is evicted and returned; the stale
    // (1, 10) pair is dropped from both indexes as well
    assert_eq!(b.insert(1, 20), Some((2, 20)));
    assert_eq!(b.len(), 1);
    assert_eq!(b.get_left(&1), Some(&20));
    assert_eq!(b.get_left(&2), None);
    assert_eq!(b.get_right(&10), None);
    assert_eq!(b.get_right(&20), Some(&1));
    // the store stays consistent under further insertions
    assert_eq!(b.insert(3, 10), None);
    assert_eq!(b.len(), 2);
    assert_eq!(b.insert(5, 20), Some((1, 20)));
    assert_eq!(b.len(), 2);
    assert_eq!(b.get_left(&5), Some(&20));
    assert_eq!(b.get_left(&3), Some(&10));
}

#[test]
fn remove_left_round_trip() {
    let mut b = BiMap::new();
    b.insert(1, 10);
    b.insert(2, 20);
    assert_eq!(b.remove_left(&1), Some((1, 10)));
    assert_eq!(b.len(), 1);
    assert_eq!(b.get_left(&1), None);
    assert_eq!(b.get_right(&10), None);
    assert_eq!(b.remove_left(&1), None);
    assert_eq!(b.remove_right(&10), None);
    assert_eq!(b.len(), 1);
    assert_eq!(b.get_left(&2), Some(&20));
}

#[test]
fn remove_right_round_trip() {
    let mut b = BiMap::new();
    b.insert(1, 10);
    b.insert(2, 20);
    assert_eq!(b.remove_right(&20), Some((2, 20)));
    assert_eq!(b.len(), 1);
    assert_eq!(b.get_left(&2), None);
    assert_eq!(b.get_right(&20), None);
    assert_eq!(b.remove_right(&20), None);
    assert_eq!(b.remove_left(&2), None);
    assert_eq!(b.get_left(&1), Some(&10));
}

#[test]
fn remove_from_empty_returns_none() {
    let mut b = BiMap::new();
    assert_eq!(b.remove_left(&1), None);
    assert_eq!(b.remove_right(&10), None);
    assert_eq!(b.len(), 0);
}

#[test]
fn clear_empties_the_store() {
    let mut b = BiMap::new();
    b.insert(1, 10);
    b.insert(2, 20);
    b.clear();
    assert_eq!(b.len(), 0);
    assert!(b.is_empty());
    assert_eq!(b.get_left(&1), None);
    assert_eq!(b.get_left(&2), None);
    assert_eq!(b.get_right(&10), None);
    assert_eq!(b.get_right(&20), None);
    // the cleared store is usable again
    assert_eq!(b.insert(1, 20), None);
    assert_eq!(b.len(), 1);
}

#[test]
fn clone_copies_are_independent() {
    let mut b = BiMap::new();
    b.insert(1, 10);
    b.insert(2, 20);
    let mut c = b.clone();
    assert_eq!(c.len(), 2);
    assert_eq!(c.get_left(&1), Some(&10));

    c.insert(3, 30);
    c.remove_left(&1);
    assert_eq!(b.len(), 2);
    assert_eq!(b.get_left(&1), Some(&10));
    assert_eq!(b.get_left(&3), None);

    b.insert(4, 40);
    assert_eq!(c.len(), 2);
    assert_eq!(c.get_left(&4), None);
    assert_eq!(c.get_left(&3), Some(&30));
    assert_eq!(c.get_left(&1), None);
}

#[test]
fn enumerations_list_current_contents() {
    let mut b = BiMap::new();
    b.insert(1, 30);
    b.insert(2, 20);
    b.insert(3, 10);
    assert_eq!(sorted(b.left_values()), vec![1, 2, 3]);
    assert_eq!(sorted(b.right_values()), vec![10, 20, 30]);
    assert_eq!(sorted_pairs(b.iter()), vec![(1, 30), (2, 20), (3, 10)]);

    b.remove_left(&2);
    assert_eq!(sorted(b.left_values()), vec![1, 3]);
    assert_eq!(sorted(b.right_values()), vec![10, 30]);
    assert_eq!(sorted_pairs(b.iter()), vec![(1, 30), (3, 10)]);
}

#[test]
fn enumerations_of_empty_store_are_empty() {
    let b = BiMap::new();
    assert!(b.left_values().is_empty());
    assert!(b.right_values().is_empty());
    assert!(b.iter().is_empty());
}

#[test]
fn mixed_sequence_keeps_both_indexes_consistent() {
    let mut b = BiMap::new();
    for i in 0..50u64 {
        assert_eq!(b.insert(i, 1000 + i), None);
    }
    assert_eq!(b.len(), 50);
    // remap every even left value to a fresh right value
    for i in (0..50u64).step_by(2) {
        assert_eq!(b.insert(i, 2000 + i), Some((i, 1000 + i)));
    }
    assert_eq!(b.len(), 50);
    for i in 0..50u64 {
        let expected = if i % 2 == 0 { 2000 + i } else { 1000 + i };
        assert_eq!(b.get_left(&i), Some(&expected));
        assert_eq!(b.get_right(&expected), Some(&i));
    }
    // remove half from each side
    for i in 0..25u64 {
        let expected = if i % 2 == 0 { 2000 + i } else { 1000 + i };
        if i % 2 == 0 {
            assert_eq!(b.remove_left(&i), Some((i, expected)));
        } else {
            assert_eq!(b.remove_right(&expected), Some((i, expected)));
        }
        assert_eq!(b.get_left(&i), None);
        assert_eq!(b.get_right(&expected), None);
    }
    assert_eq!(b.len(), 25);
}

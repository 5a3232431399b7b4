use cimplex::table::{KeySet, Table};

#[test]
fn a_new_table_is_empty() {
    let t: Table<u32, &str> = Table::new();
    assert_eq!(t.len(), 0);
    assert!(t.keys().is_empty());
    assert!(t.get(&0).is_none());
    assert!(!t.contains_key(&0));
}

#[test]
fn insert_puts_and_hands_back_what_was_there() {
    let mut t: Table<u128, u32> = Table::new();
    assert_eq!(t.insert(7, 70), None);
    assert_eq!(t.insert(8, 80), None);
    assert_eq!(t.len(), 2);
    assert_eq!(t.get(&7), Some(&70));
    assert_eq!(t.get(&8), Some(&80));
    assert_eq!(t.get(&9), None);
    assert_eq!(t.insert(7, 71), Some(70));
    assert_eq!(t.len(), 2);
    assert_eq!(t.get(&7), Some(&71));
    assert_eq!(t.get(&8), Some(&80));
}

#[test]
fn remove_takes_out_and_hands_back_what_was_there() {
    let mut t: Table<u128, u32> = Table::new();
    t.insert(1, 10);
    t.insert(2, 20);
    t.insert(u128::MAX, 30);
    assert_eq!(t.remove(&2), Some(20));
    assert_eq!(t.remove(&2), None);
    assert_eq!(t.remove(&5), None);
    assert_eq!(t.len(), 2);
    assert!(t.contains_key(&1));
    assert!(!t.contains_key(&2));
    assert_eq!(t.get(&u128::MAX), Some(&30));
}

#[test]
fn keys_lists_each_key_once() {
    let mut t: Table<u32, ()> = Table::new();
    for k in 0..1000u32 {
        t.insert(k * 3, ());
    }
    for k in 0..500u32 {
        t.remove(&(k * 6));
    }
    let mut keys = t.keys();
    assert_eq!(keys.len(), t.len());
    keys.sort();
    let expected: Vec<u32> = (0..1000u32).map(|k| k * 3).filter(|k| k % 6 != 0).collect();
    assert_eq!(keys, expected);
}

#[test]
fn clear_empties_and_a_copy_stands_alone() {
    let mut t: Table<u32, u32> = Table::new();
    t.insert(1, 1);
    t.insert(2, 2);
    let copy = t.clone();
    t.clear();
    assert_eq!(t.len(), 0);
    assert_eq!(t.get(&1), None);
    assert_eq!(copy.len(), 2);
    assert_eq!(copy.get(&2), Some(&2));
    t.insert(3, 3);
    assert_eq!(t.keys(), vec![3]);
}

#[test]
fn a_key_set_knows_what_was_put_in() {
    let mut s = KeySet::new();
    assert!(!s.contains(&4));
    assert!(s.insert(4));
    assert!(!s.insert(4));
    assert!(s.insert(1u128 << 100));
    assert!(s.contains(&4));
    assert!(s.contains(&(1u128 << 100)));
    assert!(!s.contains(&5));
}

use hashmap::hashing::KeyHash;
use hashmap::linear_probing::HashMap;

#[test]
fn linear_probing_insert() {
    let mut m = HashMap::<i32>::new();
    assert!(m.is_empty());
    m.insert(1, 11);
    assert_eq!(m.len(), 1);
    m.insert(2, 21);
    m.insert(3, 31);
    m.insert(5, 51);
    assert_eq!(m.len(), 4);
    m.insert(4, 41);

    assert_eq!(m.get(&1), Some((&1, &11)));
    assert_eq!(m.get(&2), Some((&2, &21)));
    assert_eq!(m.get(&3), Some((&3, &31)));
    assert_eq!(m.get(&4), Some((&4, &41)));
    assert_eq!(m.get(&5), Some((&5, &51)));
    assert_eq!(m.get(&6), None);

    assert_eq!(m.insert(4, 42), Some((4, 41)));
    assert_eq!(m.get(&4), Some((&4, &42)));
}

#[test]
fn linear_probing_remove() {
    let mut m = HashMap::new();
    assert_eq!(m.remove(&1), None);

    m.insert(1, 11);
    m.insert(2, 21);
    m.insert(3, 31);
    m.insert(5, 51);
    m.insert(4, 41);

    assert_eq!(m.remove(&2), Some((2, 21)));
    assert_eq!(m.remove(&2), None);
    assert_eq!(m.remove(&1), Some((1, 11)));
    assert_eq!(m.remove(&1), None);
    assert_eq!(m.remove(&3), Some((3, 31)));
    assert_eq!(m.remove(&3), None);
    assert_eq!(m.remove(&4), Some((4, 41)));
    assert_eq!(m.remove(&4), None);
    assert_eq!(m.remove(&5), Some((5, 51)));
    assert_eq!(m.remove(&5), None);

    assert!(m.is_empty())
}

#[test]
fn linear_probing_get() {
    let mut m = HashMap::new();
    assert_eq!(m.get(&1), None);

    m.insert(1, 11);
    m.insert(2, 21);
    m.insert(3, 31);
    m.insert(5, 51);
    m.insert(4, 41);

    assert_eq!(m.get(&2), Some((&2, &21)));
    assert_eq!(m.get(&1), Some((&1, &11)));
    assert_eq!(m.get(&3), Some((&3, &31)));
    assert_eq!(m.get(&4), Some((&4, &41)));
    assert_eq!(m.get(&5), Some((&5, &51)));
    assert_eq!(m.get(&6), None);
}

#[test]
fn linear_probing_scenario_fill_then_grow() {
    let mut m = HashMap::with_hasher_and_load_factor(KeyHash::Identity, 75);
    for k in [1u64, 2, 3, 5] {
        assert_eq!(m.insert(k, k * 10), None);
    }
    assert_eq!(m.capacity(), 4);
    assert_eq!(m.len(), 4);
    assert_eq!(m.insert(4, 40), None);
    assert_eq!(m.capacity(), 8);
    assert_eq!(m.get(&6), None);
    for k in [1u64, 2, 3, 4, 5] {
        assert_eq!(m.get(&k), Some((&k, &(k * 10))));
    }
}

#[test]
fn linear_probing_update_keeps_len() {
    let mut m = HashMap::new();
    assert_eq!(m.insert(7, "a"), None);
    assert_eq!(m.len(), 1);
    assert_eq!(m.insert(7, "b"), Some((7, "a")));
    assert_eq!(m.len(), 1);
    assert_eq!(m.get(&7), Some((&7, &"b")));
}

#[test]
fn linear_probing_tombstone_reuse_keeps_keys_unique() {
    let mut m = HashMap::with_hasher_and_load_factor(KeyHash::Identity, 90);
    // 1 and 9 share home slot 1 in a table of 8 slots.
    for k in [0u64, 1, 2, 3, 4, 5] {
        m.insert(k, k);
    }
    m.insert(9, 90);
    assert_eq!(m.capacity(), 8);
    assert_eq!(m.remove(&1), Some((1, 1)));
    assert_eq!(m.insert(9, 91), Some((9, 90)));
    assert_eq!(m.len(), 6);
    assert_eq!(m.remove(&9), Some((9, 91)));
    assert_eq!(m.get(&9), None);
}

#[test]
fn linear_probing_many_keys_round_trip() {
    let mut m = HashMap::new();
    for k in 0..1000u64 {
        m.insert(k * 7919, k);
    }
    assert_eq!(m.len(), 1000);
    for k in 0..1000u64 {
        assert_eq!(m.get(&(k * 7919)), Some((&(k * 7919), &k)));
    }
    for k in (0..1000u64).step_by(2) {
        assert_eq!(m.remove(&(k * 7919)), Some((k * 7919, k)));
    }
    for k in 0..1000u64 {
        let expect = if k % 2 == 0 { None } else { Some((&(k * 7919), &k)) };
        assert_eq!(m.get(&(k * 7919)), expect);
    }
}

#[test]
fn linear_probing_with_capacity_does_not_grow() {
    let mut m = HashMap::with_capacity(100);
    let cap = m.capacity();
    assert!(cap.is_power_of_two());
    assert!(cap * 70 >= 100 * 100);
    for k in 0..100u64 {
        m.insert(k, k);
    }
    assert_eq!(m.capacity(), cap);
    assert_eq!(m.len(), 100);
    let empty = HashMap::<u8>::with_capacity_and_load_factor(0, 50);
    assert_eq!(empty.capacity(), 0);
    assert!(empty.is_empty());
}

#[test]
fn linear_probing_clone_is_independent() {
    let mut m = HashMap::new();
    for k in 0..20u64 {
        m.insert(k, format!("v{k}"));
    }
    m.remove(&3);
    let mut c = m.clone();
    assert_eq!(c.len(), m.len());
    assert_eq!(c.capacity(), m.capacity());
    for k in 0..20u64 {
        assert_eq!(c.get(&k), m.get(&k));
    }
    c.insert(3, String::from("new"));
    assert_eq!(m.get(&3), None);
    assert_eq!(c.get(&3), Some((&3, &String::from("new"))));
}

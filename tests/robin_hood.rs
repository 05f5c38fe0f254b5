use hashmap::hashing::KeyHash;
use hashmap::robin_hood::HashMap;

#[test]
fn robin_hood_insert() {
    let mut m = HashMap::<i32>::new();
    assert!(m.is_empty());
    m.insert(1, 11);
    assert_eq!(m.len(), 1);
    m.insert(2, 21);
    m.insert(3, 31);
    m.insert(5, 51);
    assert_eq!(m.len(), 4);
    m.insert(4, 41);

    assert_eq!(m.get(&1), Some((&1, &11)));
    assert_eq!(m.get(&2), Some((&2, &21)));
    assert_eq!(m.get(&3), Some((&3, &31)));
    assert_eq!(m.get(&4), Some((&4, &41)));
    assert_eq!(m.get(&5), Some((&5, &51)));
    assert_eq!(m.get(&6), None);

    assert_eq!(m.insert(4, 42), Some((4, 41)));
    assert_eq!(m.get(&4), Some((&4, &42)));
}

#[test]
fn robin_hood_remove() {
    let mut m = HashMap::new();
    assert_eq!(m.remove(&1), None);

    m.insert(1, 11);
    m.insert(2, 21);
    m.insert(3, 31);
    m.insert(5, 51);
    m.insert(4, 41);

    assert_eq!(m.remove(&2), Some((2, 21)));
    assert_eq!(m.remove(&2), None);
    assert_eq!(m.remove(&1), Some((1, 11)));
    assert_eq!(m.remove(&1), None);
    assert_eq!(m.remove(&3), Some((3, 31)));
    assert_eq!(m.remove(&3), None);
    assert_eq!(m.remove(&4), Some((4, 41)));
    assert_eq!(m.remove(&4), None);
    assert_eq!(m.remove(&5), Some((5, 51)));
    assert_eq!(m.remove(&5), None);

    assert!(m.is_empty())
}

#[test]
fn robin_hood_get() {
    let mut m = HashMap::new();
    assert_eq!(m.get(&1), None);

    m.insert(1, 11);
    m.insert(2, 21);
    m.insert(3, 31);
    m.insert(5, 51);
    m.insert(4, 41);

    assert_eq!(m.get(&2), Some((&2, &21)));
    assert_eq!(m.get(&1), Some((&1, &11)));
    assert_eq!(m.get(&3), Some((&3, &31)));
    assert_eq!(m.get(&4), Some((&4, &41)));
    assert_eq!(m.get(&5), Some((&5, &51)));
    assert_eq!(m.get(&6), None);
}

#[test]
fn robin_hood_remove_same_hash() {
    // Under the identity hash these keys share home slot 1 of an 8-slot
    // buffer, so they form one probe chain.
    let mut m = HashMap::with_hasher_and_load_factor(KeyHash::Identity, 70);
    assert_eq!(m.remove(&1), None);

    m.insert(1, 11);
    m.insert(9, 21);
    m.insert(17, 31);
    m.insert(33, 51);
    m.insert(25, 41);
    assert_eq!(m.capacity(), 8);

    assert_eq!(m.remove(&9), Some((9, 21)));
    assert_eq!(m.remove(&1), Some((1, 11)));
    assert_eq!(m.remove(&17), Some((17, 31)));
    assert_eq!(m.remove(&25), Some((25, 41)));
    assert_eq!(m.remove(&33), Some((33, 51)));

    assert!(m.is_empty());
}

#[test]
fn robin_hood_scenario_remove_from_cluster() {
    let mut m = HashMap::with_hasher_and_load_factor(KeyHash::Identity, 70);
    for k in [1u64, 2, 3, 5, 4] {
        assert_eq!(m.insert(k, k * 10), None);
    }
    assert_eq!(m.capacity(), 8);
    assert_eq!(m.remove(&2), Some((2, 20)));
    assert_eq!(m.get(&2), None);
    for k in [1u64, 3, 4, 5] {
        assert_eq!(m.get(&k), Some((&k, &(k * 10))));
    }
    assert_eq!(m.len(), 4);
}

#[test]
fn robin_hood_displacement_and_backward_shift() {
    // 1, 9 and 17 share home slot 1; 2 and 3 are displaced by them.
    let mut m = HashMap::with_hasher_and_load_factor(KeyHash::Identity, 90);
    for k in [2u64, 3, 1, 9] {
        m.insert(k, k);
    }
    m.insert(17, 17);
    assert_eq!(m.capacity(), 8);
    for k in [1u64, 2, 3, 9, 17] {
        assert_eq!(m.get(&k), Some((&k, &k)));
    }
    assert_eq!(m.get(&25), None);
    assert_eq!(m.remove(&1), Some((1, 1)));
    for k in [2u64, 3, 9, 17] {
        assert_eq!(m.get(&k), Some((&k, &k)));
    }
    assert_eq!(m.get(&1), None);
}

#[test]
fn robin_hood_update_keeps_len() {
    let mut m = HashMap::new();
    assert_eq!(m.insert(7, "a"), None);
    assert_eq!(m.insert(7, "b"), Some((7, "a")));
    assert_eq!(m.len(), 1);
    assert_eq!(m.get(&7), Some((&7, &"b")));
}

#[test]
fn robin_hood_many_keys_round_trip() {
    let mut m = HashMap::new();
    for k in 0..1000u64 {
        m.insert(k * 31, k);
    }
    assert_eq!(m.len(), 1000);
    for k in (0..1000u64).step_by(3) {
        assert_eq!(m.remove(&(k * 31)), Some((k * 31, k)));
    }
    for k in 0..1000u64 {
        let expect = if k % 3 == 0 { None } else { Some((&(k * 31), &k)) };
        assert_eq!(m.get(&(k * 31)), expect);
    }
}

#[test]
fn robin_hood_with_capacity_does_not_grow() {
    let mut m = HashMap::with_capacity(100);
    let cap = m.capacity();
    assert!(cap.is_power_of_two());
    assert!(cap > 100);
    for k in 0..100u64 {
        m.insert(k, k);
    }
    assert_eq!(m.capacity(), cap);
    assert_eq!(m.len(), 100);
    let m2 = HashMap::<u8>::with_load_factor(50);
    assert_eq!(m2.capacity(), 0);
}

#[test]
fn robin_hood_clone_is_independent() {
    let mut m = HashMap::new();
    for k in 0..20u64 {
        m.insert(k, k + 1);
    }
    let mut c = m.clone();
    assert_eq!(c.len(), 20);
    assert_eq!(c.capacity(), m.capacity());
    for k in 0..20u64 {
        assert_eq!(c.get(&k), m.get(&k));
    }
    assert_eq!(c.remove(&4), Some((4, 5)));
    assert_eq!(m.get(&4), Some((&4, &5)));
}

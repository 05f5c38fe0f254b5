use hashmap::cuckoo::HashMap;
use hashmap::hashing::KeyHash;

#[test]
fn cuckoo_insert() {
    let mut m = HashMap::<i32>::new();
    assert!(m.is_empty());
    m.insert(1, 11);
    assert_eq!(m.len(), 1);
    m.insert(2, 21);
    m.insert(3, 31);
    m.insert(5, 51);
    assert_eq!(m.len(), 4);
    m.insert(4, 41);

    assert_eq!(m.get(&1), Some((&1, &11)));
    assert_eq!(m.get(&2), Some((&2, &21)));
    assert_eq!(m.get(&3), Some((&3, &31)));
    assert_eq!(m.get(&4), Some((&4, &41)));
    assert_eq!(m.get(&5), Some((&5, &51)));
    assert_eq!(m.get(&6), None);

    assert_eq!(m.insert(4, 42), Some((4, 41)));
    assert_eq!(m.get(&4), Some((&4, &42)));
}

#[test]
fn cuckoo_remove() {
    let mut m = HashMap::new();
    assert_eq!(m.remove(&1), None);

    m.insert(1, 11);
    m.insert(2, 21);
    m.insert(3, 31);
    m.insert(5, 51);
    m.insert(4, 41);

    assert_eq!(m.remove(&2), Some((2, 21)));
    assert_eq!(m.remove(&2), None);
    assert_eq!(m.remove(&1), Some((1, 11)));
    assert_eq!(m.remove(&1), None);
    assert_eq!(m.remove(&3), Some((3, 31)));
    assert_eq!(m.remove(&3), None);
    assert_eq!(m.remove(&4), Some((4, 41)));
    assert_eq!(m.remove(&4), None);
    assert_eq!(m.remove(&5), Some((5, 51)));
    assert_eq!(m.remove(&5), None);

    assert!(m.is_empty())
}

#[test]
fn cuckoo_get() {
    let mut m = HashMap::new();
    assert_eq!(m.get(&1), None);

    m.insert(1, 11);
    m.insert(2, 21);
    m.insert(3, 31);
    m.insert(5, 51);
    m.insert(4, 41);
    m.insert(6, 41);
    m.insert(7, 41);
    m.insert(8, 41);
    m.insert(9, 41);

    assert_eq!(m.get(&2), Some((&2, &21)));
    assert_eq!(m.get(&1), Some((&1, &11)));
    assert_eq!(m.get(&3), Some((&3, &31)));
    assert_eq!(m.get(&4), Some((&4, &41)));
    assert_eq!(m.get(&5), Some((&5, &51)));
    assert_eq!(m.get(&6), Some((&6, &41)));
    assert_eq!(m.get(&7), Some((&7, &41)));
    assert_eq!(m.get(&8), Some((&8, &41)));
    assert_eq!(m.get(&9), Some((&9, &41)));
    assert_eq!(m.get(&10), None);
}

#[test]
fn cuckoo_eviction_chain() {
    // First half hashes by identity, second half by a keyed mix; with 4
    // slots per half, keys 0, 4 and 8 share home slot 0 of the first half,
    // so inserting them forces residents into the second half.
    let h2 = KeyHash::Keyed { seed: 0x9e37_79b9_7f4a_7c15 };
    let mut m = HashMap::with_capacity_and_load_factor(4, 90);
    assert_eq!(m.capacity(), 8);
    let mut m2 = HashMap::with_hashers_and_load_factor(KeyHash::Identity, h2, 90);
    for k in [0u64, 4, 8, 1, 5] {
        assert_eq!(m2.insert(k, k + 100), None);
        m.insert(k, k + 100);
    }
    for k in [0u64, 4, 8, 1, 5] {
        assert_eq!(m2.get(&k), Some((&k, &(k + 100))));
        assert_eq!(m.get(&k), Some((&k, &(k + 100))));
    }
    assert_eq!(m2.len(), 5);
    assert_eq!(m2.get(&12), None);
}

#[test]
fn cuckoo_with_capacity_does_not_grow() {
    let mut m = HashMap::with_capacity(100);
    let cap = m.capacity();
    assert!(cap * 70 >= 100 * 100);
    for k in 0..100u64 {
        m.insert(k.wrapping_mul(0x9e37_79b9), k);
    }
    assert_eq!(m.len(), 100);
    for k in 0..100u64 {
        let key = k.wrapping_mul(0x9e37_79b9);
        assert_eq!(m.get(&key), Some((&key, &k)));
    }
}

#[test]
fn cuckoo_many_keys_round_trip() {
    let mut m = HashMap::new();
    for k in 0..2000u64 {
        m.insert(k, k * 3);
    }
    assert_eq!(m.len(), 2000);
    for k in 0..2000u64 {
        assert_eq!(m.get(&k), Some((&k, &(k * 3))));
    }
    for k in 0..1000u64 {
        assert_eq!(m.remove(&k), Some((k, k * 3)));
    }
    assert_eq!(m.len(), 1000);
    assert_eq!(m.get(&10), None);
    assert_eq!(m.get(&1500), Some((&1500, &4500)));
}

#[test]
fn cuckoo_clone_is_independent() {
    let mut m = HashMap::new();
    for k in 0..20u64 {
        m.insert(k, vec![k; 2]);
    }
    let mut c = m.clone();
    assert_eq!(c.len(), 20);
    assert_eq!(c.capacity(), m.capacity());
    for k in 0..20u64 {
        assert_eq!(c.get(&k), m.get(&k));
    }
    assert_eq!(c.remove(&5), Some((5, vec![5, 5])));
    assert_eq!(m.get(&5), Some((&5, &vec![5, 5])));
}

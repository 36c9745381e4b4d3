use paggo::ArenaStore;
use paggo::ConcurrentMap;
use paggo::StoreError;

#[test]
fn concurrent_map_set_then_get() {
    let mut m = ConcurrentMap::new();
    assert!(m.set("alpha".to_string(), b"one".to_vec()).is_ok());
    assert_eq!(m.get(&"alpha".to_string()), Some(b"one".to_vec()));
    assert_eq!(m.get(&"beta".to_string()), None);
}

#[test]
fn concurrent_map_contains_and_delete() {
    let mut m = ConcurrentMap::new();
    let k = "alpha".to_string();
    assert!(!m.contains(&k));
    m.delete(&k); // deleting an absent key is fine
    assert!(!m.contains(&k));
    assert!(m.set(k.clone(), b"one".to_vec()).is_ok());
    assert!(m.contains(&k));
    m.delete(&k);
    assert!(!m.contains(&k));
    assert_eq!(m.get(&k), None);
}

#[test]
fn concurrent_map_overwrite_takes_last_value() {
    let mut m = ConcurrentMap::new();
    let k = "k".to_string();
    assert!(m.set(k.clone(), b"first".to_vec()).is_ok());
    assert!(m.set(k.clone(), b"second".to_vec()).is_ok());
    assert_eq!(m.get(&k), Some(b"second".to_vec()));
}

#[test]
fn arena_set_then_get_returns_the_value() {
    let mut a = ArenaStore::new(64);
    assert_eq!(a.capacity(), 64);
    let k = "foo".to_string();
    assert!(a.set(&k, &b"bar".to_vec()).is_ok());
    assert_eq!(a.get(&k), Some(b"bar".to_vec()));
    assert_eq!(a.get(&"missing".to_string()), None);
}

#[test]
fn arena_delete_makes_a_later_get_miss() {
    let mut a = ArenaStore::new(64);
    let k = "foo".to_string();
    a.delete(&k); // absent: succeeds, nothing changes
    assert!(!a.contains(&k));
    assert!(a.set(&k, &b"bar".to_vec()).is_ok());
    assert!(a.contains(&k));
    a.delete(&k);
    assert!(!a.contains(&k));
    assert_eq!(a.get(&k), None);
}

#[test]
fn arena_exists_tracks_most_recent_operation() {
    let mut a = ArenaStore::new(64);
    let k = "key".to_string();
    assert!(!a.contains(&k));
    assert!(a.set(&k, &b"v1".to_vec()).is_ok());
    assert!(a.contains(&k));
    assert!(a.set(&k, &b"v2".to_vec()).is_ok());
    assert!(a.contains(&k));
    a.delete(&k);
    assert!(!a.contains(&k));
    assert!(a.set(&k, &b"v3".to_vec()).is_ok());
    assert!(a.contains(&k));
}

#[test]
fn arena_overwrite_returns_latest_and_reclaims() {
    // capacity for two copies at most: if an overwrite leaked its old
    // range, the third overwrite would no longer fit
    let mut a = ArenaStore::new(16);
    let k = "k".to_string();
    assert!(a.set(&k, &vec![1u8; 8]).is_ok());
    for round in 0u8..10 {
        let v = vec![round; 8];
        assert!(a.set(&k, &v).is_ok(), "overwrite {round} should fit");
        assert_eq!(a.get(&k), Some(v));
    }
}

#[test]
fn arena_exhaustion_reports_sizes_and_mutates_nothing() {
    let mut a = ArenaStore::new(10);
    let ka = "a".to_string();
    let kb = "b".to_string();
    let kc = "c".to_string();
    assert!(a.set(&ka, &vec![0xAA; 4]).is_ok());
    assert!(a.set(&kb, &vec![0xBB; 4]).is_ok());
    // 2 bytes remain: a 3-byte value cannot be placed
    let err = a.set(&kc, &vec![0xCC; 3]).unwrap_err();
    assert_eq!(err, StoreError::StorageExhausted { requested: 3, available: 2 });
    // prior entries are unchanged and readable
    assert!(!a.contains(&kc));
    assert_eq!(a.get(&ka), Some(vec![0xAA; 4]));
    assert_eq!(a.get(&kb), Some(vec![0xBB; 4]));
    // what does fit still fits
    assert!(a.set(&kc, &vec![0xCC; 2]).is_ok());
    assert_eq!(a.get(&kc), Some(vec![0xCC; 2]));
}

#[test]
fn arena_full_to_the_byte_then_one_more() {
    let mut a = ArenaStore::new(8);
    assert!(a.set(&"x".to_string(), &vec![1u8; 4]).is_ok());
    assert!(a.set(&"y".to_string(), &vec![2u8; 4]).is_ok());
    let err = a.set(&"z".to_string(), &vec![3u8; 1]).unwrap_err();
    assert_eq!(err, StoreError::StorageExhausted { requested: 1, available: 0 });
    assert_eq!(a.get(&"x".to_string()), Some(vec![1u8; 4]));
    assert_eq!(a.get(&"y".to_string()), Some(vec![2u8; 4]));
}

#[test]
fn arena_empty_value_is_stored_not_missing() {
    let mut a = ArenaStore::new(4);
    assert!(a.set(&"full".to_string(), &vec![9u8; 4]).is_ok());
    // an empty value needs no space, even in a full arena
    assert!(a.set(&"empty".to_string(), &Vec::new()).is_ok());
    assert!(a.contains(&"empty".to_string()));
    assert_eq!(a.get(&"empty".to_string()), Some(Vec::new()));
    assert_eq!(a.get(&"absent".to_string()), None);
}

#[test]
fn arena_delete_frees_space_for_reuse() {
    let mut a = ArenaStore::new(6);
    let k1 = "one".to_string();
    let k2 = "two".to_string();
    assert!(a.set(&k1, &vec![7u8; 6]).is_ok());
    assert!(a.set(&k2, &vec![8u8; 6]).is_err());
    a.delete(&k1);
    assert!(a.set(&k2, &vec![8u8; 6]).is_ok());
    assert_eq!(a.get(&k2), Some(vec![8u8; 6]));
}

#[test]
fn arena_coalesces_adjacent_holes() {
    let mut a = ArenaStore::new(12);
    let ka = "a".to_string();
    let kb = "b".to_string();
    let kc = "c".to_string();
    assert!(a.set(&ka, &vec![1u8; 4]).is_ok());
    assert!(a.set(&kb, &vec![2u8; 4]).is_ok());
    assert!(a.set(&kc, &vec![3u8; 4]).is_ok());
    // free the two adjacent ranges of a and b
    a.delete(&ka);
    a.delete(&kb);
    // only a coalesced 8-byte hole can take this value
    assert!(a.set(&"d".to_string(), &vec![4u8; 8]).is_ok());
    assert_eq!(a.get(&"d".to_string()), Some(vec![4u8; 8]));
    assert_eq!(a.get(&kc), Some(vec![3u8; 4]));
}

#[test]
fn arena_distinct_keys_are_independent() {
    let mut a = ArenaStore::new(64);
    for i in 0u8..8 {
        let k = format!("key{i}");
        assert!(a.set(&k, &vec![i; 4]).is_ok());
    }
    for i in 0u8..8 {
        let k = format!("key{i}");
        assert_eq!(a.get(&k), Some(vec![i; 4]));
    }
}

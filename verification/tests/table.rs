//! The table against the standard library's map.

use std::collections::HashMap;

use hop_relayd::keys::same_bytes;
use hop_relayd::table::Table;

#[test]
fn a_table_does_what_a_map_does() {
    let mut table: Table<u32, u64> = Table::new();
    let mut map: HashMap<u32, u64> = HashMap::new();
    let mut x = 12_345u64;
    for step in 0..20_000u64 {
        x = x.wrapping_mul(6_364_136_223_846_793_005).wrapping_add(1_442_695_040_888_963_407);
        let key = ((x >> 33) % 97) as u32;
        if (x >> 60) < 9 {
            assert_eq!(table.insert(key, step), map.insert(key, step));
        } else {
            assert_eq!(table.remove(&key), map.remove(&key));
        }
        assert_eq!(table.len(), map.len());
        assert_eq!(table.get(&key), map.get(&key));
    }
    for key in 0..97 {
        assert_eq!(table.contains_key(&key), map.contains_key(&key));
    }
}

#[test]
fn keys_with_the_same_digest_are_told_apart() {
    // The digest of a pair is the first times a prime plus the second, so these two agree.
    let prime = 0x100_0000_01b3u64;
    let (a, b) = ((0u32, 1u64), (1u32, 1u64.wrapping_sub(prime)));
    let mut table: Table<(u32, u64), &str> = Table::new();
    table.insert(a, "a");
    table.insert(b, "b");
    assert_eq!(table.len(), 2);
    assert_eq!(table.get(&a), Some(&"a"));
    assert_eq!(table.get(&b), Some(&"b"));
    assert_eq!(table.remove(&a), Some("a"));
    assert_eq!(table.get(&a), None);
    assert_eq!(table.get(&b), Some(&"b"));
    assert_eq!(table.insert(b, "c"), Some("b"));
}

#[test]
fn what_a_table_holds_does_not_depend_on_its_salt() {
    for salt in [0, 1, 0x9e37_79b9_7f4a_7c15, u64::MAX] {
        let mut table: Table<([u8; 4], String), u64> = Table::salted(salt);
        for i in 0..200u8 {
            assert_eq!(table.insert(([i % 7, 0, i, 1], "r".repeat(i as usize % 3)), i as u64), None);
        }
        assert_eq!(table.len(), 200);
        for i in 0..200u8 {
            let key = ([i % 7, 0, i, 1], "r".repeat(i as usize % 3));
            assert_eq!(table.get(&key), Some(&(i as u64)));
        }
        assert_eq!(table.emptied().len(), 0);
    }
}

#[test]
fn keys_of_every_kind_find_their_values() {
    let mut bytes: Table<[u8; 4], u64> = Table::new();
    bytes.insert([1, 2, 3, 4], 9);
    assert_eq!(bytes.get(&[1, 2, 3, 4]), Some(&9));
    assert_eq!(bytes.get(&[4, 3, 2, 1]), None);

    let mut texts: Table<String, u64> = Table::new();
    texts.insert("us-central1".to_string(), 1);
    assert_eq!(texts.get(&"us-central1".to_string()), Some(&1));
    assert_eq!(texts.get(&"us-central2".to_string()), None);

    let mut pairs: Table<([u8; 32], String), u64> = Table::new();
    pairs.insert(([7; 32], "eu".to_string()), 2);
    assert!(pairs.contains_key(&([7; 32], "eu".to_string())));
    assert!(!pairs.contains_key(&([7; 32], "us".to_string())));
    assert!(!pairs.contains_key(&([8; 32], "eu".to_string())));
}

#[test]
fn the_lowest_ranked_leave_and_no_more() {
    let mut table: Table<u64, u64> = Table::new();
    // Expiries 5, 5, 5, 9, and one that never expires.
    for (key, expiry) in [(1, 5), (2, 5), (3, 5), (4, 9), (5, 0)] {
        table.insert(key, expiry);
    }
    table.evict_lowest(2);
    assert_eq!(table.len(), 3);
    assert_eq!((1..=3).filter(|k| table.contains_key(k)).count(), 1);
    assert!(table.contains_key(&4) && table.contains_key(&5));
    table.evict_lowest(0);
    assert_eq!(table.len(), 3);
    table.evict_lowest(2);
    assert_eq!(table.len(), 1);
    assert!(table.contains_key(&5), "what never expires leaves last");
    table.evict_lowest(1);
    assert_eq!(table.len(), 0);
}

#[test]
fn every_key_has_its_place() {
    let mut table: Table<u64, u64> = Table::new();
    for key in [3, 1, 2] {
        table.insert(key, 0);
    }
    let mut keys: Vec<u64> = (0..table.len()).map(|i| *table.key_at(i)).collect();
    keys.sort();
    assert_eq!(keys, vec![1, 2, 3]);
}

#[test]
fn bytes_are_compared_one_by_one() {
    assert!(same_bytes(b"", b""));
    assert!(same_bytes(b"abc", b"abc"));
    assert!(!same_bytes(b"abc", b"abd"));
    assert!(!same_bytes(b"abc", b"ab"));
}

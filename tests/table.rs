use hashmap::key::{key_hash, keys_equal};
use hashmap::{Entry, HashMap};
use std::collections::hash_map::DefaultHasher;
use std::hash::Hasher;

#[test]
fn insert_get() {
    let mut map = HashMap::new();
    map.insert("foo", 42);
    assert_eq!(map.get(&"foo"), Some(&42));
}

#[test]
fn remove() {
    let mut map = HashMap::new();
    map.insert("foo", "bar");
    assert_eq!(map.get(&"foo"), Some(&"bar"));
    assert_eq!(map.remove(&"foo"), Some("bar"));
}

#[test]
fn len_0() {
    let mut map = HashMap::new();
    assert_eq!(map.len(), 0);
    map.insert("foo", "bar");
}

#[test]
fn len_1() {
    let mut map = HashMap::new();
    map.insert("foo", "bar");
    assert_eq!(map.len(), 1);
}

#[test]
fn is_empty() {
    let mut map = HashMap::new();
    assert_eq!(map.is_empty(), true);
    map.insert("foo", "bar");
}

#[test]
fn contains_key() {
    let mut map = HashMap::new();
    map.insert("foo", "bar");
    assert_eq!(map.contains_key(&"foo"), true);
    assert_eq!(map.contains_key(&"bar"), false);
}

#[test]
fn iter() {
    let mut map = HashMap::new();
    map.insert("foo", 41);
    map.insert("bar", 42);
    map.insert("baz", 413);
    map.insert("quox", 4);

    let mut it = map.iter();
    while let Some((&key, &value)) = it.next() {
        match key {
            "foo" => assert_eq!(value, 41),
            "bar" => assert_eq!(value, 42),
            "baz" => assert_eq!(value, 413),
            "quox" => assert_eq!(value, 4),
            _ => unreachable!(),
        }
    }

    let mut count = 0;
    let mut it = map.iter();
    while it.next().is_some() {
        count += 1;
    }
    assert_eq!(count, 4);
}

#[test]
fn overwrite_returns_old_value() {
    let mut map = HashMap::new();
    assert_eq!(map.insert("k", 1), None);
    assert_eq!(map.len(), 1);
    assert_eq!(map.insert("k", 2), Some(1));
    assert_eq!(map.get(&"k"), Some(&2));
    assert_eq!(map.len(), 1);
}

#[test]
fn remove_round_trip() {
    let mut map = HashMap::new();
    map.insert("a", 10);
    map.insert("b", 20);
    assert_eq!(map.len(), 2);
    assert_eq!(map.remove(&"a"), Some(10));
    assert_eq!(map.get(&"a"), None);
    assert_eq!(map.len(), 1);
    assert_eq!(map.get(&"b"), Some(&20));
    assert_eq!(map.remove(&"a"), None);
    assert_eq!(map.len(), 1);
}

#[test]
fn absent_keys_on_empty_table() {
    let mut map: HashMap<&str, i32> = HashMap::new();
    assert_eq!(map.get(&"x"), None);
    assert_eq!(map.contains_key(&"x"), false);
    assert_eq!(map.remove(&"x"), None);
    assert!(map.is_empty());
}

#[test]
fn lengths_after_one_insert() {
    let mut map = HashMap::new();
    assert_eq!(map.len(), 0);
    assert!(map.is_empty());
    map.insert("only", 7u8);
    assert_eq!(map.len(), 1);
    assert!(!map.is_empty());
}

#[test]
fn entry_keeps_first_value() {
    let mut map = HashMap::new();
    assert_eq!(*map.entry("k").or_insert(1), 1);
    assert_eq!(*map.entry("k").or_insert(2), 1);
    assert_eq!(map.get(&"k"), Some(&1));
    assert_eq!(map.len(), 1);
}

#[test]
fn entry_reference_updates_table() {
    let mut map = HashMap::new();
    *map.entry("n").or_insert(0) += 5;
    *map.entry("n").or_insert(0) += 5;
    assert_eq!(map.get(&"n"), Some(&10));
}

#[test]
fn entry_variants() {
    let mut map = HashMap::new();
    match map.entry("k") {
        Entry::Occupied(_) => panic!("fresh table has no keys"),
        Entry::Vacant(v) => {
            v.insert(3);
        }
    }
    match map.entry("k") {
        Entry::Occupied(o) => assert_eq!(*o.into_mut(), 3),
        Entry::Vacant(_) => panic!("key was stored"),
    }
}

#[test]
fn or_insert_with_calls_maker_only_when_vacant() {
    let mut map = HashMap::new();
    let mut calls = 0;
    assert_eq!(
        *map.entry("k").or_insert_with(|| {
            calls += 1;
            9
        }),
        9
    );
    assert_eq!(
        *map.entry("k").or_insert_with(|| {
            calls += 1;
            99
        }),
        9
    );
    assert_eq!(calls, 1);
}

#[test]
fn or_insert_default_uses_default() {
    let mut map: HashMap<&str, u32> = HashMap::new();
    assert_eq!(*map.entry("k").or_insert_default(), 0);
    *map.entry("k").or_insert_default() += 4;
    assert_eq!(*map.entry("k").or_insert_default(), 4);
    assert_eq!(map.get(&"k"), Some(&4));
}

#[test]
fn resize_preserves_all_pairs() {
    let mut map = HashMap::new();
    for i in 0..1000u32 {
        assert_eq!(map.insert(format!("key{}", i), i), None);
    }
    assert_eq!(map.len(), 1000);
    for i in 0..1000u32 {
        assert_eq!(map.get(&format!("key{}", i)), Some(&i));
    }
    assert_eq!(map.get(&String::from("key1000")), None);
}

#[test]
fn iteration_visits_each_pair_once() {
    let mut map = HashMap::new();
    for i in 0..100u32 {
        map.insert(format!("k{}", i), i * 2);
    }
    let mut seen = vec![false; 100];
    let mut count = 0;
    let mut it = map.iter();
    while let Some((k, v)) = it.next() {
        let i: usize = k[1..].parse().unwrap();
        assert_eq!(*v, (i as u32) * 2);
        assert!(!seen[i]);
        seen[i] = true;
        count += 1;
    }
    assert_eq!(count, map.len());
    assert!(seen.iter().all(|s| *s));
    assert!(it.next().is_none());
}

#[test]
fn iteration_of_empty_table() {
    let map: HashMap<&str, i32> = HashMap::new();
    let mut it = map.iter();
    assert!(it.next().is_none());
}

#[test]
fn bulk_construction_matches_inserts() {
    let pairs = vec![("a", 1), ("b", 2), ("a", 3), ("c", 4), ("b", 5)];
    let built = HashMap::from_pairs(pairs.clone());
    let mut by_hand = HashMap::new();
    for (k, v) in pairs {
        by_hand.insert(k, v);
    }
    assert_eq!(built.len(), 3);
    assert_eq!(built.len(), by_hand.len());
    for k in ["a", "b", "c", "d"] {
        assert_eq!(built.get(&k), by_hand.get(&k));
    }
    assert_eq!(built.get(&"a"), Some(&3));
    assert_eq!(built.get(&"b"), Some(&5));
}

#[test]
fn key_hash_is_digest_of_bytes() {
    let mut h = DefaultHasher::new();
    h.write(b"foo");
    let expected = h.finish();
    assert_eq!(key_hash("foo"), expected);
    assert_eq!(key_hash(&String::from("foo")), expected);
    assert_eq!(key_hash(&"foo"), expected);
    assert_ne!(key_hash("foo"), key_hash("bar"));
}

#[test]
fn key_equality_by_bytes() {
    assert!(keys_equal("abc", "abc"));
    assert!(!keys_equal("abc", "abd"));
    assert!(!keys_equal("abc", "ab"));
    assert!(keys_equal(&String::from("abc"), "abc"));
    assert!(keys_equal(&String::new(), ""));
}

#[test]
fn borrowed_lookup_on_owned_keys() {
    let mut map: HashMap<String, i32> = HashMap::new();
    map.insert(String::from("foo"), 1);
    map.insert(String::from("bar"), 2);
    assert_eq!(map.get("foo"), Some(&1));
    assert_eq!(map.contains_key("bar"), true);
    assert_eq!(map.contains_key("baz"), false);
    assert_eq!(map.remove("foo"), Some(1));
    assert_eq!(map.get("foo"), None);
    assert_eq!(map.len(), 1);
}

use hashmap::key::TableKey;
use hashmap::map::{HashMap, Pair};
use std::collections::hash_map::DefaultHasher;
use std::hash::{Hash, Hasher};

#[derive(Debug)]
struct KeyWithFixedHash {
    hash: [u8; 4],
    key: i32,
}

impl TableKey for KeyWithFixedHash {
    type Id = i32;

    fn hash_code(&self) -> u64 {
        let mut hasher = DefaultHasher::new();
        hasher.write(&self.hash);
        hasher.finish()
    }

    fn same_key(&self, other: &Self) -> bool {
        self.key == other.key
    }
}

fn fixed(hash: [u8; 4], key: i32) -> KeyWithFixedHash {
    KeyWithFixedHash { hash, key }
}

#[test]
fn test_insert_many() {
    // given
    let mut map = HashMap::new();

    // when
    for i in 0..1_0000 {
        map.insert(i.to_string(), i);
    }
}

#[test]
fn test_get() {
    // given
    let mut map = HashMap::new();
    for i in 0..10 {
        map.insert(fixed([1, 2, 3, 4], i), i);
    }

    // when/then
    assert_eq!(
        Some(&9),
        map.get(&fixed([1, 2, 3, 4], 9)),
        "correctly resolves collisions"
    );
    assert_eq!(
        None,
        map.get(&fixed([1, 2, 3, 4], 10)),
        "doesnt loop infinitely if not exists and same hash"
    );
    assert_eq!(
        None,
        map.get(&fixed([0, 0, 0, 0], 10)),
        "finds nothing if hash doesn't match exists"
    );
}

#[test]
fn test_integration() {
    // given
    let mut map = HashMap::new();
    for i in 0..10 {
        map.insert(i.to_string(), i);
    }

    // when/then
    assert_eq!(
        Some(&9),
        map.get(&"9".to_string()),
        "finds existing element"
    );
    assert_eq!(
        Some(9),
        map.remove(&"9".to_string()),
        "removes existing element"
    );
    assert_eq!(
        None,
        map.get(&"9".to_string()),
        "does not find removed element"
    );
    assert_eq!(
        Some(1),
        map.insert("1".to_string(), 12),
        "returns existing element on insertion"
    );
    assert_eq!(
        Some(&12),
        map.get(&"1".to_string()),
        "finds inserted element"
    );
}

#[test]
fn test_into_iter() {
    // given
    let mut want_pairs: Vec<Pair<String, i32>> = (0..1_0000)
        .map(|i| Pair {
            key: i.to_string(),
            value: i,
        })
        .collect();

    let mut map = HashMap::new();
    for p in want_pairs.iter() {
        map.insert(p.key.clone(), p.value);
    }

    // when
    let mut got_pairs = Vec::new();
    let mut it = map.into_iter();
    while let Some(p) = it.next() {
        got_pairs.push(p);
    }

    // then
    want_pairs.sort_by(|a, b| a.key.cmp(&b.key));
    got_pairs.sort_by(|a, b| a.key.cmp(&b.key));
    assert_eq!(want_pairs, got_pairs);
}

#[test]
fn test_iter() {
    // given
    let mut map = HashMap::new();
    for i in 0..1_0000 {
        map.insert(i.to_string(), i);
    }

    // when
    let mut got_pairs = Vec::new();
    let mut it = map.iter();
    while let Some(p) = it.next() {
        got_pairs.push(p);
    }

    // then
    for i in 0..1_0000 {
        assert!(got_pairs.contains(&Pair {
            key: &i.to_string(),
            value: &i
        }));
    }
}

#[test]
fn many_string_keys_are_counted_and_found() {
    let mut map = HashMap::new();
    for i in 0..10000 {
        assert_eq!(map.insert(i.to_string(), i), None);
    }
    assert_eq!(map.len(), 10000);
    assert_eq!(map.get(&"42".to_string()), Some(&42));
    assert_eq!(map.get(&"10000".to_string()), None);
}

#[test]
fn len_counts_distinct_keys() {
    let mut map = HashMap::new();
    for k in ["b", "a", "b", "c", "a", "b"] {
        map.insert(k.to_string(), 1);
    }
    assert_eq!(map.len(), 3);
    assert!(!map.is_empty());
}

#[test]
fn new_table_is_empty_with_initial_capacity() {
    let map: HashMap<String, i32> = HashMap::new();
    assert!(map.is_empty());
    assert_eq!(map.len(), 0);
    assert_eq!(map.capacity(), 1024);
    let other: HashMap<String, i32> = HashMap::default();
    assert_eq!(other.capacity(), 1024);
    assert!(other.iter().next().is_none());
}

#[test]
fn reinsert_returns_old_value_and_keeps_len() {
    let mut map = HashMap::new();
    assert_eq!(map.insert("k".to_string(), 1), None);
    assert_eq!(map.insert("k".to_string(), 2), Some(1));
    assert_eq!(map.len(), 1);
    assert_eq!(map.get(&"k".to_string()), Some(&2));
}

#[test]
fn remove_then_get_and_remove_again() {
    let mut map = HashMap::new();
    map.insert("x".to_string(), 5);
    assert_eq!(map.remove(&"x".to_string()), Some(5));
    assert_eq!(map.get(&"x".to_string()), None);
    assert_eq!(map.remove(&"x".to_string()), None);
    assert_eq!(map.len(), 0);
    assert!(map.is_empty());
}

#[test]
fn tombstone_slot_is_reused() {
    let mut map = HashMap::new();
    map.insert("x".to_string(), 5);
    map.remove(&"x".to_string());
    assert_eq!(map.insert("x".to_string(), 6), None);
    assert_eq!(map.get(&"x".to_string()), Some(&6));
    assert_eq!(map.len(), 1);
}

#[test]
fn colliding_key_behind_a_tombstone_is_not_duplicated() {
    let mut map = HashMap::new();
    map.insert(fixed([7, 7, 7, 7], 1), 10);
    map.insert(fixed([7, 7, 7, 7], 2), 20);
    assert_eq!(map.remove(&fixed([7, 7, 7, 7], 1)), Some(10));
    assert_eq!(map.insert(fixed([7, 7, 7, 7], 2), 21), Some(20));
    assert_eq!(map.len(), 1);
    assert_eq!(map.get(&fixed([7, 7, 7, 7], 2)), Some(&21));
    assert_eq!(map.get(&fixed([7, 7, 7, 7], 1)), None);
}

#[test]
fn colliding_keys_are_all_found_and_missing_one_is_not() {
    let mut map = HashMap::new();
    for i in 0..50 {
        map.insert(fixed([9, 9, 9, 9], i), i * 2);
    }
    for i in 0..50 {
        assert_eq!(map.get(&fixed([9, 9, 9, 9], i)), Some(&(i * 2)));
    }
    assert_eq!(map.get(&fixed([9, 9, 9, 9], 50)), None);
    assert_eq!(map.remove(&fixed([9, 9, 9, 9], 50)), None);
}

#[test]
fn growth_doubles_capacity_and_keeps_pairs() {
    let mut map = HashMap::new();
    // 666 * 100 / 1024 == 65: the insert after that grows the table
    for i in 0..666 {
        map.insert(i.to_string(), i);
    }
    assert_eq!(map.capacity(), 1024);
    map.insert("666".to_string(), 666);
    assert_eq!(map.capacity(), 2048);
    assert_eq!(map.len(), 667);
    for i in 0..667 {
        assert_eq!(map.get(&i.to_string()), Some(&i));
    }
}

#[test]
fn ensure_capacity_below_threshold_changes_nothing() {
    let mut map = HashMap::new();
    map.insert("a".to_string(), 1);
    map.ensure_capacity();
    assert_eq!(map.capacity(), 1024);
    assert_eq!(map.len(), 1);
    assert_eq!(map.get(&"a".to_string()), Some(&1));
}

#[test]
fn ensure_capacity_drops_tombstones() {
    let mut map = HashMap::new();
    for i in 0..700 {
        map.insert(i.to_string(), i);
    }
    for i in 0..300 {
        map.remove(&i.to_string());
    }
    let cap = map.capacity();
    map.ensure_capacity();
    assert_eq!(map.capacity(), cap);
    assert_eq!(map.len(), 400);
    for i in 300..700 {
        assert_eq!(map.get(&i.to_string()), Some(&i));
    }
}

#[test]
fn iteration_yields_each_pair_once_with_latest_value() {
    let mut map = HashMap::new();
    for i in 0..100 {
        map.insert(i.to_string(), i);
    }
    map.insert("5".to_string(), 500);
    map.remove(&"7".to_string());
    let mut got = Vec::new();
    let mut it = map.iter();
    while let Some(p) = it.next() {
        got.push((p.key.clone(), *p.value));
    }
    assert_eq!(got.len(), map.len());
    got.sort();
    got.dedup();
    assert_eq!(got.len(), 99);
    assert!(got.contains(&("5".to_string(), 500)));
    assert!(!got.iter().any(|(k, _)| k == "7"));
}

#[test]
fn string_hash_depends_on_the_characters() {
    let a = "a".to_string();
    let b = "b".to_string();
    let mut hasher = DefaultHasher::new();
    a.hash(&mut hasher);
    assert_eq!(a.hash_code(), hasher.finish());
    assert_ne!(a.hash_code(), b.hash_code());
    assert_eq!(a.hash_code(), "a".to_string().hash_code());
    assert!(a.same_key(&"a".to_string()));
    assert!(!a.same_key(&b));
}

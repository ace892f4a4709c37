use hashmap::{HashKey, HashMap, HashMapItem};
use std::collections::hash_map::DefaultHasher;

fn key(s: &str) -> String {
    String::from(s)
}

fn entries(map: &HashMap<String, i32>) -> Vec<(String, i32)> {
    let mut got = Vec::new();
    let mut it = map.iter();
    while let Some((k, v)) = it.next() {
        got.push((k.clone(), *v));
    }
    got
}

#[test]
fn scenario_updates_case_sensitivity_and_removal() {
    let mut map = HashMap::new(3);
    map.set(&key("foo"), 1);
    map.set(&key("bar"), 2);
    map.set(&key("baz"), 3);
    map.set(&key("baz"), 4);
    assert_eq!(map.len(), 3);
    assert_eq!(map.get(&key("baz")), Some(&4));
    assert_eq!(map.get(&key("Baz")), None);
    assert_eq!(map.get(&key("foo")), Some(&1));
    assert_eq!(map.remove(&key("foo")), Some(1));
    assert_eq!(map.len(), 2);
    assert_eq!(map.get(&key("foo")), None);
    assert_eq!(map.get(&key("bar")), Some(&2));
    assert_eq!(map.get(&key("baz")), Some(&4));
}

#[test]
fn size_follows_distinct_keys() {
    let mut map = HashMap::new(2);
    assert_eq!(map.len(), 0);
    map.set(&key("a"), 1);
    map.set(&key("b"), 2);
    map.set(&key("a"), 3);
    assert_eq!(map.len(), 2);
    assert_eq!(map.remove(&key("zzz")), None);
    assert_eq!(map.len(), 2);
    assert_eq!(map.remove(&key("b")), Some(2));
    assert_eq!(map.len(), 1);
    assert_eq!(map.remove(&key("b")), None);
    assert_eq!(map.len(), 1);
}

#[test]
fn round_trip_for_every_bucket_count() {
    for n in [1usize, 2, 3, 10, 64] {
        let mut map = HashMap::new(n);
        for (i, s) in ["x", "y", "z", "xy", "yx", ""].iter().enumerate() {
            map.set(&key(s), i as i32);
        }
        map.set(&key("y"), 77);
        assert_eq!(map.get(&key("y")), Some(&77));
        assert_eq!(map.get(&key("")), Some(&5));
        assert_eq!(map.get(&key("yx")), Some(&4));
        assert_eq!(map.len(), 6);
    }
}

#[test]
fn update_keeps_size_and_takes_last_value() {
    let mut map = HashMap::new(4);
    map.set(&key("k"), 1);
    let before = map.len();
    map.set(&key("k"), 2);
    assert_eq!(map.len(), before);
    assert_eq!(map.get(&key("k")), Some(&2));
}

#[test]
fn removal_from_head_middle_and_tail_of_one_chain() {
    let mut map = HashMap::new(1);
    for (i, s) in ["a", "b", "c", "d", "e"].iter().enumerate() {
        map.set(&key(s), i as i32);
    }
    assert_eq!(map.remove(&key("c")), Some(2));
    assert_eq!(entries(&map), vec![(key("a"), 0), (key("b"), 1), (key("d"), 3), (key("e"), 4)]);
    assert_eq!(map.remove(&key("a")), Some(0));
    assert_eq!(entries(&map), vec![(key("b"), 1), (key("d"), 3), (key("e"), 4)]);
    assert_eq!(map.remove(&key("e")), Some(4));
    assert_eq!(entries(&map), vec![(key("b"), 1), (key("d"), 3)]);
    assert_eq!(map.get(&key("a")), None);
    assert_eq!(map.get(&key("d")), Some(&3));
    assert_eq!(map.len(), 2);
}

#[test]
fn iteration_keeps_insertion_order_within_a_chain() {
    let mut map = HashMap::new(1);
    map.set(&key("one"), 1);
    map.set(&key("two"), 2);
    map.set(&key("three"), 3);
    map.set(&key("two"), 22);
    assert_eq!(entries(&map), vec![(key("one"), 1), (key("two"), 22), (key("three"), 3)]);
}

#[test]
fn iteration_of_empty_table_ends_at_once() {
    let map: HashMap<String, i32> = HashMap::new(7);
    let mut it = map.iter();
    assert!(it.next().is_none());
    assert!(it.next().is_none());
}

#[test]
fn iteration_yields_each_key_once_for_any_bucket_count() {
    let names = ["alpha", "beta", "gamma", "delta", "epsilon", "zeta", "eta"];
    for n in [1usize, 2, 10] {
        let mut map = HashMap::new(n);
        for (i, s) in names.iter().enumerate() {
            map.set(&key(s), i as i32);
        }
        let mut got = entries(&map);
        got.sort();
        let mut want: Vec<(String, i32)> = names.iter().enumerate().map(|(i, s)| (key(s), i as i32)).collect();
        want.sort();
        assert_eq!(got, want);
        let mut it = map.iter();
        for _ in 0..names.len() {
            assert!(it.next().is_some());
        }
        assert!(it.next().is_none());
    }
}

#[test]
fn rehash_preserves_size_and_values() {
    let mut map = HashMap::new(1);
    for i in 0..20 {
        map.set(&format!("key{}", i), i);
    }
    map.remove(&key("key7"));
    map.rehash(DefaultHasher::new());
    assert_eq!(map.len(), 19);
    for i in 0..20 {
        let want = if i == 7 { None } else { Some(&i) };
        assert_eq!(map.get(&format!("key{}", i)), want);
    }
}

#[test]
fn get_mut_on_absent_key_is_none() {
    let mut map: HashMap<String, i32> = HashMap::new(2);
    map.set(&key("here"), 1);
    assert!(map.get_mut(&key("gone")).is_none());
    if let Some(v) = map.get_mut(&key("here")) {
        *v += 41;
    }
    assert_eq!(map.get(&key("here")), Some(&42));
    assert_eq!(map.len(), 1);
}

#[test]
fn string_hash_is_polynomial_over_code_points() {
    assert_eq!(key("").hash_key(), 0);
    assert_eq!(key("a").hash_key(), 97);
    assert_eq!(key("ab").hash_key(), 97 * 31 + 98);
    assert_eq!(key("abc").hash_key(), (97 * 31 + 98) * 31 + 99);
    assert_eq!(key("\u{e9}").hash_key(), 0xe9);
    let long = key("the quick brown fox jumps over the lazy dog");
    let mut want: u64 = 0;
    for c in long.chars() {
        want = want.wrapping_mul(31).wrapping_add(c as u64);
    }
    assert_eq!(long.hash_key(), want);
}

#[test]
fn string_keys_compare_and_clone_by_content() {
    assert!(key("abc").key_eq(&key("abc")));
    assert!(!key("abc").key_eq(&key("abC")));
    assert_eq!(key("xyz").clone_key(), key("xyz"));
}

#[test]
fn item_holds_key_and_value() {
    let item = HashMapItem::new(key("k"), 5);
    assert_eq!(item.key, key("k"));
    assert_eq!(item.value, 5);
}

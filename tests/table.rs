use hashmap::HashMap;
use std::collections::hash_map::DefaultHasher;

fn collect(map: &HashMap<String, i32>) -> Vec<(String, i32)> {
    let mut got = Vec::new();
    let mut it = map.iter();
    while let Some((k, v)) = it.next() {
        got.push((k.clone(), *v));
    }
    got
}

#[test]
fn len_method_works() {
    let mut map = HashMap::new(3);
    map.set(&String::from("foo"), 1);
    assert_eq!(map.len(), 1);
    map.set(&String::from("bar"), 2);
    assert_eq!(map.len(), 2);
    map.set(&String::from("baz"), 3);
    assert_eq!(map.len(), 3);
    map.set(&String::from("Hello!"), 42);
    assert_eq!(map.len(), 4);
    map.remove(&String::from("foo"));
    assert_eq!(map.len(), 3);
}

#[test]
fn set_get_methods_work() {
    let mut map = HashMap::new(10);
    map.set(&String::from("aaa"), 10);
    map.set(&String::from("bbb"), 20);
    map.set(&String::from("ccc"), 30);
    map.set(&String::from("ddd"), 40);

    assert_eq!(map.get(&String::from("aaa")), Some(&10));
    assert_eq!(map.get(&String::from("bbb")), Some(&20));
    assert_eq!(map.get(&String::from("ccc")), Some(&30));
    assert_eq!(map.get(&String::from("ddd")), Some(&40));
}

#[test]
fn get_mut_method_works() {
    let mut map = HashMap::new(5);
    map.set(&String::from("aaa"), 10);
    let _ = map.get_mut(&String::from("aaa")).map(|x| *x = 20);
    assert_eq!(map.get(&String::from("aaa")), Some(&20));
}

#[test]
fn remove_method_works() {
    let mut map = HashMap::new(10);
    map.set(&String::from("aaa"), 10);
    map.set(&String::from("bbb"), 20);
    map.set(&String::from("ccc"), 30);
    map.set(&String::from("ddd"), 40);

    assert_eq!(map.get(&String::from("aaa")), Some(&10));
    map.remove(&String::from("aaa"));
    assert_eq!(map.get(&String::from("aaa")), None);
    assert_eq!(map.get(&String::from("bbb")), Some(&20));
    map.remove(&String::from("bbb"));
    assert_eq!(map.get(&String::from("bbb")), None);
    assert_eq!(map.get(&String::from("ccc")), Some(&30));
    map.remove(&String::from("ccc"));
    assert_eq!(map.get(&String::from("ccc")), None);
    assert_eq!(map.get(&String::from("ddd")), Some(&40));
    map.remove(&String::from("ddd"));
    assert_eq!(map.get(&String::from("ddd")), None);
}

#[test]
fn rehash_method_works() {
    let mut map = HashMap::new(2);
    map.set(&String::from("aaa"), 10);
    map.set(&String::from("bbb"), 20);
    map.set(&String::from("ccc"), 30);
    map.set(&String::from("ddd"), 40);

    map.rehash(DefaultHasher::new());

    assert_eq!(map.get(&String::from("aaa")), Some(&10));
    assert_eq!(map.get(&String::from("bbb")), Some(&20));
    assert_eq!(map.get(&String::from("ccc")), Some(&30));
    assert_eq!(map.get(&String::from("ddd")), Some(&40));
}

#[test]
fn iterator_few_buckets_works() {
    let mut items = vec![
        (String::from("foo"), 99),
        (String::from("bar"), -5),
        (String::from("baz"), 42),
    ];
    items.sort();

    let mut map = HashMap::new(2);
    for (k, v) in items.iter() {
        map.set(k, *v);
    }
    let mut got_items = collect(&map);
    got_items.sort();

    assert_eq!(got_items.len(), items.len());
    assert_eq!(got_items, items);
}

#[test]
fn iterator_many_buckets_works() {
    let mut items = vec![
        (String::from("foo"), 99),
        (String::from("bar"), -5),
        (String::from("baz"), 42),
    ];
    items.sort();

    let mut map = HashMap::new(10);
    for (k, v) in items.iter() {
        map.set(k, *v);
    }
    let mut got_items = collect(&map);
    got_items.sort();

    assert_eq!(got_items.len(), items.len());
    assert_eq!(got_items, items);
}

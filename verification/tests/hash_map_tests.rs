use bump_allocator::hash_map::HashMap;

#[test]
fn fresh_map_finds_nothing() {
    let map: HashMap<String, u32> = HashMap::new();
    assert_eq!(map.get(&String::from("missing")), None);
}

#[test]
fn insert_then_get_returns_the_value() {
    let mut map: HashMap<String, u32> = HashMap::new();
    map.insert(String::from("one"), 1);
    map.insert(String::from("two"), 2);
    assert_eq!(map.get(&String::from("one")), Some(&1));
    assert_eq!(map.get(&String::from("two")), Some(&2));
    assert_eq!(map.get(&String::from("three")), None);
}

#[test]
fn insert_overwrites_an_existing_key() {
    let mut map: HashMap<String, &'static str> = HashMap::new();
    map.insert(String::from("key"), "old");
    map.insert(String::from("key"), "new");
    assert_eq!(map.get(&String::from("key")), Some(&"new"));
}

#[test]
fn colliding_keys_probe_to_distinct_buckets() {
    // "a" hashes to 97, and the two-byte key "\u{0}a" folds to the same
    // value, so both keys share a home bucket and the second is stored by
    // linear probing.
    let mut map: HashMap<String, u32> = HashMap::new();
    map.insert(String::from("a"), 10);
    map.insert(String::from("\u{0}a"), 20);
    assert_eq!(map.get(&String::from("a")), Some(&10));
    assert_eq!(map.get(&String::from("\u{0}a")), Some(&20));
    map.insert(String::from("a"), 30);
    assert_eq!(map.get(&String::from("a")), Some(&30));
    assert_eq!(map.get(&String::from("\u{0}a")), Some(&20));
}

#[test]
fn iter_yields_every_entry_once() {
    let mut map: HashMap<String, u32> = HashMap::new();
    map.insert(String::from("x"), 7);
    map.insert(String::from("y"), 8);
    map.insert(String::from("x"), 9);
    let entries = map.iter();
    assert_eq!(entries.len(), 2);
    let mut seen_x = false;
    let mut seen_y = false;
    for pair in entries {
        if pair.0 == "x" {
            assert_eq!(pair.1, 9);
            assert!(!seen_x);
            seen_x = true;
        } else if pair.0 == "y" {
            assert_eq!(pair.1, 8);
            assert!(!seen_y);
            seen_y = true;
        } else {
            panic!("unexpected key");
        }
    }
    assert!(seen_x && seen_y);
}

#[test]
fn unicode_keys_are_distinguished() {
    let mut map: HashMap<String, u32> = HashMap::new();
    map.insert(String::from("gr\u{00fc}\u{00df}e"), 1);
    map.insert(String::from("grusse"), 2);
    assert_eq!(map.get(&String::from("gr\u{00fc}\u{00df}e")), Some(&1));
    assert_eq!(map.get(&String::from("grusse")), Some(&2));
}

#[test]
fn the_empty_string_is_a_key() {
    let mut map: HashMap<String, u32> = HashMap::new();
    assert_eq!(map.get(&String::new()), None);
    map.insert(String::new(), 42);
    assert_eq!(map.get(&String::new()), Some(&42));
}

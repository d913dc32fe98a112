use hamster::HAMT;

fn setup_big_map() -> (i32, HAMT<i32, i32>) {
    let num_keys = 10000;
    let mut map = HAMT::new();
    for k in 1..num_keys {
        map = map.insert(k, -k);
    }
    (num_keys, map)
}

#[test]
fn set_then_get() {
    let (n, map) = setup_big_map();

    for k in 1..n {
        let val = map.get(k).unwrap();
        assert_eq!(*val, -k);
    }
}

#[test]
fn set_immutability() {
    let (n, map) = setup_big_map();

    let mut map2 = map.clone();
    for k in n..(2 * n) {
        map2 = map2.insert(k, -k);
    }
    for k in n..(2 * n) {
        assert!(!map.contains_key(k));
        assert!(map2.contains_key(k));
    }
}

#[test]
fn from() {
    let map = HAMT::from([("a", 1), ("b", 2)]);
    assert_eq!(*map.get("a").unwrap(), 1);
    assert_eq!(*map.get("b").unwrap(), 2);
    assert_eq!(map.get("c"), None);
}

#[test]
fn contains_key() {
    let map = HAMT::from([("a", 1), ("b", 2)]);
    assert!(map.contains_key("a"));
    assert!(map.contains_key("b"));
    assert!(!map.contains_key("c"));
}

#[test]
fn big_contains_key() {
    let (n, map) = setup_big_map();
    for k in 1..n {
        assert!(map.contains_key(k));
    }
    assert!(!map.contains_key(0));
    assert!(!map.contains_key(-1));
    assert!(!map.contains_key(n + 1));
}

#[test]
fn big_remove() {
    let (n, mut map) = setup_big_map();
    for k in (1..n).step_by(2) {
        map = map.remove(k);
    }
    for k in (1..n).step_by(2) {
        assert!(!map.contains_key(k));
    }
    for k in (2..n).step_by(2) {
        assert!(map.contains_key(k));
    }
}

#[test]
fn remove_immutability() {
    let (n, map) = setup_big_map();

    let mut map2 = map.clone();
    for k in n..(2 * n) {
        map2 = map2.insert(k, -k);
    }
    for k in (1..n).step_by(2) {
        map2 = map2.remove(k);
    }

    for k in (1..n).step_by(2) {
        assert!(map.contains_key(k));
        assert!(!map2.contains_key(k));
    }
}

use hamster::HashKey;
use hamster::HAMT;
use std::collections::hash_map::DefaultHasher;
use std::hash::Hash;
use std::hash::Hasher;

fn std_hash<T: Hash + ?Sized>(key: &T) -> u64 {
    let mut hasher = DefaultHasher::new();
    key.hash(&mut hasher);
    hasher.finish()
}

fn fragment(hash: u64, level: u32) -> u64 {
    if level < 12 {
        (hash >> (59 - 5 * level)) & 31
    } else {
        (hash & 15) << 1
    }
}

/// The height of a map that holds just two keys with these hashes.
fn height_of_two(hash1: u64, hash2: u64) -> u32 {
    let mut level = 0;
    while level < 13 && fragment(hash1, level) == fragment(hash2, level) {
        level += 1;
    }
    level
}

#[test]
fn i32_keys_are_hashed_by_the_default_hasher() {
    for k in -50i32..50 {
        assert_eq!(k.hash_key(), std_hash(&k));
    }
    assert!(1i32.hash_key() != 2i32.hash_key());
}

#[test]
fn u64_keys_are_hashed_by_the_default_hasher() {
    for k in 0u64..100 {
        assert_eq!(k.hash_key(), std_hash(&k));
    }
    assert!(1u64.hash_key() != 2u64.hash_key());
}

#[test]
fn str_keys_are_hashed_by_the_default_hasher() {
    for word in ["", "a", "b", "ab", "hash array mapped trie"] {
        assert_eq!(word.hash_key(), std_hash(word));
    }
    assert!("a".hash_key() != "b".hash_key());
}

#[test]
fn string_keys_are_hashed_as_their_slices() {
    for word in ["", "a", "b", "ab", "hash array mapped trie"] {
        let owned = String::from(word);
        assert_eq!(owned.hash_key(), std_hash(&owned));
        assert_eq!(owned.hash_key(), word.hash_key());
        assert!(owned.same_key(&String::from(word)));
        assert!(!owned.same_key(&String::from("other")));
        assert_eq!(owned.clone_key(), owned);
    }
    let map: HAMT<String, usize> = HAMT::new();
    let map = map.insert(String::from("one"), 1).insert(String::from("two"), 2);
    assert_eq!(map.get(String::from("one")), Some(&1));
    assert_eq!(map.get(String::from("two")), Some(&2));
    assert_eq!(map.get(String::from("three")), None);
    assert!(!map.remove(String::from("one")).contains_key(String::from("one")));
}

#[test]
fn keys_compare_and_copy() {
    assert!(3i32.same_key(&3));
    assert!(!3i32.same_key(&4));
    assert!(3u64.same_key(&3));
    assert!(!3u64.same_key(&4));
    assert!("abc".same_key(&"abc"));
    assert!(!"abc".same_key(&"abd"));
    assert!(!"abc".same_key(&"ab"));
    let owned = String::from("abc");
    assert!("abc".same_key(&owned.as_str()));
    assert_eq!(5i32.clone_key(), 5);
    assert_eq!(5u64.clone_key(), 5);
    assert_eq!("abc".clone_key(), "abc");
}

#[test]
fn two_i32_keys_stand_as_deep_as_their_hashes_agree() {
    for k in 1i32..200 {
        let map: HAMT<i32, i32> = HAMT::new();
        let map = map.insert(0, 0).insert(k, k);
        assert_eq!(map.height(), height_of_two(std_hash(&0i32), std_hash(&k)));
        assert!(map.height() < 13);
    }
}

#[test]
fn two_u64_keys_stand_as_deep_as_their_hashes_agree() {
    for k in 1u64..200 {
        let map: HAMT<u64, u64> = HAMT::new();
        let map = map.insert(0, 0).insert(k, k);
        assert_eq!(map.height(), height_of_two(std_hash(&0u64), std_hash(&k)));
        assert!(map.height() < 13);
    }
}

#[test]
fn str_keys_that_share_a_branch_are_told_apart() {
    let words: Vec<String> = (0..400).map(|n| format!("word{}", n)).collect();
    let first = words[0].as_str();
    let shared: Vec<&str> = words[1..]
        .iter()
        .map(|word| word.as_str())
        .filter(|word| fragment(std_hash(*word), 0) == fragment(std_hash(first), 0))
        .collect();
    assert!(!shared.is_empty());
    for other in shared {
        let alone: HAMT<&str, i32> = HAMT::new();
        let alone = alone.insert(first, 1);
        assert_eq!(alone.get(other), None);
        assert!(!alone.contains_key(other));
        assert_eq!(alone.remove(other).get(first), Some(&1));
        let both = alone.insert(other, 2);
        assert_eq!(both.get(first), Some(&1));
        assert_eq!(both.get(other), Some(&2));
        assert_eq!(both.height(), height_of_two(std_hash(first), std_hash(other)));
        assert!(both.height() >= 1);
    }
}

#[test]
fn many_str_keys() {
    let words: Vec<String> = (0..3000).map(|n| format!("key-{}", n)).collect();
    let mut map: HAMT<&str, usize> = HAMT::new();
    for (n, word) in words.iter().enumerate() {
        map = map.insert(word.as_str(), n);
    }
    for (n, word) in words.iter().enumerate() {
        assert_eq!(map.get(word.as_str()), Some(&n));
    }
    assert_eq!(map.get("key-3000"), None);
    for word in words.iter().step_by(3) {
        map = map.remove(word.as_str());
    }
    for (n, word) in words.iter().enumerate() {
        assert_eq!(map.contains_key(word.as_str()), n % 3 != 0);
    }
}

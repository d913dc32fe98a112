use hamster::HashKey;
use hamster::HAMT;

/// A key whose hash is chosen by the test.
#[derive(Clone, Copy, Debug, PartialEq)]
struct Fixed {
    hash: u64,
    name: u32,
}

impl HashKey for Fixed {
    type Id = (u64, u32);

    fn id(&self) -> (u64, u32) {
        (self.hash, self.name)
    }

    fn hash_of(id: (u64, u32)) -> u64 {
        id.0
    }

    fn hash_key(&self) -> u64 {
        self.hash
    }

    fn same_key(&self, other: &Self) -> bool {
        self.hash == other.hash && self.name == other.name
    }

    fn clone_key(&self) -> Self {
        *self
    }
}

fn key(hash: u64, name: u32) -> Fixed {
    Fixed { hash, name }
}

fn empty() -> HAMT<Fixed, i32> {
    HAMT::new()
}

#[test]
fn keys_on_different_branches_stand_in_the_root() {
    let mut map = empty();
    for branch in 0..32u64 {
        map = map.insert(key(branch << 59, 0), branch as i32);
        assert_eq!(map.height(), 0);
    }
    for branch in 0..32u64 {
        assert_eq!(map.get(key(branch << 59, 0)), Some(&(branch as i32)));
        assert_eq!(map.get(key(branch << 59, 1)), None);
    }
    for branch in (0..32u64).rev() {
        map = map.remove(key(branch << 59, 0));
        assert!(!map.contains_key(key(branch << 59, 0)));
        if branch > 0 {
            assert!(map.contains_key(key((branch - 1) << 59, 0)));
        }
    }
    assert_eq!(map.height(), 0);
}

#[test]
fn keys_that_part_at_the_second_level() {
    let a = key(0, 0);
    let b = key(1 << 58, 0);
    let map = empty().insert(a, 1).insert(b, 2);
    assert_eq!(map.height(), 1);
    assert_eq!(map.get(a), Some(&1));
    assert_eq!(map.get(b), Some(&2));
    assert_eq!(map.get(key(1 << 57, 0)), None);
    assert_eq!(map.get(key(0, 1)), None);
}

#[test]
fn keys_that_part_at_each_level() {
    for level in 0..12u32 {
        let a = key(0, 0);
        let b = key(1 << (59 - 5 * level), 0);
        let map = empty().insert(a, 1).insert(b, 2);
        assert_eq!(map.height(), level);
        assert_eq!(map.get(a), Some(&1));
        assert_eq!(map.get(b), Some(&2));
        let other_order = empty().insert(b, 2).insert(a, 1);
        assert_eq!(other_order.height(), level);
        assert_eq!(other_order.get(a), Some(&1));
        assert_eq!(other_order.get(b), Some(&2));
    }
}

#[test]
fn hashes_that_differ_in_the_last_four_bits_only() {
    let a = key(0xABCD_EF01_2345_6780, 0);
    for low in 1..16u64 {
        let b = key(0xABCD_EF01_2345_6780 | low, 0);
        let map = empty().insert(a, 1).insert(b, 2);
        assert_eq!(map.height(), 12);
        assert_eq!(map.get(a), Some(&1));
        assert_eq!(map.get(b), Some(&2));
        assert!(map.contains_key(a));
        assert!(map.contains_key(b));
        let without_a = map.remove(a);
        assert_eq!(without_a.get(a), None);
        assert_eq!(without_a.get(b), Some(&2));
        let without_b = map.remove(b);
        assert_eq!(without_b.get(a), Some(&1));
        assert_eq!(without_b.get(b), None);
    }
}

#[test]
fn equal_hashes_are_chained() {
    let a = key(5, 0);
    let b = key(5, 1);
    let c = key(5, 2);
    let one = empty().insert(a, 10);
    assert_eq!(one.height(), 0);
    let two = one.insert(b, 20);
    assert_eq!(two.height(), 13);
    assert_eq!(two.get(a), Some(&10));
    assert_eq!(two.get(b), Some(&20));
    assert_eq!(two.get(c), None);
    assert!(!two.contains_key(c));
    let three = two.insert(c, 30);
    assert_eq!(three.height(), 13);
    assert_eq!(three.get(a), Some(&10));
    assert_eq!(three.get(b), Some(&20));
    assert_eq!(three.get(c), Some(&30));
    let changed = three.insert(b, 21);
    assert_eq!(changed.height(), 13);
    assert_eq!(changed.get(a), Some(&10));
    assert_eq!(changed.get(b), Some(&21));
    assert_eq!(changed.get(c), Some(&30));
    assert_eq!(three.get(b), Some(&20));
}

#[test]
fn a_chain_shrinks_and_goes() {
    let a = key(u64::MAX, 0);
    let b = key(u64::MAX, 1);
    let c = key(u64::MAX, 2);
    let map = empty().insert(a, 1).insert(b, 2).insert(c, 3);
    let absent = map.remove(key(u64::MAX, 9));
    assert_eq!(absent.height(), 13);
    assert_eq!(absent.get(a), Some(&1));
    assert_eq!(absent.get(b), Some(&2));
    assert_eq!(absent.get(c), Some(&3));
    let map = map.remove(b);
    assert_eq!(map.height(), 13);
    assert_eq!(map.get(a), Some(&1));
    assert_eq!(map.get(b), None);
    assert_eq!(map.get(c), Some(&3));
    let map = map.remove(a);
    assert_eq!(map.height(), 13);
    assert_eq!(map.get(a), None);
    assert_eq!(map.get(c), Some(&3));
    let map = map.remove(c);
    assert_eq!(map.height(), 0);
    assert_eq!(map.get(c), None);
    assert!(!map.contains_key(a));
}

#[test]
fn a_node_with_one_key_left_stays_a_node() {
    let a = key(0, 0);
    let b = key(1 << 58, 0);
    let map = empty().insert(a, 1).insert(b, 2);
    assert_eq!(map.height(), 1);
    let map = map.remove(b);
    assert_eq!(map.height(), 1);
    assert_eq!(map.get(a), Some(&1));
    assert_eq!(map.get(b), None);
    let again = map.insert(b, 3);
    assert_eq!(again.height(), 1);
    assert_eq!(again.get(b), Some(&3));
    let map = map.remove(a);
    assert_eq!(map.height(), 0);
    assert_eq!(map.get(a), None);
}

#[test]
fn empty_nodes_go_all_the_way_up() {
    let a = key(0x10, 0);
    let b = key(0x11, 0);
    let top = key(1 << 63, 0);
    let map = empty().insert(top, 0).insert(a, 1).insert(b, 2);
    assert_eq!(map.height(), 12);
    let map = map.remove(a);
    assert_eq!(map.height(), 12);
    let map = map.remove(b);
    assert_eq!(map.height(), 0);
    assert_eq!(map.get(top), Some(&0));
    assert_eq!(map.get(a), None);
    assert_eq!(map.get(b), None);
}

#[test]
fn a_third_key_goes_into_the_split() {
    let a = key(0, 0);
    let b = key(1 << 53, 0);
    let c = key(1 << 58, 0);
    let map = empty().insert(a, 1).insert(b, 2);
    assert_eq!(map.height(), 2);
    let map = map.insert(c, 3);
    assert_eq!(map.height(), 2);
    assert_eq!(map.get(a), Some(&1));
    assert_eq!(map.get(b), Some(&2));
    assert_eq!(map.get(c), Some(&3));
    let map = map.remove(a).remove(b);
    assert_eq!(map.height(), 1);
    assert_eq!(map.get(c), Some(&3));
}

#[test]
fn all_keys_share_one_hash() {
    let mut map = empty();
    for name in 0..100 {
        map = map.insert(key(7, name), name as i32);
    }
    assert_eq!(map.height(), 13);
    for name in 0..100 {
        assert_eq!(map.get(key(7, name)), Some(&(name as i32)));
    }
    assert_eq!(map.get(key(7, 100)), None);
    for name in (0..100).step_by(2) {
        map = map.remove(key(7, name));
    }
    for name in 0..100 {
        assert_eq!(map.contains_key(key(7, name)), name % 2 == 1);
    }
}

#[test]
fn dense_low_bits() {
    let mut map = empty();
    for hash in 0..2048u64 {
        map = map.insert(key(hash, 0), hash as i32);
    }
    assert_eq!(map.height(), 12);
    for hash in 0..2048u64 {
        assert_eq!(map.get(key(hash, 0)), Some(&(hash as i32)));
        assert_eq!(map.get(key(hash, 1)), None);
    }
    for hash in 0..2048u64 {
        map = map.remove(key(hash, 0));
    }
    assert_eq!(map.height(), 0);
}

#[test]
fn removing_an_absent_key_hands_back_the_same_trie() {
    let a = key(1 << 59, 0);
    let b = key(2 << 59, 0);
    let map = empty().insert(a, 1).insert(b, 2);
    let absent_branch = map.remove(key(3 << 59, 0));
    let other_key = map.remove(key(1 << 59, 1));
    for k in [a, b] {
        assert!(std::ptr::eq(map.get(k).unwrap(), absent_branch.get(k).unwrap()));
        assert!(std::ptr::eq(map.get(k).unwrap(), other_key.get(k).unwrap()));
    }
    let chained = empty().insert(key(9, 0), 1).insert(key(9, 1), 2);
    let absent_in_chain = chained.remove(key(9, 2));
    assert_eq!(absent_in_chain.height(), 13);
    assert_eq!(absent_in_chain.get(key(9, 0)), Some(&1));
    assert_eq!(absent_in_chain.get(key(9, 1)), Some(&2));
}

#[test]
fn a_changed_path_leaves_the_other_branches_shared() {
    let a = key(1 << 59, 0);
    let b = key(2 << 59, 0);
    let c = key((2 << 59) | 1, 0);
    let map = empty().insert(a, 1).insert(b, 2).insert(c, 3);
    let changed = map.insert(a, 10);
    assert_eq!(changed.get(a), Some(&10));
    assert_eq!(map.get(a), Some(&1));
    assert!(std::ptr::eq(map.get(b).unwrap(), changed.get(b).unwrap()));
    assert!(std::ptr::eq(map.get(c).unwrap(), changed.get(c).unwrap()));
}

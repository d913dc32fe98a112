use hamster::bits::get_entries_index;
use hamster::bits::key_present;
use hamster::bits::most_significant;
use hamster::bits::CHAIN_LEVEL;
use hamster::bits::LAST_LEVEL;
use hamster::bits::MOST_SIG;
use hamster::chain::chain_position;
use hamster::chain::insert_chained;
use hamster::insert::create_split_entry;
use hamster::insert::insert_at_node;
use hamster::node::HAMTNode;
use hamster::node::HAMTNodeEntry;
use hamster::update::copy_chain;
use hamster::update::copy_entries;
use hamster::update::copy_entry;
use hamster::HashKey;
use std::rc::Rc;

/// A key whose hash is chosen by the test.
#[derive(Clone, Copy, Debug, PartialEq)]
struct Fixed {
    hash: u64,
    name: u32,
}

impl HashKey for Fixed {
    type Id = (u64, u32);

    fn id(&self) -> (u64, u32) {
        (self.hash, self.name)
    }

    fn hash_of(id: (u64, u32)) -> u64 {
        id.0
    }

    fn hash_key(&self) -> u64 {
        self.hash
    }

    fn same_key(&self, other: &Self) -> bool {
        self.hash == other.hash && self.name == other.name
    }

    fn clone_key(&self) -> Self {
        *self
    }
}

fn key(hash: u64, name: u32) -> Fixed {
    Fixed { hash, name }
}

#[test]
fn constants() {
    assert_eq!(MOST_SIG, 17870283321406128128);
    assert_eq!(MOST_SIG, 0b11111 << 59);
    assert_eq!(LAST_LEVEL, 12);
    assert_eq!(CHAIN_LEVEL, 13);
}

#[test]
fn entries_index_counts_the_branches_below() {
    assert_eq!(get_entries_index(0, 0), 0);
    assert_eq!(get_entries_index(0, 31), 0);
    assert_eq!(get_entries_index(0b1011, 0), 0);
    assert_eq!(get_entries_index(0b1011, 1), 1);
    assert_eq!(get_entries_index(0b1011, 2), 2);
    assert_eq!(get_entries_index(0b1011, 3), 2);
    assert_eq!(get_entries_index(0b1011, 4), 3);
    assert_eq!(get_entries_index(0b1011, 31), 3);
    assert_eq!(get_entries_index(u32::MAX, 0), 0);
    assert_eq!(get_entries_index(u32::MAX, 17), 17);
    assert_eq!(get_entries_index(u32::MAX, 31), 31);
    assert_eq!(get_entries_index(1 << 31, 31), 0);
    assert_eq!(get_entries_index(1 << 30, 31), 1);
}

#[test]
fn most_significant_takes_the_top_five_bits() {
    assert_eq!(most_significant(0), 0);
    assert_eq!(most_significant(u64::MAX), 31);
    assert_eq!(most_significant(1 << 59), 1);
    assert_eq!(most_significant((1 << 59) - 1), 0);
    assert_eq!(most_significant(0b10110 << 59), 0b10110);
    assert_eq!(most_significant(0xF << 60), 0b11110);
}

#[test]
fn key_present_reads_one_bit() {
    assert!(key_present(0b100, 2));
    assert!(!key_present(0b100, 1));
    assert!(!key_present(0b100, 3));
    assert!(key_present(1 << 31, 31));
    assert!(!key_present(0, 0));
    assert!(key_present(u32::MAX, 13));
}

#[test]
fn chain_position_finds_the_first() {
    let chain = vec![(3, "c"), (1, "a"), (2, "b")];
    assert_eq!(chain_position(&chain, &3), Some(0));
    assert_eq!(chain_position(&chain, &1), Some(1));
    assert_eq!(chain_position(&chain, &2), Some(2));
    assert_eq!(chain_position(&chain, &4), None);
    let nothing: Vec<(i32, &str)> = Vec::new();
    assert_eq!(chain_position(&nothing, &1), None);
}

#[test]
fn insert_chained_puts_a_new_key_first() {
    let chain = vec![(1, 10), (2, 20)];
    assert_eq!(insert_chained(&chain, 3, 30), vec![(3, 30), (1, 10), (2, 20)]);
    assert_eq!(chain, vec![(1, 10), (2, 20)]);
    let nothing: Vec<(i32, i32)> = Vec::new();
    assert_eq!(insert_chained(&nothing, 3, 30), vec![(3, 30)]);
}

#[test]
fn insert_chained_replaces_in_place() {
    let chain = vec![(1, 10), (2, 20), (3, 30)];
    assert_eq!(insert_chained(&chain, 2, 21), vec![(1, 10), (2, 21), (3, 30)]);
    assert_eq!(insert_chained(&chain, 1, 11), vec![(1, 11), (2, 20), (3, 30)]);
    assert_eq!(insert_chained(&chain, 3, 31), vec![(1, 10), (2, 20), (3, 31)]);
    assert_eq!(chain, vec![(1, 10), (2, 20), (3, 30)]);
}

#[test]
fn copies_hold_the_same() {
    let chain = vec![(1u64, String::from("one")), (2, String::from("two"))];
    assert_eq!(copy_chain(&chain), chain);
    let child =
        Rc::new(HAMTNode { presence_map: 1, entries: vec![HAMTNodeEntry::Value(9u64, 90)] });
    let entries = vec![
        HAMTNodeEntry::Value(1u64, 10),
        HAMTNodeEntry::Node(child.clone()),
        HAMTNodeEntry::Chained(vec![(2, 20), (3, 30)]),
    ];
    let copy = copy_entries(&entries);
    assert_eq!(copy.len(), 3);
    assert!(matches!(&copy[0], HAMTNodeEntry::Value(1, 10)));
    match &copy[1] {
        HAMTNodeEntry::Node(copied) => assert!(Rc::ptr_eq(copied, &child)),
        _ => panic!("a deeper node is copied as a deeper node"),
    }
    match &copy[2] {
        HAMTNodeEntry::Chained(pairs) => assert_eq!(pairs, &vec![(2, 20), (3, 30)]),
        _ => panic!("a chain is copied as a chain"),
    }
    assert!(matches!(copy_entry(&entries[0]), HAMTNodeEntry::Value(1, 10)));
}

#[test]
fn split_at_the_chain_level_chains() {
    let entry = create_split_entry(key(1, 0), 0, 10, key(1, 1), 0, 11, 13);
    match entry {
        HAMTNodeEntry::Chained(pairs) => {
            assert_eq!(pairs, vec![(key(1, 0), 10), (key(1, 1), 11)]);
        },
        _ => panic!("two keys without hash bits left are chained"),
    }
}

#[test]
fn split_orders_by_branch() {
    let low = key(3 << 59, 0);
    let high = key(9 << 59, 0);
    for (first, second) in [(low, high), (high, low)] {
        let entry = create_split_entry(first, first.hash, 1, second, second.hash, 2, 1);
        match entry {
            HAMTNodeEntry::Node(node) => {
                assert_eq!(node.presence_map, (1 << 3) | (1 << 9));
                assert_eq!(node.entries.len(), 2);
                let low_value = if first == low { 1 } else { 2 };
                match &node.entries[0] {
                    HAMTNodeEntry::Value(k, v) => {
                        assert_eq!(*k, low);
                        assert_eq!(*v, low_value);
                    },
                    _ => panic!("the keys part here"),
                }
                match &node.entries[1] {
                    HAMTNodeEntry::Value(k, v) => {
                        assert_eq!(*k, high);
                        assert_eq!(*v, 3 - low_value);
                    },
                    _ => panic!("the keys part here"),
                }
            },
            _ => panic!("two keys with hash bits left get a node"),
        }
    }
}

#[test]
fn split_goes_down_while_the_branches_agree() {
    let a = key((7 << 59) | (4 << 54), 0);
    let b = key((7 << 59) | (5 << 54), 0);
    let entry = create_split_entry(a, a.hash, 1, b, b.hash, 2, 1);
    match entry {
        HAMTNodeEntry::Node(outer) => {
            assert_eq!(outer.presence_map, 1 << 7);
            assert_eq!(outer.entries.len(), 1);
            match &outer.entries[0] {
                HAMTNodeEntry::Node(inner) => {
                    assert_eq!(inner.presence_map, (1 << 4) | (1 << 5));
                    assert_eq!(inner.entries.len(), 2);
                    assert!(matches!(&inner.entries[0], HAMTNodeEntry::Value(k, 1) if *k == a));
                    assert!(matches!(&inner.entries[1], HAMTNodeEntry::Value(k, 2) if *k == b));
                },
                _ => panic!("the keys share the branch of the outer node"),
            }
        },
        _ => panic!("two keys with hash bits left get a node"),
    }
}

#[test]
fn insert_at_node_fills_a_free_branch() {
    let node = HAMTNode {
        presence_map: (1 << 2) | (1 << 20),
        entries: vec![
            HAMTNodeEntry::Value(key(2 << 59, 0), 2),
            HAMTNodeEntry::Value(key(20 << 59, 0), 20),
        ],
    };
    let new_key = key(11 << 59, 0);
    let new_node = insert_at_node(&node, new_key, new_key.hash, 11, 0);
    assert_eq!(new_node.presence_map, (1 << 2) | (1 << 11) | (1 << 20));
    assert_eq!(new_node.entries.len(), 3);
    assert!(matches!(&new_node.entries[0], HAMTNodeEntry::Value(k, 2) if k.hash == 2 << 59));
    assert!(matches!(&new_node.entries[1], HAMTNodeEntry::Value(k, 11) if *k == new_key));
    assert!(matches!(&new_node.entries[2], HAMTNodeEntry::Value(k, 20) if k.hash == 20 << 59));
    assert_eq!(node.presence_map, (1 << 2) | (1 << 20));
    assert_eq!(node.entries.len(), 2);
}

#[test]
fn insert_at_node_replaces_and_splits() {
    let old_key = key(2 << 59, 0);
    let node = HAMTNode { presence_map: 1 << 2, entries: vec![HAMTNodeEntry::Value(old_key, 2)] };
    let replaced = insert_at_node(&node, old_key, old_key.hash, 3, 0);
    assert_eq!(replaced.presence_map, 1 << 2);
    assert_eq!(replaced.entries.len(), 1);
    assert!(matches!(&replaced.entries[0], HAMTNodeEntry::Value(k, 3) if *k == old_key));
    let other = key((2 << 59) | 1, 0);
    let split = insert_at_node(&node, other, other.hash, 4, 0);
    assert_eq!(split.presence_map, 1 << 2);
    assert_eq!(split.entries.len(), 1);
    let mut entry = &split.entries[0];
    for _ in 1..12 {
        match entry {
            HAMTNodeEntry::Node(child) => {
                assert_eq!(child.presence_map, 1);
                assert_eq!(child.entries.len(), 1);
                entry = &child.entries[0];
            },
            _ => panic!("the hashes agree down to the last level"),
        }
    }
    match entry {
        HAMTNodeEntry::Node(last) => {
            assert_eq!(last.presence_map, (1 << 0) | (1 << 2));
            assert!(matches!(&last.entries[0], HAMTNodeEntry::Value(k, 2) if *k == old_key));
            assert!(matches!(&last.entries[1], HAMTNodeEntry::Value(k, 4) if *k == other));
        },
        _ => panic!("the keys part at the last level"),
    }
}

use hamster::insert::insert_at_node;
use hamster::node::HAMTNode;
use hamster::node::HAMTNodeEntry;
use hamster::HashKey;
use hamster::HAMT;

/// The number of nodes in the printed form of a trie, after a check that
/// each of them has as many entries as its presence map has bits.
fn check_printed_nodes(printed: &str) -> usize {
    let start = "HAMTNode { presence_map: ";
    let mut nodes = 0;
    let mut from = 0;
    while let Some(found) = printed[from..].find(start) {
        let number_at = from + found + start.len();
        let number_end = number_at + printed[number_at..].find(',').unwrap();
        let presence_map: u32 = printed[number_at..number_end].parse().unwrap();
        let entries_at = number_end + ", entries: [".len();
        assert_eq!(&printed[number_end..entries_at], ", entries: [");
        let mut depth = 0;
        let mut entries = 0;
        let mut empty = true;
        for c in printed[entries_at..].chars() {
            match c {
                '[' | '(' | '{' => depth += 1,
                ']' | ')' | '}' => {
                    if depth == 0 {
                        break;
                    }
                    depth -= 1;
                },
                ',' => {
                    if depth == 0 {
                        entries += 1;
                    }
                },
                _ => {},
            }
            if !c.is_whitespace() {
                empty = false;
            }
        }
        if !empty {
            entries += 1;
        }
        assert_eq!(entries, presence_map.count_ones());
        nodes += 1;
        from = entries_at;
    }
    nodes
}

fn walk<K: HashKey, V>(node: &HAMTNode<K, V>, level: u32, keys: &mut Vec<u64>) {
    assert!(level <= 12);
    assert_eq!(node.entries.len() as u32, node.presence_map.count_ones());
    let mut slot = 0;
    for branch in 0..32u32 {
        if (node.presence_map >> branch) & 1 == 1 {
            match &node.entries[slot] {
                HAMTNodeEntry::Value(key, _) => {
                    let hash = key.hash_key();
                    let shifted = if level < 12 { hash << (5 * level) } else { hash << 60 };
                    assert_eq!((shifted >> 59) as u32, branch);
                    keys.push(hash);
                },
                HAMTNodeEntry::Node(child) => {
                    assert!(level < 12);
                    assert!(child.presence_map != 0);
                    walk(child, level + 1, keys);
                },
                HAMTNodeEntry::Chained(pairs) => {
                    assert_eq!(level, 12);
                    assert!(!pairs.is_empty());
                    for (key, _) in pairs {
                        keys.push(key.hash_key());
                    }
                },
            }
            slot += 1;
        }
    }
}

#[test]
fn every_node_has_one_entry_for_each_marked_branch() {
    let mut map: HAMT<i32, i32> = HAMT::new();
    assert_eq!(check_printed_nodes(&format!("{:?}", map)), 1);
    for k in 0..3000 {
        map = map.insert(k, k);
    }
    assert!(check_printed_nodes(&format!("{:?}", map)) > 32);
    for k in (0..3000).step_by(3) {
        map = map.remove(k);
    }
    assert!(check_printed_nodes(&format!("{:?}", map)) > 32);
    for k in 0..3000 {
        map = map.remove(k);
    }
    assert_eq!(check_printed_nodes(&format!("{:?}", map)), 1);
    assert_eq!(format!("{:?}", map), "HAMT { root: HAMTNode { presence_map: 0, entries: [] } }");
}

#[test]
fn every_key_stands_where_its_hash_leads() {
    let mut node: HAMTNode<u64, u64> = HAMTNode { presence_map: 0, entries: Vec::new() };
    for k in 0..5000u64 {
        node = insert_at_node(&node, k, k.hash_key(), k, 0);
    }
    let mut keys = Vec::new();
    walk(&node, 0, &mut keys);
    assert_eq!(keys.len(), 5000);
    keys.sort();
    keys.dedup();
    assert_eq!(keys.len(), 5000);
}

#[test]
fn a_printed_map_shows_its_trie() {
    let map: HAMT<u64, i32> = HAMT::new();
    let map = map.insert(1, -1);
    let branch = (1u64.hash_key() >> 59) as u32;
    assert_eq!(
        format!("{:?}", map),
        format!(
            "HAMT {{ root: HAMTNode {{ presence_map: {}, entries: [Value(1, -1)] }} }}",
            1u32 << branch
        )
    );
}

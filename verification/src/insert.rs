//! Insertion: the path from a node to a key is rebuilt, every subtree beside
//! it is shared with the node that was there before.

use crate::bits::fragment_at;
use crate::bits::get_entries_index;
use crate::bits::key_present;
use crate::bits::lemma_fragment_bound;
use crate::bits::lemma_level_hash;
use crate::bits::lemma_occupied_nonzero;
use crate::bits::lemma_rank_in_bounds;
use crate::bits::lemma_single_branch;
use crate::bits::lemma_two_branches;
use crate::bits::level_hash;
use crate::bits::most_significant;
use crate::bits::occupied;
use crate::bits::rank;
use crate::bits::CHAIN_LEVEL;
use crate::bits::LAST_LEVEL;
use crate::chain::chain_inserted;
use crate::chain::insert_chained;
use crate::chain::lemma_insert_chained;
use crate::key::HashKey;
use crate::node::clones_exactly;
use crate::node::key_fragment;
use crate::node::lemma_holds_on_path;
use crate::node::HAMTNode;
use crate::node::HAMTNodeEntry;
use crate::update::copy_entries;
use crate::update::lemma_inserted;
use crate::update::lemma_replaced;
use std::rc::Rc;
use vstd::prelude::*;

verus! {

/// The depth of the entry that is built for two keys with the hashes `hash1`
/// and `hash2` at `level`: one for each level from `level` on at which the
/// two hashes select the same branch, and one more for the node in which
/// the two keys part, or for their chain.
pub open spec fn split_depth(hash1: u64, hash2: u64, level: nat) -> nat
    decreases CHAIN_LEVEL - level,
{
    if level < CHAIN_LEVEL && fragment_at(hash1, level) == fragment_at(hash2, level) {
        1 + split_depth(hash1, hash2, level + 1)
    } else {
        1
    }
}

/// Whether `entry` is the single key `id` with `value`.
pub open spec fn is_value<K: HashKey, V>(entry: HAMTNodeEntry<K, V>, id: K::Id, value: V) -> bool {
    entry matches HAMTNodeEntry::Value(k, v) && k.id() == id && v == value
}

/// Whether `entry` is the entry that is built at `level` for the two keys
/// `id1` and `id2` with their values.
///
/// While hash bits are left, it is a node at `level`. Where the two keys
/// select different branches there, the node has the two keys as its
/// entries, in ascending order of branch; where they select the same
/// branch, its only entry is the one that is built at the next level. At
/// level 13 it is the chain of the two pairs, the first one first.
pub open spec fn is_split<K: HashKey, V>(
    entry: HAMTNodeEntry<K, V>,
    id1: K::Id,
    val1: V,
    id2: K::Id,
    val2: V,
    level: nat,
) -> bool
    decreases CHAIN_LEVEL - level,
{
    if level >= CHAIN_LEVEL {
        &&& entry matches HAMTNodeEntry::Chained(pairs)
        &&& pairs.len() == 2
        &&& pairs[0].0.id() == id1
        &&& pairs[0].1 == val1
        &&& pairs[1].0.id() == id2
        &&& pairs[1].1 == val2
    } else {
        let frag1 = key_fragment::<K>(id1, level);
        let frag2 = key_fragment::<K>(id2, level);
        &&& entry matches HAMTNodeEntry::Node(node)
        &&& if frag1 == frag2 {
            &&& node.presence_map == 1u32 << frag1
            &&& node.entries.len() == 1
            &&& is_split(node.entries[0], id1, val1, id2, val2, level + 1)
        } else {
            &&& node.presence_map == (1u32 << frag1) | (1u32 << frag2)
            &&& node.entries.len() == 2
            &&& is_value(
                node.entries[if frag1 < frag2 {
                    0int
                } else {
                    1int
                }],
                id1,
                val1,
            )
            &&& is_value(
                node.entries[if frag1 < frag2 {
                    1int
                } else {
                    0int
                }],
                id2,
                val2,
            )
        }
    }
}

/// Whether `new_entry` is what `old_entry`, an entry of a node at `level`,
/// becomes when `value` is inserted for the key `id`, which selects the
/// branch of the entry.
///
/// A single key is replaced where it is the same key, and split from the
/// new key otherwise; a chain gets the pair; a deeper node is replaced by
/// what it becomes in turn.
pub open spec fn entry_inserted<K: HashKey, V>(
    old_entry: HAMTNodeEntry<K, V>,
    new_entry: HAMTNodeEntry<K, V>,
    level: nat,
    id: K::Id,
    value: V,
) -> bool
    decreases old_entry,
{
    match old_entry {
        HAMTNodeEntry::Value(other_key, other_value) => if other_key.id() == id {
            is_value(new_entry, id, value)
        } else {
            is_split(new_entry, id, value, other_key.id(), other_value, level + 1)
        },
        HAMTNodeEntry::Chained(pairs) => {
            &&& new_entry matches HAMTNodeEntry::Chained(new_pairs)
            &&& chain_inserted(pairs@, new_pairs@, id, value)
        },
        HAMTNodeEntry::Node(child) => {
            &&& new_entry matches HAMTNodeEntry::Node(new_child)
            &&& node_inserted(*child, *new_child, level + 1, id, value)
        },
    }
}

/// Whether `new_node` is what `old_node`, a node at `level`, becomes when
/// `value` is inserted for the key `id`.
///
/// Where the key's branch is free, the presence map marks it and the key
/// stands in a new slot at the branch's place; where it is occupied, the
/// entry in its slot is replaced by what it becomes. Every other entry
/// stays as it is, in the same order.
pub open spec fn node_inserted<K: HashKey, V>(
    old_node: HAMTNode<K, V>,
    new_node: HAMTNode<K, V>,
    level: nat,
    id: K::Id,
    value: V,
) -> bool
    decreases old_node,
{
    let branch = key_fragment::<K>(id, level);
    let slot = rank(old_node.presence_map, branch) as int;
    if occupied(old_node.presence_map, branch) {
        &&& new_node.presence_map == old_node.presence_map
        &&& new_node.entries.len() == old_node.entries.len()
        &&& slot < old_node.entries.len()
        &&& entry_inserted(old_node.entries[slot], new_node.entries[slot], level, id, value)
        &&& forall|at: int|
            0 <= at < old_node.entries.len() && at != slot ==> (
            #[trigger] new_node.entries[at]).agrees(old_node.entries[at])
    } else {
        &&& new_node.presence_map == old_node.presence_map | (1u32 << branch)
        &&& new_node.entries.len() == old_node.entries.len() + 1
        &&& slot <= old_node.entries.len()
        &&& is_value(new_node.entries[slot], id, value)
        &&& forall|at: int|
            0 <= at < slot ==> (#[trigger] new_node.entries[at]).agrees(old_node.entries[at])
        &&& forall|at: int|
            slot <= at < old_node.entries.len() ==> (#[trigger] new_node.entries[at + 1]).agrees(
                old_node.entries[at],
            )
    }
}

/// Whether an entry holds the two given pairs and nothing else.
pub open spec fn holds_both<K: HashKey, V>(
    entry: HAMTNodeEntry<K, V>,
    key1: K,
    val1: V,
    key2: K,
    val2: V,
) -> bool {
    forall|id: K::Id, value: V| #[trigger]
        entry.holds(id, value) == ((id == key1.id() && value == val1) || (id == key2.id() && value
            == val2))
}

/// Builds the entry for two different keys that select the same branch at
/// the level above `level`.
///
/// While hash bits are left, the entry is a fresh node at `level`: with one
/// value for each key, in ascending order of branch, where the keys select
/// different branches there; else with the entry built for the next level
/// as its only entry. At level 13 no hash bits are left, and the two pairs
/// are chained, the first one first.
///
/// `hashed_key1` and `hashed_key2` are the working hashes of the two keys at
/// `level`; at level 13 they are not read.
pub fn create_split_entry<K: HashKey, V>(
    key1: K,
    hashed_key1: u64,
    val1: V,
    key2: K,
    hashed_key2: u64,
    val2: V,
    level: u32,
) -> (entry: HAMTNodeEntry<K, V>)
    requires
        1 <= level <= CHAIN_LEVEL,
        key1.id() != key2.id(),
        level <= LAST_LEVEL ==> hashed_key1 == level_hash(K::hash_of(key1.id()), level as nat),
        level <= LAST_LEVEL ==> hashed_key2 == level_hash(K::hash_of(key2.id()), level as nat),
        key_fragment::<K>(key1.id(), (level - 1) as nat) == key_fragment::<K>(
            key2.id(),
            (level - 1) as nat,
        ),
    ensures
        entry.wf((level - 1) as nat, key_fragment::<K>(key1.id(), (level - 1) as nat)),
        holds_both(entry, key1, val1, key2, val2),
        entry.depth() == split_depth(K::hash_of(key1.id()), K::hash_of(key2.id()), level as nat),
        is_split(entry, key1.id(), val1, key2.id(), val2, level as nat),
    decreases CHAIN_LEVEL - level,
{
    let ghost above = (level - 1) as nat;
    let ghost branch = key_fragment::<K>(key1.id(), above);
    if level == CHAIN_LEVEL {
        let chained_vec = vec![(key1, val1), (key2, val2)];
        let entry = HAMTNodeEntry::Chained(chained_vec);
        proof {
            assert(chained_vec@[0] == (key1, val1));
            assert(chained_vec@[1] == (key2, val2));
            assert forall|id: K::Id, value: V| #[trigger]
                entry.holds(id, value) == ((id == key1.id() && value == val1) || (id == key2.id()
                    && value == val2)) by {
                if id == key1.id() && value == val1 {
                    assert(chained_vec@[0].0.id() == id && chained_vec@[0].1 == value);
                }
                if id == key2.id() && value == val2 {
                    assert(chained_vec@[1].0.id() == id && chained_vec@[1].1 == value);
                }
            }
        }
        entry
    } else {
        let key1_frag = most_significant(hashed_key1);
        let key2_frag = most_significant(hashed_key2);
        let ghost id1 = key1.id();
        let ghost id2 = key2.id();
        let node = if key1_frag == key2_frag {
            // The next fragments are still the same: split further down.
            let next_split_entry = create_split_entry(
                key1,
                hashed_key1 << 5,
                val1,
                key2,
                hashed_key2 << 5,
                val2,
                level + 1,
            );
            let node = HAMTNode {
                presence_map: 1u32 << key1_frag,
                entries: vec![next_split_entry],
            };
            proof {
                lemma_single_branch(key1_frag);
                assert(node.entries@[0] == next_split_entry);
                assert(node.wf(level as nat));
                assert(node.height_upto(0) == 0);
                assert(node.height_upto(1) == next_split_entry.depth());
                assert forall|id: K::Id, value: V| #[trigger]
                    node.holds(id, value) == ((id == id1 && value == val1) || (id == id2 && value
                        == val2)) by {
                    lemma_holds_on_path(node, level as nat, id, value);
                }
            }
            node
        } else {
            // The keys part here: the node holds just the two of them.
            let entries = if key1_frag < key2_frag {
                vec![HAMTNodeEntry::Value(key1, val1), HAMTNodeEntry::Value(key2, val2)]
            } else {
                vec![HAMTNodeEntry::Value(key2, val2), HAMTNodeEntry::Value(key1, val1)]
            };
            let node = HAMTNode {
                presence_map: (1u32 << key1_frag) | (1u32 << key2_frag),
                entries: entries,
            };
            proof {
                if key1_frag < key2_frag {
                    lemma_two_branches(key1_frag, key2_frag);
                    assert(node.entries@[0] == HAMTNodeEntry::Value(key1, val1));
                    assert(node.entries@[1] == HAMTNodeEntry::Value(key2, val2));
                } else {
                    lemma_two_branches(key2_frag, key1_frag);
                    assert(node.entries@[0] == HAMTNodeEntry::Value(key2, val2));
                    assert(node.entries@[1] == HAMTNodeEntry::Value(key1, val1));
                }
                assert(node.wf(level as nat));
                assert(node.height_upto(0) == 0);
                assert(node.entries[0].depth() == 0);
                assert(node.height_upto(1) == 0);
                assert(node.entries[1].depth() == 0);
                assert(node.height_upto(2) == 0);
                assert forall|id: K::Id, value: V| #[trigger]
                    node.holds(id, value) == ((id == id1 && value == val1) || (id == id2 && value
                        == val2)) by {
                    lemma_holds_on_path(node, level as nat, id, value);
                }
            }
            node
        };
        let entry = HAMTNodeEntry::Node(Rc::new(node));
        proof {
            assert(node.wf(level as nat));
            assert(node.presence_map != 0);
            assert forall|id: K::Id, value: V| #[trigger]
                entry.holds(id, value) == ((id == id1 && value == val1) || (id == id2 && value
                    == val2)) by {
                assert(entry.holds(id, value) == node.holds(id, value));
            }
            assert(entry.wf(above, branch));
            assert(entry.depth() == 1 + node.height());
        }
        entry
    }
}

/// Whether `new_entry` may stand where `old_entry` stands, and holds `value`
/// for the key `id` and, for every other key, what `old_entry` holds.
pub open spec fn entry_with<K: HashKey, V>(
    old_entry: HAMTNodeEntry<K, V>,
    new_entry: HAMTNodeEntry<K, V>,
    level: nat,
    branch: u32,
    id: K::Id,
    value: V,
) -> bool {
    &&& new_entry.wf(level, branch)
    &&& forall|other: K::Id, held: V| #[trigger]
        new_entry.holds(other, held) == (if other == id {
            held == value
        } else {
            old_entry.holds(other, held)
        })
    &&& new_entry.depth() >= old_entry.depth()
    &&& (exists|held: V| old_entry.holds(id, held)) ==> new_entry.depth() == old_entry.depth()
}

/// Inserts the pair of `key` and `value` below `node`, which stands at
/// `level`; `cur_hashed_key` is the working hash of `key` at that level. The
/// node that comes back holds `value` for `key` and, for every other key,
/// what `node` holds; `node` itself is not changed.
pub fn insert_at_node<K: HashKey, V: Clone>(
    node: &HAMTNode<K, V>,
    key: K,
    cur_hashed_key: u64,
    value: V,
    level: u32,
) -> (new_node: HAMTNode<K, V>)
    requires
        clones_exactly::<V>(),
        node.wf(level as nat),
        cur_hashed_key == level_hash(K::hash_of(key.id()), level as nat),
    ensures
        new_node.wf(level as nat),
        new_node.presence_map != 0,
        forall|id: K::Id, held: V| #[trigger]
            new_node.holds(id, held) == (if id == key.id() {
                held == value
            } else {
                node.holds(id, held)
            }),
        new_node.height() >= node.height(),
        (exists|held: V| node.holds(key.id(), held)) ==> new_node.height() == node.height(),
        node_inserted(*node, new_node, level as nat, key.id(), value),
    decreases LAST_LEVEL - level,
{
    let most_sig = most_significant(cur_hashed_key);
    let present = key_present(node.presence_map, most_sig);
    let entries_index = get_entries_index(node.presence_map, most_sig);
    let ghost key_id = key.id();
    proof {
        assert forall|id: K::Id, held: V| #[trigger]
            node.holds(id, held) == node.holds_on_path(level as nat, id, held) by {
            lemma_holds_on_path(*node, level as nat, id, held);
        }
    }
    if !present {
        // Nothing stands at the key's branch: the pair gets a slot of its own.
        let mut new_entries = copy_entries(&node.entries);
        let ghost copy = new_entries@;
        let entry = HAMTNodeEntry::Value(key, value);
        new_entries.insert(entries_index, entry);
        let new_node = HAMTNode {
            presence_map: node.presence_map | (1u32 << most_sig),
            entries: new_entries,
        };
        proof {
            lemma_inserted(*node, copy, new_node, level as nat, most_sig, entry);
        }
        new_node
    } else {
        proof {
            lemma_rank_in_bounds(node.presence_map, most_sig);
            lemma_occupied_nonzero(node.presence_map, most_sig);
            lemma_fragment_bound(cur_hashed_key << 5);
        }
        let mut new_entries = copy_entries(&node.entries);
        let ghost copy = new_entries@;
        let ghost old_entry = node.entries[entries_index as int];
        assert(old_entry.wf(level as nat, most_sig));
        let new_entry = match &node.entries[entries_index] {
            HAMTNodeEntry::Value(other_key, other_value) => {
                if other_key.same_key(&key) {
                    // The same key: its value is replaced.
                    let new_entry = HAMTNodeEntry::Value(key, value);
                    assert(entry_with(old_entry, new_entry, level as nat, most_sig, key_id, value));
                    new_entry
                } else {
                    // Another key at the same branch: the two are split.
                    let other_hashed_key = if level < LAST_LEVEL {
                        proof {
                            lemma_level_hash(K::hash_of(other_key.id()), (level + 1) as u32);
                        }
                        other_key.hash_key() << (5 * (level + 1))
                    } else {
                        0
                    };
                    let new_entry = create_split_entry(
                        key,
                        cur_hashed_key << 5,
                        value,
                        other_key.clone_key(),
                        other_hashed_key,
                        other_value.clone(),
                        level + 1,
                    );
                    assert(entry_with(old_entry, new_entry, level as nat, most_sig, key_id, value));
                    new_entry
                }
            },
            HAMTNodeEntry::Chained(vec) => {
                let new_chain = insert_chained(vec, key, value);
                proof {
                    lemma_insert_chained(vec@, new_chain@, key, value, level as nat, most_sig);
                }
                let new_entry = HAMTNodeEntry::Chained(new_chain);
                assert(entry_with(old_entry, new_entry, level as nat, most_sig, key_id, value));
                new_entry
            },
            HAMTNodeEntry::Node(child_node) => {
                let new_key = cur_hashed_key << 5;
                let new_child = insert_at_node(child_node, key, new_key, value, level + 1);
                let new_entry = HAMTNodeEntry::Node(Rc::new(new_child));
                proof {
                    assert forall|id: K::Id, held: V| #[trigger]
                        new_child.holds(id, held) implies key_fragment::<K>(id, level as nat)
                        == most_sig by {
                        if id != key_id {
                            assert(child_node.holds(id, held));
                        }
                    }
                    assert(new_entry.wf(level as nat, most_sig));
                    assert forall|id: K::Id, held: V| #[trigger]
                        new_entry.holds(id, held) == (if id == key_id {
                            held == value
                        } else {
                            old_entry.holds(id, held)
                        }) by {
                        assert(new_entry.holds(id, held) == new_child.holds(id, held));
                        assert(old_entry.holds(id, held) == child_node.holds(id, held));
                    }
                    assert(new_entry.depth() == 1 + new_child.height());
                    assert(old_entry.depth() == 1 + child_node.height());
                    if exists|held: V| old_entry.holds(key_id, held) {
                        let held = choose|held: V| old_entry.holds(key_id, held);
                        assert(child_node.holds(key_id, held));
                    }
                }
                assert(entry_with(old_entry, new_entry, level as nat, most_sig, key_id, value));
                new_entry
            },
        };
        new_entries.set(entries_index, new_entry);
        let new_node = HAMTNode { presence_map: node.presence_map, entries: new_entries };
        proof {
            lemma_replaced(*node, copy, new_node, level as nat, most_sig, new_entry);
        }
        new_node
    }
}

} // verus!

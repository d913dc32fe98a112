//! Removal: the path from a node to a key is rebuilt without the key, and a
//! branch that is left with nothing is taken out of its node.

use crate::bits::get_entries_index;
use crate::bits::key_present;
use crate::bits::lemma_empty_presence;
use crate::bits::lemma_fragment_bound;
use crate::bits::lemma_rank_in_bounds;
use crate::bits::level_hash;
use crate::bits::most_significant;
use crate::bits::occupied;
use crate::bits::rank;
use crate::bits::LAST_LEVEL;
use crate::chain::chain_first;
use crate::chain::chain_position;
use crate::chain::chain_removed;
use crate::chain::lemma_remove_chained;
use crate::key::HashKey;
use crate::node::agree_all;
use crate::node::chain_agrees;
use crate::node::chain_has_key;
use crate::node::chain_holds;
use crate::node::clones_exactly;
use crate::node::key_fragment;
use crate::node::lemma_chain_agrees;
use crate::node::lemma_holds_on_path;
use crate::node::lemma_nonempty_holds;
use crate::node::pointee;
use crate::node::HAMTNode;
use crate::node::HAMTNodeEntry;
use crate::update::copy_chain;
use crate::update::copy_entries;
use crate::update::lemma_removed;
use crate::update::lemma_replaced;
use crate::update::share;
use std::rc::Rc;
use vstd::prelude::*;

verus! {

/// Whether `old_entry` holds nothing but pairs of the key `id`.
pub open spec fn entry_only<K: HashKey, V>(old_entry: HAMTNodeEntry<K, V>, id: K::Id) -> bool {
    forall|other: K::Id, held: V| #[trigger] old_entry.holds(other, held) ==> other == id
}

/// Whether `new_node` is `old_node` without the slot of the occupied branch
/// `branch`: the presence map does not mark the branch any more, and every
/// other entry stays as it is, in the same order.
pub open spec fn slot_removed<K: HashKey, V>(
    old_node: HAMTNode<K, V>,
    new_node: HAMTNode<K, V>,
    branch: u32,
) -> bool {
    let slot = rank(old_node.presence_map, branch) as int;
    &&& new_node.presence_map == old_node.presence_map ^ (1u32 << branch)
    &&& new_node.entries.len() + 1 == old_node.entries.len()
    &&& forall|at: int|
        0 <= at < slot ==> (#[trigger] new_node.entries[at]).agrees(old_node.entries[at])
    &&& forall|at: int|
        slot <= at < new_node.entries.len() ==> (#[trigger] new_node.entries[at]).agrees(
            old_node.entries[at + 1],
        )
}

/// Whether `new_node` is `old_node` but for the entry in `slot`: it has the
/// same presence map, and every other entry stays as it is.
pub open spec fn slot_replaced<K: HashKey, V>(
    old_node: HAMTNode<K, V>,
    new_node: HAMTNode<K, V>,
    slot: int,
) -> bool {
    &&& new_node.presence_map == old_node.presence_map
    &&& new_node.entries.len() == old_node.entries.len()
    &&& forall|at: int|
        0 <= at < old_node.entries.len() && at != slot ==> (#[trigger] new_node.entries[at]).agrees(
            old_node.entries[at],
        )
}

/// Whether `new_node` is what `old_node`, a node at `level`, becomes when
/// the key `id` is removed.
///
/// Where the key does not stand on its path (its branch is free, or holds
/// another key, or a chain without it), the node stays the very same.
/// Where the branch holds the key alone, or a chain with no other pair, the
/// slot of the branch is taken out. A longer chain loses the pair. A deeper
/// node that holds no other key goes with the slot of its branch; one that
/// holds another key is replaced by what it becomes in turn, and stays a
/// deeper node also where it is left with a single entry.
pub open spec fn node_removed<K: HashKey, V>(
    old_node: HAMTNode<K, V>,
    new_node: HAMTNode<K, V>,
    level: nat,
    id: K::Id,
) -> bool
    decreases old_node,
{
    let branch = key_fragment::<K>(id, level);
    let slot = rank(old_node.presence_map, branch) as int;
    if !occupied(old_node.presence_map, branch) || slot >= old_node.entries.len() {
        new_node == old_node
    } else {
        match old_node.entries[slot] {
            HAMTNodeEntry::Value(k, _) => if k.id() == id {
                slot_removed(old_node, new_node, branch)
            } else {
                new_node == old_node
            },
            HAMTNodeEntry::Chained(pairs) => if !chain_has_key(pairs@, id) {
                new_node == old_node
            } else if pairs.len() == 1 {
                slot_removed(old_node, new_node, branch)
            } else {
                &&& slot_replaced(old_node, new_node, slot)
                &&& new_node.entries[slot] matches HAMTNodeEntry::Chained(new_pairs)
                &&& chain_removed(pairs@, new_pairs@, id)
            },
            HAMTNodeEntry::Node(child) => if entry_only(old_node.entries[slot], id) {
                slot_removed(old_node, new_node, branch)
            } else {
                &&& slot_replaced(old_node, new_node, slot)
                &&& new_node.entries[slot] matches HAMTNodeEntry::Node(new_child)
                &&& node_removed(*child, *new_child, level + 1, id)
            },
        }
    }
}

/// Whether `new_entry` may stand where `old_entry` stands, and holds nothing
/// for the key `id` and, for every other key, what `old_entry` holds.
pub open spec fn entry_without<K: HashKey, V>(
    old_entry: HAMTNodeEntry<K, V>,
    new_entry: HAMTNodeEntry<K, V>,
    level: nat,
    branch: u32,
    id: K::Id,
) -> bool {
    &&& new_entry.wf(level, branch)
    &&& forall|other: K::Id, held: V| #[trigger]
        new_entry.holds(other, held) == (other != id && old_entry.holds(other, held))
    &&& new_entry.depth() <= old_entry.depth()
    &&& (forall|held: V| !old_entry.holds(id, held)) ==> new_entry.depth() == old_entry.depth()
}

/// Taking a slot out of a copy of a node's entries gives a node without
/// that slot.
proof fn lemma_slot_removed<K: HashKey, V>(
    old_node: HAMTNode<K, V>,
    copy: Seq<HAMTNodeEntry<K, V>>,
    new_node: HAMTNode<K, V>,
    branch: u32,
)
    requires
        agree_all(copy, old_node.entries@),
        0 <= rank(old_node.presence_map, branch) < copy.len(),
        new_node.presence_map == old_node.presence_map ^ (1u32 << branch),
        new_node.entries@ == copy.remove(rank(old_node.presence_map, branch) as int),
    ensures
        slot_removed(old_node, new_node, branch),
{
    let slot = rank(old_node.presence_map, branch) as int;
    assert forall|at: int| 0 <= at < slot implies (#[trigger] new_node.entries[at]).agrees(
        old_node.entries[at],
    ) by {
        assert(new_node.entries@[at] == copy[at]);
        assert(copy[at].agrees(old_node.entries@[at]));
    }
    assert forall|at: int| slot <= at < new_node.entries.len() implies (
    #[trigger] new_node.entries[at]).agrees(old_node.entries[at + 1]) by {
        assert(new_node.entries@[at] == copy[at + 1]);
        assert(copy[at + 1].agrees(old_node.entries@[at + 1]));
    }
}

/// Overwriting a slot in a copy of a node's entries gives a node that
/// differs in that slot only.
proof fn lemma_slot_replaced<K: HashKey, V>(
    old_node: HAMTNode<K, V>,
    copy: Seq<HAMTNodeEntry<K, V>>,
    new_node: HAMTNode<K, V>,
    slot: int,
    entry: HAMTNodeEntry<K, V>,
)
    requires
        agree_all(copy, old_node.entries@),
        0 <= slot < copy.len(),
        new_node.presence_map == old_node.presence_map,
        new_node.entries@ == copy.update(slot, entry),
    ensures
        slot_replaced(old_node, new_node, slot),
        new_node.entries[slot] == entry,
{
    assert forall|at: int| 0 <= at < old_node.entries.len() && at != slot implies (
    #[trigger] new_node.entries[at]).agrees(old_node.entries[at]) by {
        assert(new_node.entries@[at] == copy[at]);
        assert(copy[at].agrees(old_node.entries@[at]));
    }
}

/// A copy of a chain without its first pair for a key is the chain without
/// that pair.
proof fn lemma_chain_removed<K: HashKey, V>(
    before: Seq<(K, V)>,
    copy: Seq<(K, V)>,
    id: K::Id,
    at: int,
)
    requires
        chain_agrees(copy, before),
        chain_first(copy, id, at),
    ensures
        chain_has_key(before, id),
        chain_removed(before, copy.remove(at), id),
{
    assert(before[at].0.id() == id);
    assert forall|first: int| #[trigger] chain_first(before, id, first) implies chain_agrees(
        copy.remove(at),
        before.remove(first),
    ) by {
        assert(copy[first].0.id() == id);
        assert(first == at);
        assert forall|i: int| 0 <= i < copy.remove(at).len() implies (#[trigger] copy.remove(
            at,
        )[i]).0.id() == before.remove(at)[i].0.id() && copy.remove(at)[i].1 == before.remove(
            at,
        )[i].1 by {
            let from = if i < at {
                i
            } else {
                i + 1
            };
            assert(copy.remove(at)[i] == copy[from]);
            assert(before.remove(at)[i] == before[from]);
        }
    }
}

/// A node in which the key does not stand on its path stays the very same.
proof fn lemma_removed_nothing<K: HashKey, V>(old_node: HAMTNode<K, V>, level: nat, id: K::Id)
    requires
        !occupied(old_node.presence_map, key_fragment::<K>(id, level)) || rank(
            old_node.presence_map,
            key_fragment::<K>(id, level),
        ) >= old_node.entries.len() || match old_node.entries[rank(
            old_node.presence_map,
            key_fragment::<K>(id, level),
        ) as int] {
            HAMTNodeEntry::Value(k, _) => k.id() != id,
            HAMTNodeEntry::Chained(pairs) => !chain_has_key(pairs@, id),
            HAMTNodeEntry::Node(_) => false,
        },
    ensures
        node_removed(old_node, old_node, level, id),
{
}

/// A node loses the slot of the key's branch where the branch holds the key
/// alone, a chain with the key and no other, or a deeper node with no other
/// key.
proof fn lemma_removed_slot<K: HashKey, V>(
    old_node: HAMTNode<K, V>,
    copy: Seq<HAMTNodeEntry<K, V>>,
    new_node: HAMTNode<K, V>,
    level: nat,
    id: K::Id,
)
    requires
        occupied(old_node.presence_map, key_fragment::<K>(id, level)),
        agree_all(copy, old_node.entries@),
        0 <= rank(old_node.presence_map, key_fragment::<K>(id, level)) < copy.len(),
        new_node.presence_map == old_node.presence_map ^ (1u32 << key_fragment::<K>(id, level)),
        new_node.entries@ == copy.remove(
            rank(old_node.presence_map, key_fragment::<K>(id, level)) as int,
        ),
        match old_node.entries[rank(old_node.presence_map, key_fragment::<K>(id, level)) as int] {
            HAMTNodeEntry::Value(k, _) => k.id() == id,
            HAMTNodeEntry::Chained(pairs) => chain_has_key(pairs@, id) && pairs.len() == 1,
            HAMTNodeEntry::Node(_) => entry_only(
                old_node.entries[rank(old_node.presence_map, key_fragment::<K>(id, level)) as int],
                id,
            ),
        },
    ensures
        node_removed(old_node, new_node, level, id),
{
    lemma_slot_removed(old_node, copy, new_node, key_fragment::<K>(id, level));
}

/// A node keeps the slot of the key's branch where the branch holds a chain
/// with the key and others, which loses the pair, or a deeper node with
/// another key, which is replaced by what it becomes.
proof fn lemma_removed_below<K: HashKey, V>(
    old_node: HAMTNode<K, V>,
    copy: Seq<HAMTNodeEntry<K, V>>,
    new_node: HAMTNode<K, V>,
    level: nat,
    id: K::Id,
    new_entry: HAMTNodeEntry<K, V>,
)
    requires
        occupied(old_node.presence_map, key_fragment::<K>(id, level)),
        agree_all(copy, old_node.entries@),
        0 <= rank(old_node.presence_map, key_fragment::<K>(id, level)) < copy.len(),
        new_node.presence_map == old_node.presence_map,
        new_node.entries@ == copy.update(
            rank(old_node.presence_map, key_fragment::<K>(id, level)) as int,
            new_entry,
        ),
        match old_node.entries[rank(old_node.presence_map, key_fragment::<K>(id, level)) as int] {
            HAMTNodeEntry::Value(_, _) => false,
            HAMTNodeEntry::Chained(pairs) => {
                &&& chain_has_key(pairs@, id)
                &&& pairs.len() != 1
                &&& new_entry matches HAMTNodeEntry::Chained(new_pairs)
                &&& chain_removed(pairs@, new_pairs@, id)
            },
            HAMTNodeEntry::Node(child) => {
                &&& !entry_only(
                    old_node.entries[rank(
                        old_node.presence_map,
                        key_fragment::<K>(id, level),
                    ) as int],
                    id,
                )
                &&& new_entry matches HAMTNodeEntry::Node(new_child)
                &&& node_removed(*child, *new_child, level + 1, id)
            },
        },
    ensures
        node_removed(old_node, new_node, level, id),
{
    lemma_slot_replaced(
        old_node,
        copy,
        new_node,
        rank(old_node.presence_map, key_fragment::<K>(id, level)) as int,
        new_entry,
    );
}

/// Removes `key` below `node`, which stands at `level`; `cur_hashed_key` is
/// the working hash of `key` at that level. The node that comes back holds
/// nothing for `key` and, for every other key, what `node` holds. Where
/// `key` does not stand on its path, `node` itself comes back. A branch
/// whose value, chain or deeper node is left with nothing is taken out of
/// the node; a deeper node that is left with a single entry stays a node.
pub fn remove_at_node<K: HashKey, V: Clone>(
    node: Rc<HAMTNode<K, V>>,
    key: K,
    cur_hashed_key: u64,
    Ghost(level): Ghost<nat>,
) -> (new_node: Rc<HAMTNode<K, V>>)
    requires
        clones_exactly::<V>(),
        node.wf(level),
        cur_hashed_key == level_hash(K::hash_of(key.id()), level),
    ensures
        new_node.wf(level),
        forall|id: K::Id, held: V| #[trigger]
            new_node.holds(id, held) == (id != key.id() && node.holds(id, held)),
        new_node.height() <= node.height(),
        (forall|held: V| !node.holds(key.id(), held)) ==> new_node.presence_map
            == node.presence_map && new_node.height() == node.height(),
        node_removed(*node, *new_node, level, key.id()),
    decreases LAST_LEVEL - level,
{
    let most_sig = most_significant(cur_hashed_key);
    let present = key_present(node.presence_map, most_sig);
    let entries_index = get_entries_index(node.presence_map, most_sig);
    let ghost key_id = key.id();
    let ghost old_node = pointee(node);
    proof {
        assert forall|id: K::Id, held: V| #[trigger]
            node.holds(id, held) == node.holds_on_path(level, id, held) by {
            lemma_holds_on_path(old_node, level, id, held);
        }
    }
    if !present {
        // Nothing stands at the key's branch: there is nothing to remove.
        proof {
            lemma_removed_nothing(old_node, level, key_id);
        }
        node
    } else {
        proof {
            lemma_rank_in_bounds(node.presence_map, most_sig);
        }
        let ghost old_entry = node.entries[entries_index as int];
        assert(old_entry.wf(level, most_sig));
        match &node.entries[entries_index] {
            HAMTNodeEntry::Chained(vec) => {
                let mut new_chain = copy_chain(vec);
                let ghost chain_copy = new_chain@;
                proof {
                    lemma_chain_agrees(chain_copy, vec@);
                    lemma_chain_agrees(vec@, chain_copy);
                }
                match chain_position(&new_chain, &key) {
                    Some(at) => {
                        new_chain.remove(at);
                        proof {
                            assert(vec@[at as int].0.id() == key_id);
                            assert(chain_holds(vec@, key_id, vec@[at as int].1));
                            assert(node.holds(key_id, vec@[at as int].1));
                            lemma_remove_chained(
                                vec@,
                                chain_copy,
                                key_id,
                                at as int,
                                level,
                                most_sig,
                            );
                            lemma_chain_removed(vec@, chain_copy, key_id, at as int);
                        }
                        let mut new_entries = copy_entries(&node.entries);
                        let ghost copy = new_entries@;
                        if new_chain.len() == 0 {
                            // The chain is empty now: its branch goes.
                            new_entries.remove(entries_index);
                            let new_node = HAMTNode {
                                presence_map: node.presence_map ^ (1u32 << most_sig),
                                entries: new_entries,
                            };
                            proof {
                                assert forall|other: K::Id, held: V| #[trigger]
                                    old_entry.holds(other, held) implies other == key_id by {
                                    if other != key_id {
                                        assert(chain_holds(new_chain@, other, held));
                                    }
                                }
                                assert(entry_only(old_entry, key_id));
                                lemma_removed(old_node, copy, new_node, level, most_sig);
                                lemma_removed_slot(old_node, copy, new_node, level, key_id);
                            }
                            Rc::new(new_node)
                        } else {
                            let new_entry = HAMTNodeEntry::Chained(new_chain);
                            assert(entry_without(old_entry, new_entry, level, most_sig, key_id));
                            new_entries.set(entries_index, new_entry);
                            let new_node = HAMTNode {
                                presence_map: node.presence_map,
                                entries: new_entries,
                            };
                            proof {
                                lemma_replaced(
                                    old_node,
                                    copy,
                                    new_node,
                                    level,
                                    most_sig,
                                    new_entry,
                                );
                                lemma_removed_below(
                                    old_node,
                                    copy,
                                    new_node,
                                    level,
                                    key_id,
                                    new_entry,
                                );
                            }
                            Rc::new(new_node)
                        }
                    },
                    None => {
                        proof {
                            assert forall|held: V| !old_entry.holds(key_id, held) by {
                                if old_entry.holds(key_id, held) {
                                    assert(chain_holds(chain_copy, key_id, held));
                                    let at = choose|at: int|
                                        0 <= at < chain_copy.len() && (
                                        #[trigger] chain_copy[at]).0.id() == key_id
                                            && chain_copy[at].1 == held;
                                    assert(chain_copy[at].0.id() == key_id);
                                }
                            }
                            lemma_removed_nothing(old_node, level, key_id);
                        }
                        node
                    },
                }
            },
            HAMTNodeEntry::Node(next_node) => {
                proof {
                    lemma_fragment_bound(cur_hashed_key << 5);
                }
                let new_child = remove_at_node(
                    share(next_node),
                    key,
                    cur_hashed_key << 5,
                    Ghost(level + 1),
                );
                let ghost removed_child = pointee(new_child);
                let mut new_entries = copy_entries(&node.entries);
                let ghost copy = new_entries@;
                proof {
                    assert forall|id: K::Id, held: V|
                        old_entry.holds(id, held) == next_node.holds(id, held) by {}
                }
                if new_child.presence_map == 0 {
                    // The deeper node is empty now: its branch goes.
                    new_entries.remove(entries_index);
                    let new_node = HAMTNode {
                        presence_map: node.presence_map ^ (1u32 << most_sig),
                        entries: new_entries,
                    };
                    proof {
                        lemma_empty_presence();
                        assert forall|other: K::Id, held: V| #[trigger]
                            old_entry.holds(other, held) implies other == key_id by {
                            if other != key_id {
                                assert(next_node.holds(other, held));
                                assert(new_child.holds(other, held));
                            }
                        }
                        assert(entry_only(old_entry, key_id));
                        lemma_removed(old_node, copy, new_node, level, most_sig);
                        assert(exists|held: V| next_node.holds(key_id, held));
                        let held = choose|held: V| next_node.holds(key_id, held);
                        assert(node.holds(key_id, held));
                        lemma_removed_slot(old_node, copy, new_node, level, key_id);
                    }
                    Rc::new(new_node)
                } else {
                    let new_entry = HAMTNodeEntry::Node(new_child);
                    proof {
                        assert forall|id: K::Id, held: V| #[trigger]
                            new_child.holds(id, held) implies key_fragment::<K>(id, level)
                            == most_sig by {
                            assert(next_node.holds(id, held));
                        }
                        assert(new_entry.wf(level, most_sig));
                        assert forall|other: K::Id, held: V| #[trigger]
                            new_entry.holds(other, held) == (other != key_id && old_entry.holds(
                                other,
                                held,
                            )) by {
                            assert(new_entry.holds(other, held) == new_child.holds(other, held));
                            assert(old_entry.holds(other, held) == next_node.holds(other, held));
                        }
                        assert(new_entry.depth() == 1 + new_child.height());
                        assert(old_entry.depth() == 1 + next_node.height());
                        if forall|held: V| !node.holds(key_id, held) {
                            assert forall|held: V| !next_node.holds(key_id, held) by {
                                assert(!node.holds(key_id, held));
                                assert(old_entry.holds(key_id, held) == next_node.holds(
                                    key_id,
                                    held,
                                ));
                            }
                        }
                    }
                    assert(entry_without(old_entry, new_entry, level, most_sig, key_id));
                    new_entries.set(entries_index, new_entry);
                    let new_node = HAMTNode {
                        presence_map: node.presence_map,
                        entries: new_entries,
                    };
                    proof {
                        lemma_replaced(old_node, copy, new_node, level, most_sig, new_entry);
                        let other = lemma_nonempty_holds(removed_child, level + 1);
                        assert(old_entry.holds(other.0, other.1) && other.0 != key_id);
                        lemma_removed_below(old_node, copy, new_node, level, key_id, new_entry);
                    }
                    Rc::new(new_node)
                }
            },
            HAMTNodeEntry::Value(k, v) => {
                if k.same_key(&key) {
                    // The key stands here: its branch goes.
                    assert(node.holds(key_id, *v));
                    let mut new_entries = copy_entries(&node.entries);
                    let ghost copy = new_entries@;
                    new_entries.remove(entries_index);
                    let new_node = HAMTNode {
                        presence_map: node.presence_map ^ (1u32 << most_sig),
                        entries: new_entries,
                    };
                    proof {
                        assert(entry_only(old_entry, key_id));
                        lemma_removed(old_node, copy, new_node, level, most_sig);
                        lemma_removed_slot(old_node, copy, new_node, level, key_id);
                    }
                    Rc::new(new_node)
                } else {
                    proof {
                        lemma_removed_nothing(old_node, level, key_id);
                    }
                    node
                }
            },
        }
    }
}

} // verus!

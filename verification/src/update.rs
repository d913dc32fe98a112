//! Copy on write: copies of a node's entries, and what a node holds once one
//! slot of the copy has been replaced, added or taken out.

use crate::bits::lemma_clear_branch;
use crate::bits::lemma_rank_distinct;
use crate::bits::lemma_rank_in_bounds;
use crate::bits::lemma_rank_monotonic;
use crate::bits::lemma_rank_strict;
use crate::bits::lemma_set_branch;
use crate::bits::occupied;
use crate::bits::rank;
use crate::height::lemma_height_covered;
use crate::key::HashKey;
use crate::node::agree_all;
use crate::node::chain_agrees;
use crate::node::clones_exactly;
use crate::node::key_fragment;
use crate::node::lemma_agrees;
use crate::node::lemma_holds_on_path;
use crate::node::HAMTNode;
use crate::node::HAMTNodeEntry;
use std::rc::Rc;
use vstd::prelude::*;

verus! {

/// `Rc::clone` of the standard library: another pointer to the same
/// allocation, and so to the same value.
#[verifier::external_body]
pub(crate) fn share<T>(shared: &Rc<T>) -> (pointer: Rc<T>)
    ensures
        pointer == *shared,
{
    Rc::clone(shared)
}

/// A copy of a chain: the same keys with the same values, in the same order.
pub fn copy_chain<K: HashKey, V: Clone>(pairs: &Vec<(K, V)>) -> (copy: Vec<(K, V)>)
    requires
        clones_exactly::<V>(),
    ensures
        chain_agrees(copy@, pairs@),
{
    let mut copy: Vec<(K, V)> = Vec::new();
    let mut at: usize = 0;
    while at < pairs.len()
        invariant
            clones_exactly::<V>(),
            at <= pairs.len(),
            copy@.len() == at,
            forall|i: int|
                0 <= i < at ==> (#[trigger] copy@[i]).0.id() == pairs@[i].0.id() && copy@[i].1
                    == pairs@[i].1,
        decreases pairs.len() - at,
    {
        let pair = &pairs[at];
        copy.push((pair.0.clone_key(), pair.1.clone()));
        at = at + 1;
    }
    copy
}

/// A copy of an entry. A deeper node is shared, not copied.
pub fn copy_entry<K: HashKey, V: Clone>(entry: &HAMTNodeEntry<K, V>) -> (copy: HAMTNodeEntry<
    K,
    V,
>)
    requires
        clones_exactly::<V>(),
    ensures
        copy.agrees(*entry),
{
    match entry {
        HAMTNodeEntry::Value(key, value) => HAMTNodeEntry::Value(key.clone_key(), value.clone()),
        HAMTNodeEntry::Node(child) => HAMTNodeEntry::Node(share(child)),
        HAMTNodeEntry::Chained(pairs) => HAMTNodeEntry::Chained(copy_chain(pairs)),
    }
}

/// A copy of a node's entries, slot by slot.
pub fn copy_entries<K: HashKey, V: Clone>(entries: &Vec<HAMTNodeEntry<K, V>>) -> (copy: Vec<
    HAMTNodeEntry<K, V>,
>)
    requires
        clones_exactly::<V>(),
    ensures
        agree_all(copy@, entries@),
{
    let mut copy: Vec<HAMTNodeEntry<K, V>> = Vec::new();
    let mut at: usize = 0;
    while at < entries.len()
        invariant
            clones_exactly::<V>(),
            at <= entries.len(),
            copy@.len() == at,
            forall|i: int| 0 <= i < at ==> (#[trigger] copy@[i]).agrees(entries@[i]),
        decreases entries.len() - at,
    {
        copy.push(copy_entry(&entries[at]));
        at = at + 1;
    }
    copy
}

/// A node whose entry at an occupied branch was replaced holds, for the keys
/// of that branch, what the new entry holds, and for all others what it held
/// before.
pub proof fn lemma_replaced<K: HashKey, V>(
    node: HAMTNode<K, V>,
    copy: Seq<HAMTNodeEntry<K, V>>,
    updated: HAMTNode<K, V>,
    level: nat,
    branch: u32,
    entry: HAMTNodeEntry<K, V>,
)
    requires
        node.wf(level),
        branch < 32,
        occupied(node.presence_map, branch),
        entry.wf(level, branch),
        agree_all(copy, node.entries@),
        updated.presence_map == node.presence_map,
        updated.entries@ == copy.update(rank(node.presence_map, branch) as int, entry),
    ensures
        updated.wf(level),
        forall|id: K::Id, value: V| #[trigger]
            updated.holds(id, value) == (if key_fragment::<K>(id, level) == branch {
                entry.holds(id, value)
            } else {
                node.holds(id, value)
            }),
        entry.depth() >= node.entries[rank(node.presence_map, branch) as int].depth()
            ==> updated.height() >= node.height(),
        entry.depth() <= node.entries[rank(node.presence_map, branch) as int].depth()
            ==> updated.height() <= node.height(),
{
    let presence = node.presence_map;
    let slot = rank(presence, branch) as int;
    lemma_rank_in_bounds(presence, branch);
    assert forall|at: int| 0 <= at < copy.len() && at != slot implies (
    #[trigger] updated.entries[at]).depth() == node.entries[at].depth() by {
        assert(copy[at].agrees(node.entries@[at]));
        lemma_agrees(copy[at], node.entries@[at]);
    }
    if entry.depth() >= node.entries[slot].depth() {
        lemma_height_covered(node, updated, |at: int| at);
    }
    if entry.depth() <= node.entries[slot].depth() {
        lemma_height_covered(updated, node, |at: int| at);
    }
    assert forall|other: u32|
        #![trigger occupied(updated.presence_map, other)]
        other < 32 && occupied(updated.presence_map, other) implies rank(
        updated.presence_map,
        other,
    ) < updated.entries.len() && updated.entries[rank(updated.presence_map, other) as int].wf(
        level,
        other,
    ) by {
        lemma_same_slot(node, copy, updated, level, branch, slot, other);
    }
    assert(updated.wf(level));
    assert forall|id: K::Id, value: V| #[trigger]
        updated.holds(id, value) == (if key_fragment::<K>(id, level) == branch {
            entry.holds(id, value)
        } else {
            node.holds(id, value)
        }) by {
        lemma_holds_on_path(node, level, id, value);
        lemma_holds_on_path(updated, level, id, value);
        let other = key_fragment::<K>(id, level);
        if other != branch && occupied(presence, other) {
            lemma_same_slot(node, copy, updated, level, branch, slot, other);
        }
    }
}

/// The entries of the other branches stay where they were when one slot is
/// overwritten.
proof fn lemma_same_slot<K: HashKey, V>(
    node: HAMTNode<K, V>,
    copy: Seq<HAMTNodeEntry<K, V>>,
    updated: HAMTNode<K, V>,
    level: nat,
    branch: u32,
    slot: int,
    other: u32,
)
    requires
        node.wf(level),
        branch < 32,
        other < 32,
        occupied(node.presence_map, branch),
        occupied(node.presence_map, other),
        slot == rank(node.presence_map, branch),
        agree_all(copy, node.entries@),
        updated.presence_map == node.presence_map,
        updated.entries@.len() == copy.len(),
        forall|at: int| 0 <= at < copy.len() && at != slot ==> updated.entries@[at] == copy[at],
        updated.entries@[slot].wf(level, branch),
    ensures
        rank(node.presence_map, other) < updated.entries.len(),
        updated.entries[rank(node.presence_map, other) as int].wf(level, other),
        other != branch ==> forall|id: K::Id, value: V| #[trigger]
            updated.entries[rank(node.presence_map, other) as int].holds(id, value)
                == node.entries[rank(node.presence_map, other) as int].holds(id, value),
{
    let presence = node.presence_map;
    lemma_rank_in_bounds(presence, other);
    if other != branch {
        lemma_rank_distinct(presence, other, branch);
        let at = rank(presence, other) as int;
        assert(copy[at].agrees(node.entries@[at]));
        lemma_agrees(copy[at], node.entries@[at]);
    }
}

/// A node that got an entry at a free branch holds, for the keys of that
/// branch, what the new entry holds, and for all others what it held before.
pub proof fn lemma_inserted<K: HashKey, V>(
    node: HAMTNode<K, V>,
    copy: Seq<HAMTNodeEntry<K, V>>,
    updated: HAMTNode<K, V>,
    level: nat,
    branch: u32,
    entry: HAMTNodeEntry<K, V>,
)
    requires
        node.wf(level),
        branch < 32,
        !occupied(node.presence_map, branch),
        entry.wf(level, branch),
        agree_all(copy, node.entries@),
        updated.presence_map == node.presence_map | (1u32 << branch),
        updated.entries@ == copy.insert(rank(node.presence_map, branch) as int, entry),
    ensures
        updated.wf(level),
        updated.presence_map != 0,
        forall|id: K::Id, value: V| #[trigger]
            updated.holds(id, value) == (if key_fragment::<K>(id, level) == branch {
                entry.holds(id, value)
            } else {
                node.holds(id, value)
            }),
        updated.height() >= node.height(),
{
    let presence = node.presence_map;
    let slot = rank(presence, branch) as int;
    lemma_set_branch(presence, branch);
    lemma_rank_monotonic(presence, branch, 32);
    let up = |at: int|
        if at < slot {
            at
        } else {
            at + 1
        };
    assert forall|at: int| 0 <= at < node.entries.len() implies 0 <= up(at)
        < updated.entries.len() && (#[trigger] node.entries[at]).depth()
        <= updated.entries[up(at)].depth() by {
        assert(copy[at].agrees(node.entries@[at]));
        lemma_agrees(copy[at], node.entries@[at]);
        assert(updated.entries[up(at)] == copy[at]);
    }
    lemma_height_covered(node, updated, up);
    assert(rank(updated.presence_map, 32) == rank(presence, 32) + 1);
    assert forall|other: u32|
        #![trigger occupied(updated.presence_map, other)]
        other < 32 && occupied(updated.presence_map, other) implies rank(
        updated.presence_map,
        other,
    ) < updated.entries.len() && updated.entries[rank(updated.presence_map, other) as int].wf(
        level,
        other,
    ) by {
        lemma_shifted_up(node, copy, updated, level, branch, slot, other);
    }
    assert(updated.wf(level));
    assert forall|id: K::Id, value: V| #[trigger]
        updated.holds(id, value) == (if key_fragment::<K>(id, level) == branch {
            entry.holds(id, value)
        } else {
            node.holds(id, value)
        }) by {
        lemma_holds_on_path(node, level, id, value);
        lemma_holds_on_path(updated, level, id, value);
        let other = key_fragment::<K>(id, level);
        if occupied(updated.presence_map, other) {
            lemma_shifted_up(node, copy, updated, level, branch, slot, other);
        }
    }
}

/// Where the entries stand once a slot has been added for `branch`.
proof fn lemma_shifted_up<K: HashKey, V>(
    node: HAMTNode<K, V>,
    copy: Seq<HAMTNodeEntry<K, V>>,
    updated: HAMTNode<K, V>,
    level: nat,
    branch: u32,
    slot: int,
    other: u32,
)
    requires
        node.wf(level),
        branch < 32,
        other < 32,
        !occupied(node.presence_map, branch),
        occupied(updated.presence_map, other),
        slot == rank(node.presence_map, branch),
        0 <= slot <= copy.len(),
        agree_all(copy, node.entries@),
        updated.presence_map == node.presence_map | (1u32 << branch),
        updated.entries@ == copy.insert(slot, updated.entries@[slot]),
        updated.entries@[slot].wf(level, branch),
        forall|upto: u32|
            upto <= 32 ==> #[trigger] rank(updated.presence_map, upto) == rank(
                node.presence_map,
                upto,
            ) + if upto > branch {
                1nat
            } else {
                0nat
            },
        forall|any: u32|
            any < 32 ==> #[trigger] occupied(updated.presence_map, any) == (any == branch
                || occupied(node.presence_map, any)),
    ensures
        rank(updated.presence_map, other) < updated.entries.len(),
        updated.entries[rank(updated.presence_map, other) as int].wf(level, other),
        other != branch ==> occupied(node.presence_map, other) && forall|id: K::Id, value: V|
         #[trigger]
            updated.entries[rank(updated.presence_map, other) as int].holds(id, value)
                == node.entries[rank(node.presence_map, other) as int].holds(id, value),
{
    let presence = node.presence_map;
    assert(rank(updated.presence_map, other) == rank(presence, other) + if other > branch {
        1nat
    } else {
        0nat
    });
    if other != branch {
        assert(occupied(presence, other));
        lemma_rank_in_bounds(presence, other);
        let at = rank(presence, other) as int;
        assert(copy[at].agrees(node.entries@[at]));
        lemma_agrees(copy[at], node.entries@[at]);
        if other < branch {
            lemma_rank_strict(presence, other, branch);
            assert(updated.entries@[at] == copy[at]);
        } else {
            lemma_rank_monotonic(presence, branch, other);
            assert(updated.entries@[at + 1] == copy[at]);
        }
    }
}

/// A node whose entry at an occupied branch was taken out holds what it
/// held before for the keys of all other branches, and nothing else.
pub proof fn lemma_removed<K: HashKey, V>(
    node: HAMTNode<K, V>,
    copy: Seq<HAMTNodeEntry<K, V>>,
    updated: HAMTNode<K, V>,
    level: nat,
    branch: u32,
)
    requires
        node.wf(level),
        branch < 32,
        occupied(node.presence_map, branch),
        agree_all(copy, node.entries@),
        updated.presence_map == node.presence_map ^ (1u32 << branch),
        updated.entries@ == copy.remove(rank(node.presence_map, branch) as int),
    ensures
        updated.wf(level),
        forall|id: K::Id, value: V| #[trigger]
            updated.holds(id, value) == (key_fragment::<K>(id, level) != branch && node.holds(
                id,
                value,
            )),
        updated.height() <= node.height(),
{
    let presence = node.presence_map;
    let slot = rank(presence, branch) as int;
    lemma_clear_branch(presence, branch);
    lemma_rank_in_bounds(presence, branch);
    let up = |at: int|
        if at < slot {
            at
        } else {
            at + 1
        };
    assert forall|at: int| 0 <= at < updated.entries.len() implies 0 <= up(at)
        < node.entries.len() && (#[trigger] updated.entries[at]).depth()
        <= node.entries[up(at)].depth() by {
        assert(copy[up(at)].agrees(node.entries@[up(at)]));
        lemma_agrees(copy[up(at)], node.entries@[up(at)]);
        assert(updated.entries[at] == copy[up(at)]);
    }
    lemma_height_covered(updated, node, up);
    assert(rank(updated.presence_map, 32) + 1 == rank(presence, 32));
    assert forall|other: u32|
        #![trigger occupied(updated.presence_map, other)]
        other < 32 && occupied(updated.presence_map, other) implies rank(
        updated.presence_map,
        other,
    ) < updated.entries.len() && updated.entries[rank(updated.presence_map, other) as int].wf(
        level,
        other,
    ) by {
        lemma_shifted_down(node, copy, updated, level, branch, slot, other);
    }
    assert(updated.wf(level));
    assert forall|id: K::Id, value: V| #[trigger]
        updated.holds(id, value) == (key_fragment::<K>(id, level) != branch && node.holds(
            id,
            value,
        )) by {
        lemma_holds_on_path(node, level, id, value);
        lemma_holds_on_path(updated, level, id, value);
        let other = key_fragment::<K>(id, level);
        if occupied(updated.presence_map, other) {
            lemma_shifted_down(node, copy, updated, level, branch, slot, other);
        }
    }
}

/// Where the entries stand once the slot of `branch` has been taken out.
proof fn lemma_shifted_down<K: HashKey, V>(
    node: HAMTNode<K, V>,
    copy: Seq<HAMTNodeEntry<K, V>>,
    updated: HAMTNode<K, V>,
    level: nat,
    branch: u32,
    slot: int,
    other: u32,
)
    requires
        node.wf(level),
        branch < 32,
        other < 32,
        occupied(node.presence_map, branch),
        occupied(updated.presence_map, other),
        slot == rank(node.presence_map, branch),
        0 <= slot < copy.len(),
        agree_all(copy, node.entries@),
        updated.presence_map == node.presence_map ^ (1u32 << branch),
        updated.entries@ == copy.remove(slot),
        forall|upto: u32|
            upto <= 32 ==> (#[trigger] rank(updated.presence_map, upto)) + (if upto > branch {
                1nat
            } else {
                0nat
            }) == rank(node.presence_map, upto),
        forall|any: u32|
            any < 32 ==> #[trigger] occupied(updated.presence_map, any) == (any != branch
                && occupied(node.presence_map, any)),
    ensures
        other != branch,
        occupied(node.presence_map, other),
        rank(updated.presence_map, other) < updated.entries.len(),
        updated.entries[rank(updated.presence_map, other) as int].wf(level, other),
        forall|id: K::Id, value: V| #[trigger]
            updated.entries[rank(updated.presence_map, other) as int].holds(id, value)
                == node.entries[rank(node.presence_map, other) as int].holds(id, value),
{
    let presence = node.presence_map;
    assert(rank(updated.presence_map, other) + (if other > branch {
        1nat
    } else {
        0nat
    }) == rank(presence, other));
    assert(occupied(presence, other) && other != branch);
    lemma_rank_in_bounds(presence, other);
    let at = rank(presence, other) as int;
    assert(copy[at].agrees(node.entries@[at]));
    lemma_agrees(copy[at], node.entries@[at]);
    if other < branch {
        lemma_rank_strict(presence, other, branch);
        assert(updated.entries@[at] == copy[at]);
    } else {
        lemma_rank_strict(presence, branch, other);
        assert(updated.entries@[at - 1] == copy[at]);
    }
}

} // verus!

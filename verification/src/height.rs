//! The height of a trie.

use crate::bits::lemma_slot_branch;
use crate::bits::CHAIN_LEVEL;
use crate::bits::LAST_LEVEL;
use crate::key::HashKey;
use crate::node::HAMTNode;
use crate::node::HAMTNodeEntry;
use vstd::prelude::*;

verus! {

/// Every entry of a well-formed node may stand at the branch that its slot
/// belongs to.
pub proof fn lemma_entry_wf<K: HashKey, V>(node: HAMTNode<K, V>, level: nat, slot: int) -> (branch:
    u32)
    requires
        node.wf(level),
        0 <= slot < node.entries.len(),
    ensures
        branch < 32,
        node.entries[slot].wf(level, branch),
{
    lemma_slot_branch(node.presence_map, slot as nat)
}

/// In a well-formed node, every node from it downwards has exactly as many
/// entries as its presence map marks branches.
pub proof fn lemma_wf_compact<K: HashKey, V>(node: HAMTNode<K, V>, level: nat)
    requires
        node.wf(level),
    ensures
        node.compact(),
    decreases LAST_LEVEL - level,
{
    assert forall|at: int| 0 <= at < node.entries.len() implies (
    #[trigger] node.entries[at]).compact() by {
        let branch = lemma_entry_wf(node, level, at);
        match node.entries[at] {
            HAMTNodeEntry::Node(child) => {
                let ghost below = *child;
                lemma_wf_compact(below, level + 1);
            },
            _ => {},
        }
    }
}

/// The largest depth among the first `upto` entries is the depth of one of
/// them, and none of them is deeper.
proof fn lemma_height_upto<K: HashKey, V>(node: HAMTNode<K, V>, upto: nat)
    requires
        upto <= node.entries.len(),
    ensures
        forall|at: int|
            0 <= at < upto ==> (#[trigger] node.entries[at]).depth() <= node.height_upto(upto),
        upto == 0 ==> node.height_upto(upto) == 0,
        upto > 0 ==> exists|at: int|
            0 <= at < upto && (#[trigger] node.entries[at]).depth() == node.height_upto(upto),
    decreases upto,
{
    if upto > 0 {
        lemma_height_upto(node, (upto - 1) as nat);
        let before = node.height_upto((upto - 1) as nat);
        let depth = node.entries[upto - 1].depth();
        if depth > before || upto == 1 {
            assert(node.entries[upto - 1].depth() == node.height_upto(upto));
        } else {
            let at = choose|at: int|
                0 <= at < upto - 1 && (#[trigger] node.entries[at]).depth() == before;
            assert(node.entries[at].depth() == node.height_upto(upto));
        }
    }
}

/// The height of a node is the depth of one of its entries, and no entry is
/// deeper; without entries it is 0.
pub proof fn lemma_height_max<K: HashKey, V>(node: HAMTNode<K, V>)
    ensures
        forall|at: int|
            0 <= at < node.entries.len() ==> (#[trigger] node.entries[at]).depth() <= node.height(),
        node.entries.len() == 0 ==> node.height() == 0,
        node.entries.len() > 0 ==> exists|at: int|
            0 <= at < node.entries.len() && (#[trigger] node.entries[at]).depth() == node.height(),
{
    lemma_height_upto(node, node.entries.len() as nat);
}

/// A node is at most as high as a node that has, for each of its entries,
/// an entry at least as deep: the one at the place that `cover` names.
pub proof fn lemma_height_covered<K: HashKey, V>(
    low: HAMTNode<K, V>,
    high: HAMTNode<K, V>,
    cover: spec_fn(int) -> int,
)
    requires
        forall|at: int|
            0 <= at < low.entries.len() ==> 0 <= cover(at) < high.entries.len() && (
            #[trigger] low.entries[at]).depth() <= high.entries[cover(at)].depth(),
    ensures
        low.height() <= high.height(),
{
    lemma_height_max(low);
    lemma_height_max(high);
    if low.entries.len() > 0 {
        let at = choose|at: int|
            0 <= at < low.entries.len() && (#[trigger] low.entries[at]).depth() == low.height();
        assert(high.entries[cover(at)].depth() <= high.height());
    }
}

/// The height of the subtree below a node: the largest depth among its
/// entries, where a single key has depth 0, a chain has depth 1 and a deeper
/// node has one more than its own height. A node without entries has height
/// 0. A node at `level` is at most `CHAIN_LEVEL - level` high.
pub fn get_height<K: HashKey, V>(node: &HAMTNode<K, V>, Ghost(level): Ghost<nat>) -> (height: u32)
    requires
        node.wf(level),
    ensures
        height == node.height(),
        height <= CHAIN_LEVEL - level,
    decreases LAST_LEVEL - level,
{
    let mut max_child_depth: u32 = 0;
    let mut at: usize = 0;
    while at < node.entries.len()
        invariant
            node.wf(level),
            at <= node.entries.len(),
            max_child_depth == node.height_upto(at as nat),
            max_child_depth <= CHAIN_LEVEL - level,
        decreases node.entries.len() - at,
    {
        proof {
            lemma_entry_wf(*node, level, at as int);
        }
        let entry_depth: u32 = match &node.entries[at] {
            HAMTNodeEntry::Value(_, _) => 0,
            HAMTNodeEntry::Chained(_) => 1,
            HAMTNodeEntry::Node(child_node) => 1 + get_height(child_node, Ghost(level + 1)),
        };
        assert(entry_depth == node.entries[at as int].depth());
        if entry_depth > max_child_depth {
            max_child_depth = entry_depth;
        }
        at = at + 1;
        assert(node.height_upto((at - 1) as nat) <= node.height_upto(at as nat));
    }
    max_child_depth
}

} // verus!

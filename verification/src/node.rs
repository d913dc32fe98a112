//! The trie's nodes: the data model, what a node holds, and when a node is
//! well formed.

use crate::bits::fragment_at;
use crate::bits::lemma_fragment_bound;
use crate::bits::lemma_nonzero_occupied;
use crate::bits::level_hash;
use crate::bits::occupied;
use crate::bits::popcount;
use crate::bits::rank;
use crate::bits::LAST_LEVEL;
use crate::key::HashKey;
use std::rc::Rc;
use vstd::prelude::*;

verus! {

/// Whether cloning a value of type `V` always gives an equal value.
pub open spec fn clones_exactly<V: Clone>() -> bool {
    forall|value: V, copy: V| #[trigger]
        call_ensures(V::clone, (&value,), copy) ==> copy == value
}

/// The branch that the key with identity `id` selects at `level`.
pub open spec fn key_fragment<K: HashKey>(id: K::Id, level: nat) -> u32 {
    fragment_at(K::hash_of(id), level)
}

/// Whether two chains name the same keys with the same values, in the same
/// order.
pub open spec fn chain_agrees<K: HashKey, V>(left: Seq<(K, V)>, right: Seq<(K, V)>) -> bool {
    &&& left.len() == right.len()
    &&& forall|at: int|
        0 <= at < left.len() ==> (#[trigger] left[at]).0.id() == right[at].0.id() && left[at].1
            == right[at].1
}

/// Whether the chain holds the pair of the key `id` and `value`.
pub open spec fn chain_holds<K: HashKey, V>(pairs: Seq<(K, V)>, id: K::Id, value: V) -> bool {
    exists|at: int|
        0 <= at < pairs.len() && (#[trigger] pairs[at]).0.id() == id && pairs[at].1 == value
}

/// Whether the chain has a pair for the key `id`.
pub open spec fn chain_has_key<K: HashKey, V>(pairs: Seq<(K, V)>, id: K::Id) -> bool {
    exists|at: int| 0 <= at < pairs.len() && (#[trigger] pairs[at]).0.id() == id
}

/// Whether no key occurs twice in the chain.
pub open spec fn chain_distinct<K: HashKey, V>(pairs: Seq<(K, V)>) -> bool {
    forall|i: int, j: int|
        0 <= i < j < pairs.len() ==> (#[trigger] pairs[i]).0.id() != (#[trigger] pairs[j]).0.id()
}

/// Whether every key of the chain selects `branch` at `level`.
pub open spec fn chain_on_branch<K: HashKey, V>(
    pairs: Seq<(K, V)>,
    level: nat,
    branch: u32,
) -> bool {
    forall|at: int|
        0 <= at < pairs.len() ==> key_fragment::<K>((#[trigger] pairs[at]).0.id(), level)
            == branch
}

/// What a node stores at one occupied branch.
#[derive(Debug)]
pub enum HAMTNodeEntry<K, V> {
    /// A single key with its value.
    Value(K, V),
    /// A deeper node, shared between the versions of a map that reach it.
    Node(Rc<HAMTNode<K, V>>),
    /// Keys whose hashes agree in all 64 bits, most recently inserted first.
    Chained(Vec<(K, V)>),
}

/// An internal node of a [`HAMT`](crate::HAMT): a bitmap of the occupied
/// branches and one entry for each of them, in ascending order of branch.
#[derive(Debug)]
pub struct HAMTNode<K, V> {
    /// Bit `i` is set exactly when branch `i` is occupied.
    pub presence_map: u32,
    /// The entries of the occupied branches, in ascending order of branch.
    pub entries: Vec<HAMTNodeEntry<K, V>>,
}

impl<K: HashKey, V> HAMTNodeEntry<K, V> {
    /// Whether the pair of the key `id` and `value` is stored in this entry.
    pub open spec fn holds(self, id: K::Id, value: V) -> bool
        decreases self,
    {
        match self {
            HAMTNodeEntry::Value(k, v) => k.id() == id && v == value,
            HAMTNodeEntry::Node(child) => child.holds(id, value),
            HAMTNodeEntry::Chained(pairs) => chain_holds(pairs@, id, value),
        }
    }

    /// Whether this entry may stand at `branch` of a node at `level`: every
    /// key below it selects `branch` at `level`, a deeper node is not empty,
    /// and a chain stands at the last level only and names no key twice.
    pub open spec fn wf(self, level: nat, branch: u32) -> bool
        decreases self,
    {
        match self {
            HAMTNodeEntry::Value(k, _) => key_fragment::<K>(k.id(), level) == branch,
            HAMTNodeEntry::Node(child) => {
                &&& level < LAST_LEVEL
                &&& child.presence_map != 0
                &&& child.wf(level + 1)
                &&& forall|id: K::Id, value: V| #[trigger]
                    child.holds(id, value) ==> key_fragment::<K>(id, level) == branch
            },
            HAMTNodeEntry::Chained(pairs) => {
                &&& level == LAST_LEVEL
                &&& pairs.len() > 0
                &&& chain_distinct(pairs@)
                &&& chain_on_branch(pairs@, level, branch)
            },
        }
    }

    /// What this entry adds to the height of the node that it stands in.
    pub open spec fn depth(self) -> nat
        decreases self, 0nat,
    {
        match self {
            HAMTNodeEntry::Value(_, _) => 0,
            HAMTNodeEntry::Node(child) => 1 + child.height_upto(child.entries.len() as nat),
            HAMTNodeEntry::Chained(_) => 1,
        }
    }

    /// Whether every node from this entry downwards has exactly as many
    /// entries as its presence map marks branches.
    pub open spec fn compact(self) -> bool
        decreases self,
    {
        match self {
            HAMTNodeEntry::Node(child) => child.compact(),
            _ => true,
        }
    }

    /// Whether two entries store the same: the same key and value, the same
    /// deeper node, or the same chain.
    pub open spec fn agrees(self, other: Self) -> bool {
        match (self, other) {
            (HAMTNodeEntry::Value(k1, v1), HAMTNodeEntry::Value(k2, v2)) => k1.id() == k2.id()
                && v1 == v2,
            (HAMTNodeEntry::Node(child1), HAMTNodeEntry::Node(child2)) => child1 == child2,
            (HAMTNodeEntry::Chained(pairs1), HAMTNodeEntry::Chained(pairs2)) => chain_agrees(
                pairs1@,
                pairs2@,
            ),
            _ => false,
        }
    }
}

impl<K: HashKey, V> HAMTNode<K, V> {
    /// Whether the pair of the key `id` and `value` is stored in this node
    /// or below it: the entry of some occupied branch holds it.
    pub open spec fn holds(self, id: K::Id, value: V) -> bool
        decreases self,
    {
        exists|branch: u32|
            #![trigger occupied(self.presence_map, branch)]
            branch < 32 && occupied(self.presence_map, branch) && rank(
                self.presence_map,
                branch,
            ) < self.entries.len() && self.entries[rank(self.presence_map, branch) as int].holds(
                id,
                value,
            )
    }

    /// Whether this node may stand at `level`: it has exactly one entry for
    /// each occupied branch, and each entry may stand at its branch.
    pub open spec fn wf(self, level: nat) -> bool
        decreases self,
    {
        &&& level <= LAST_LEVEL
        &&& self.entries.len() == popcount(self.presence_map)
        &&& forall|branch: u32|
            #![trigger occupied(self.presence_map, branch)]
            branch < 32 && occupied(self.presence_map, branch) ==> rank(
                self.presence_map,
                branch,
            ) < self.entries.len() && self.entries[rank(self.presence_map, branch) as int].wf(
                level,
                branch,
            )
    }

    /// The largest depth among the first `upto` entries.
    pub open spec fn height_upto(self, upto: nat) -> nat
        decreases self, upto,
    {
        if upto == 0 || upto > self.entries.len() {
            0
        } else {
            let before = self.height_upto((upto - 1) as nat);
            let depth = self.entries[upto - 1].depth();
            if depth > before {
                depth
            } else {
                before
            }
        }
    }

    /// The height of the node: the largest depth among its entries, and 0
    /// where it has none.
    pub open spec fn height(self) -> nat {
        self.height_upto(self.entries.len() as nat)
    }

    /// Whether this node and every node below it has exactly as many
    /// entries as its presence map marks branches.
    pub open spec fn compact(self) -> bool
        decreases self,
    {
        &&& self.entries.len() == popcount(self.presence_map)
        &&& forall|at: int|
            0 <= at < self.entries.len() ==> (#[trigger] self.entries[at]).compact()
    }

    /// The pairs that this node holds, as a map from keys to values.
    pub open spec fn as_map(self) -> Map<K::Id, V> {
        Map::new(
            |id: K::Id| exists|value: V| self.holds(id, value),
            |id: K::Id| choose|value: V| self.holds(id, value),
        )
    }

    /// Whether the pair stands where the key's hash leads at `level`.
    pub open spec fn holds_on_path(self, level: nat, id: K::Id, value: V) -> bool {
        let branch = key_fragment::<K>(id, level);
        occupied(self.presence_map, branch) && rank(self.presence_map, branch)
            < self.entries.len() && self.entries[rank(self.presence_map, branch) as int].holds(
            id,
            value,
        )
    }
}

/// The node that a shared pointer leads to.
pub open spec fn pointee<K, V>(shared: Rc<HAMTNode<K, V>>) -> HAMTNode<K, V> {
    *shared
}

/// Whether two arrays of entries store the same, slot by slot.
pub open spec fn agree_all<K: HashKey, V>(
    left: Seq<HAMTNodeEntry<K, V>>,
    right: Seq<HAMTNodeEntry<K, V>>,
) -> bool {
    &&& left.len() == right.len()
    &&& forall|at: int| 0 <= at < left.len() ==> (#[trigger] left[at]).agrees(right[at])
}

/// What a chain holds and where it may stand carries over to a chain that
/// agrees with it.
pub proof fn lemma_chain_agrees<K: HashKey, V>(left: Seq<(K, V)>, right: Seq<(K, V)>)
    requires
        chain_agrees(left, right),
    ensures
        chain_agrees(right, left),
        forall|id: K::Id, value: V| #[trigger]
            chain_holds(left, id, value) ==> chain_holds(right, id, value),
        forall|id: K::Id| #[trigger] chain_has_key(left, id) ==> chain_has_key(right, id),
        chain_distinct(left) ==> chain_distinct(right),
        forall|level: nat, branch: u32| #[trigger]
            chain_on_branch(left, level, branch) ==> chain_on_branch(right, level, branch),
{
    assert forall|id: K::Id, value: V| #[trigger] chain_holds(left, id, value) implies chain_holds(
        right,
        id,
        value,
    ) by {
        let at = choose|at: int|
            0 <= at < left.len() && (#[trigger] left[at]).0.id() == id && left[at].1 == value;
        assert(right[at].0.id() == id && right[at].1 == value);
    }
    assert forall|id: K::Id| #[trigger] chain_has_key(left, id) implies chain_has_key(
        right,
        id,
    ) by {
        let at = choose|at: int| 0 <= at < left.len() && (#[trigger] left[at]).0.id() == id;
        assert(right[at].0.id() == id);
    }
    if chain_distinct(left) {
        assert forall|i: int, j: int| 0 <= i < j < right.len() implies (#[trigger] right[i]).0.id()
            != (#[trigger] right[j]).0.id() by {
            assert(left[i].0.id() != left[j].0.id());
        }
    }
    assert forall|level: nat, branch: u32| #[trigger]
        chain_on_branch(left, level, branch) implies chain_on_branch(right, level, branch) by {
        assert forall|at: int| 0 <= at < right.len() implies key_fragment::<K>(
            (#[trigger] right[at]).0.id(),
            level,
        ) == branch by {
            assert(key_fragment::<K>(left[at].0.id(), level) == branch);
        }
    }
}

/// Entries that agree hold the same pairs, may stand at the same places and
/// have the same depth.
pub proof fn lemma_agrees<K: HashKey, V>(left: HAMTNodeEntry<K, V>, right: HAMTNodeEntry<K, V>)
    requires
        left.agrees(right),
    ensures
        forall|id: K::Id, value: V| #[trigger] left.holds(id, value) == right.holds(id, value),
        forall|level: nat, branch: u32| #[trigger]
            left.wf(level, branch) == right.wf(level, branch),
        left.depth() == right.depth(),
{
    match (left, right) {
        (HAMTNodeEntry::Chained(pairs1), HAMTNodeEntry::Chained(pairs2)) => {
            lemma_chain_agrees(pairs1@, pairs2@);
            lemma_chain_agrees(pairs2@, pairs1@);
        },
        _ => {},
    }
}

/// Every key below an entry selects the entry's branch.
pub proof fn lemma_entry_on_branch<K: HashKey, V>(
    entry: HAMTNodeEntry<K, V>,
    level: nat,
    branch: u32,
    id: K::Id,
    value: V,
)
    requires
        entry.wf(level, branch),
        entry.holds(id, value),
    ensures
        key_fragment::<K>(id, level) == branch,
{
    match entry {
        HAMTNodeEntry::Value(_, _) => {},
        HAMTNodeEntry::Node(child) => {
            assert(child.holds(id, value));
        },
        HAMTNodeEntry::Chained(pairs) => {
            let at = choose|at: int|
                0 <= at < pairs@.len() && (#[trigger] pairs@[at]).0.id() == id && pairs@[at].1
                    == value;
            assert(key_fragment::<K>(pairs@[at].0.id(), level) == branch);
        },
    }
}

/// In a well-formed node a pair is found where its key's hash leads, or
/// nowhere.
pub proof fn lemma_holds_on_path<K: HashKey, V>(
    node: HAMTNode<K, V>,
    level: nat,
    id: K::Id,
    value: V,
)
    requires
        node.wf(level),
    ensures
        node.holds(id, value) == node.holds_on_path(level, id, value),
        key_fragment::<K>(id, level) < 32,
{
    let on_path = key_fragment::<K>(id, level);
    lemma_fragment_bound(level_hash(K::hash_of(id), level));
    if node.holds(id, value) {
        let branch = choose|branch: u32|
            #![trigger occupied(node.presence_map, branch)]
            branch < 32 && occupied(node.presence_map, branch) && rank(node.presence_map, branch)
                < node.entries.len() && node.entries[rank(node.presence_map, branch) as int].holds(
                id,
                value,
            );
        lemma_entry_on_branch(
            node.entries[rank(node.presence_map, branch) as int],
            level,
            branch,
            id,
            value,
        );
    }
}

/// A well-formed node holds at most one value for each key.
pub proof fn lemma_holds_unique<K: HashKey, V>(
    node: HAMTNode<K, V>,
    level: nat,
    id: K::Id,
    first: V,
    second: V,
)
    requires
        node.wf(level),
        node.holds(id, first),
        node.holds(id, second),
    ensures
        first == second,
    decreases LAST_LEVEL - level,
{
    lemma_holds_on_path(node, level, id, first);
    lemma_holds_on_path(node, level, id, second);
    let branch = key_fragment::<K>(id, level);
    let entry = node.entries[rank(node.presence_map, branch) as int];
    assert(entry.wf(level, branch));
    match entry {
        HAMTNodeEntry::Value(_, _) => {},
        HAMTNodeEntry::Node(child) => {
            let ghost below = *child;
            lemma_holds_unique(below, level + 1, id, first, second);
        },
        HAMTNodeEntry::Chained(pairs) => {},
    }
}

/// A well-formed node that is not empty holds a pair.
pub proof fn lemma_nonempty_holds<K: HashKey, V>(node: HAMTNode<K, V>, level: nat) -> (pair: (
    K::Id,
    V,
))
    requires
        node.wf(level),
        node.presence_map != 0,
    ensures
        node.holds(pair.0, pair.1),
    decreases LAST_LEVEL - level,
{
    let branch = lemma_nonzero_occupied(node.presence_map);
    let entry = node.entries[rank(node.presence_map, branch) as int];
    assert(entry.wf(level, branch));
    let pair = match entry {
        HAMTNodeEntry::Value(k, v) => (k.id(), v),
        HAMTNodeEntry::Node(child) => {
            let ghost below = *child;
            lemma_nonempty_holds(below, level + 1)
        },
        HAMTNodeEntry::Chained(pairs) => {
            assert(pairs@[0].0.id() == pairs@[0].0.id());
            (pairs@[0].0.id(), pairs@[0].1)
        },
    };
    assert(entry.holds(pair.0, pair.1));
    pair
}

/// In a well-formed node, the map of its pairs says exactly what it holds.
pub proof fn lemma_as_map_holds<K: HashKey, V>(node: HAMTNode<K, V>, id: K::Id, value: V)
    requires
        node.wf(0),
    ensures
        node.holds(id, value) == (node.as_map().contains_key(id) && node.as_map()[id] == value),
{
    if node.holds(id, value) {
        let chosen = choose|chosen: V| node.holds(id, chosen);
        lemma_holds_unique(node, 0, id, value, chosen);
    }
}

/// A well-formed node that holds exactly the pairs of `target` has `target`
/// as the map of its pairs.
pub proof fn lemma_as_map_is<K: HashKey, V>(node: HAMTNode<K, V>, target: Map<K::Id, V>)
    requires
        node.wf(0),
        forall|id: K::Id, value: V| #[trigger]
            node.holds(id, value) == (target.contains_key(id) && target[id] == value),
    ensures
        node.as_map() == target,
{
    assert forall|id: K::Id| node.as_map().contains_key(id) == target.contains_key(id) by {
        if target.contains_key(id) {
            assert(node.holds(id, target[id]));
        }
        if node.as_map().contains_key(id) {
            let chosen = choose|chosen: V| node.holds(id, chosen);
            assert(node.holds(id, chosen));
        }
    }
    assert forall|id: K::Id| node.as_map().contains_key(id) implies node.as_map()[id]
        == target[id] by {
        lemma_as_map_holds(node, id, node.as_map()[id]);
    }
    assert(node.as_map() =~= target);
}

} // verus!

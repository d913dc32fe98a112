//! The map handle: an immutable map whose versions share what they have in
//! common.

use crate::bits::get_entries_index;
use crate::bits::key_present;
use crate::bits::lemma_empty_presence;
use crate::bits::lemma_fragment_bound;
use crate::bits::lemma_rank_in_bounds;
use crate::bits::level_hash;
use crate::bits::most_significant;
use crate::bits::CHAIN_LEVEL;
use crate::bits::LAST_LEVEL;
use crate::chain::chain_position;
use crate::height::get_height;
use crate::insert::insert_at_node;
use crate::insert::node_inserted;
use crate::key::HashKey;
use crate::node::chain_has_key;
use crate::node::chain_holds;
use crate::node::clones_exactly;
use crate::node::lemma_holds_on_path;
use crate::node::lemma_as_map_holds;
use crate::node::lemma_as_map_is;
use crate::node::pointee;
use crate::node::HAMTNode;
use crate::node::HAMTNodeEntry;
use crate::remove::node_removed;
use crate::remove::remove_at_node;
use crate::update::share;
use std::rc::Rc;
use vstd::prelude::*;

verus! {

/// A persistent map, implemented as a hash array mapped trie.
///
/// A map is never changed: `insert` and `remove` hand back a new map, which
/// shares with the old one every part of the trie that the change did not
/// touch. In specifications a map is a `Map` from the identities of its keys
/// to their values.
#[derive(Debug)]
pub struct HAMT<K: HashKey, V> {
    root: Rc<HAMTNode<K, V>>,
}

/// The map that results from inserting `pairs` one after the other into
/// `base`: where a key occurs more than once, its last pair counts.
pub open spec fn insert_all<K: HashKey, V>(base: Map<K::Id, V>, pairs: Seq<(K, V)>) -> Map<
    K::Id,
    V,
>
    decreases pairs.len(),
{
    if pairs.len() == 0 {
        base
    } else {
        insert_all(base, pairs.drop_last()).insert(pairs.last().0.id(), pairs.last().1)
    }
}

impl<K: HashKey, V> View for HAMT<K, V> {
    type V = Map<K::Id, V>;

    /// The pairs that the trie holds, as a map from keys to values.
    open spec fn view(&self) -> Map<K::Id, V> {
        self.root().as_map()
    }
}

impl<K: HashKey, V> HAMT<K, V> {
    /// The root of the trie.
    pub closed spec fn root(self) -> HAMTNode<K, V> {
        pointee(self.root)
    }

    /// Whether the trie is well formed. Every node has exactly one entry for
    /// each branch that its presence map marks, in ascending order of
    /// branch; every key stands where its hash leads; no node but the root
    /// is empty; and a chain stands only where the hash bits are used up,
    /// and names no key twice.
    pub open spec fn wf(self) -> bool {
        self.root().wf(0)
    }

    /// The height of the trie: the largest depth among the root's entries,
    /// where a single key has depth 0, a chain has depth 1 and a deeper node
    /// has one more than its own height. An empty map has height 0.
    pub open spec fn spec_height(self) -> nat {
        self.root().height()
    }

    /// Every map is well formed.
    #[verifier::type_invariant]
    spec fn inv(self) -> bool {
        self.wf()
    }

    /// In a well-formed trie, the map says exactly what the root holds.
    proof fn lemma_view_holds(self, id: K::Id, value: V)
        requires
            self.wf(),
        ensures
            self.root.holds(id, value) == (self@.contains_key(id) && self@[id] == value),
    {
        lemma_as_map_holds(self.root(), id, value);
    }

    /// A well-formed trie whose root holds exactly the pairs of `target`
    /// stands for `target`.
    proof fn lemma_view_is(self, target: Map<K::Id, V>)
        requires
            self.wf(),
            forall|id: K::Id, value: V| #[trigger]
                self.root.holds(id, value) == (target.contains_key(id) && target[id] == value),
        ensures
            self@ == target,
    {
        lemma_as_map_is(self.root(), target);
    }

    /// Constructs an empty map.
    pub fn new() -> (map: Self)
        ensures
            map.wf(),
            map@ == Map::<K::Id, V>::empty(),
            map.spec_height() == 0,
            map.root().presence_map == 0,
    {
        let root_node = HAMTNode { presence_map: 0, entries: Vec::new() };
        proof {
            lemma_empty_presence();
            assert(root_node.wf(0));
            assert forall|id: K::Id, value: V| !#[trigger] root_node.holds(id, value) by {}
        }
        let map = HAMT { root: Rc::new(root_node) };
        proof {
            map.lemma_view_is(Map::empty());
        }
        map
    }

    /// The height of the trie, which is at most 13.
    pub fn height(&self) -> (height: u32)
        ensures
            height == self.spec_height(),
            height <= CHAIN_LEVEL,
    {
        proof {
            use_type_invariant(self);
        }
        get_height(&self.root, Ghost(0))
    }

    /// The value stored for `key`, if the map has one.
    pub fn get(&self, key: K) -> (found: Option<&V>)
        ensures
            match found {
                Some(value) => self@.contains_key(key.id()) && *value == self@[key.id()],
                None => !self@.contains_key(key.id()),
            },
    {
        proof {
            use_type_invariant(self);
        }
        // The key is hashed once.
        let hashed_key = key.hash_key();
        let mut cur_node: &HAMTNode<K, V> = &self.root;
        let mut cur_key = hashed_key;
        let ghost mut level: nat = 0;
        loop
            invariant
                self.wf(),
                cur_node.wf(level),
                cur_key == level_hash(K::hash_of(key.id()), level),
                forall|value: V|
                    self.root.holds(key.id(), value) == cur_node.holds(key.id(), value),
            decreases LAST_LEVEL - level,
        {
            // The five most significant bits of the working hash select one
            // of the node's 32 branches.
            let most_sig = most_significant(cur_key);
            proof {
                assert forall|value: V|
                    self.root.holds(key.id(), value) == cur_node.holds_on_path(
                        level,
                        key.id(),
                        value,
                    ) by {
                    lemma_holds_on_path(*cur_node, level, key.id(), value);
                }
                assert forall|value: V|
                    self.root.holds(key.id(), value) == (self@.contains_key(key.id())
                        && self@[key.id()] == value) by {
                    self.lemma_view_holds(key.id(), value);
                }
            }
            if !key_present(cur_node.presence_map, most_sig) {
                return None;
            }
            // The number of occupied branches below this one is the place
            // of the branch's entry.
            let entries_index = get_entries_index(cur_node.presence_map, most_sig);
            proof {
                lemma_rank_in_bounds(cur_node.presence_map, most_sig);
            }
            let entry = &cur_node.entries[entries_index];
            assert(entry.wf(level, most_sig));
            match entry {
                HAMTNodeEntry::Value(k, v) => {
                    if k.same_key(&key) {
                        assert(self.root.holds(key.id(), *v));
                        return Some(v);
                    } else {
                        return None;
                    }
                },
                HAMTNodeEntry::Chained(vec) => {
                    match chain_position(vec, &key) {
                        Some(at) => {
                            assert(chain_holds(vec@, key.id(), vec@[at as int].1));
                            assert(self.root.holds(key.id(), vec@[at as int].1));
                            return Some(&vec[at].1);
                        },
                        None => {
                            assert forall|value: V| !chain_holds(vec@, key.id(), value) by {
                                if chain_holds(vec@, key.id(), value) {
                                    let at = choose|at: int|
                                        0 <= at < vec@.len() && (#[trigger] vec@[at]).0.id()
                                            == key.id() && vec@[at].1 == value;
                                    assert(vec@[at].0.id() == key.id());
                                    assert(chain_has_key(vec@, key.id()));
                                }
                            }
                            return None;
                        },
                    }
                },
                HAMTNodeEntry::Node(new_node) => {
                    proof {
                        lemma_fragment_bound(cur_key << 5);
                        assert forall|value: V|
                            self.root.holds(key.id(), value) == new_node.holds(
                                key.id(),
                                value,
                            ) by {
                            assert(entry.holds(key.id(), value) == new_node.holds(
                                key.id(),
                                value,
                            ));
                        }
                        level = level + 1;
                    }
                    cur_node = new_node;
                    // The next five bits move into position.
                    cur_key = cur_key << 5;
                },
            }
        }
    }

    /// Whether the map has a value for `key`.
    pub fn contains_key(&self, key: K) -> (found: bool)
        ensures
            found == self@.contains_key(key.id()),
    {
        proof {
            use_type_invariant(self);
        }
        let hashed_key = key.hash_key();
        let mut cur_node: &HAMTNode<K, V> = &self.root;
        let mut cur_key = hashed_key;
        let ghost mut level: nat = 0;
        loop
            invariant
                self.wf(),
                cur_node.wf(level),
                cur_key == level_hash(K::hash_of(key.id()), level),
                forall|value: V|
                    self.root.holds(key.id(), value) == cur_node.holds(key.id(), value),
            decreases LAST_LEVEL - level,
        {
            let most_sig = most_significant(cur_key);
            proof {
                assert forall|value: V|
                    self.root.holds(key.id(), value) == cur_node.holds_on_path(
                        level,
                        key.id(),
                        value,
                    ) by {
                    lemma_holds_on_path(*cur_node, level, key.id(), value);
                }
                assert forall|value: V|
                    self.root.holds(key.id(), value) == (self@.contains_key(key.id())
                        && self@[key.id()] == value) by {
                    self.lemma_view_holds(key.id(), value);
                }
            }
            if !key_present(cur_node.presence_map, most_sig) {
                return false;
            }
            let entries_index = get_entries_index(cur_node.presence_map, most_sig);
            proof {
                lemma_rank_in_bounds(cur_node.presence_map, most_sig);
            }
            let entry = &cur_node.entries[entries_index];
            assert(entry.wf(level, most_sig));
            match entry {
                HAMTNodeEntry::Value(k, v) => {
                    let same = k.same_key(&key);
                    assert(same ==> self.root.holds(key.id(), *v));
                    return same;
                },
                HAMTNodeEntry::Chained(vec) => {
                    match chain_position(vec, &key) {
                        Some(at) => {
                            assert(chain_holds(vec@, key.id(), vec@[at as int].1));
                            assert(self.root.holds(key.id(), vec@[at as int].1));
                            return true;
                        },
                        None => {
                            assert forall|value: V| !chain_holds(vec@, key.id(), value) by {
                                if chain_holds(vec@, key.id(), value) {
                                    let at = choose|at: int|
                                        0 <= at < vec@.len() && (#[trigger] vec@[at]).0.id()
                                            == key.id() && vec@[at].1 == value;
                                    assert(vec@[at].0.id() == key.id());
                                    assert(chain_has_key(vec@, key.id()));
                                }
                            }
                            return false;
                        },
                    }
                },
                HAMTNodeEntry::Node(next_node) => {
                    proof {
                        lemma_fragment_bound(cur_key << 5);
                        assert forall|value: V|
                            self.root.holds(key.id(), value) == next_node.holds(
                                key.id(),
                                value,
                            ) by {
                            assert(entry.holds(key.id(), value) == next_node.holds(
                                key.id(),
                                value,
                            ));
                        }
                        level = level + 1;
                    }
                    cur_node = next_node;
                    cur_key = cur_key << 5;
                },
            }
        }
    }
}

impl<K: HashKey, V: Clone> HAMT<K, V> {
    /// Creates a map from the given array of pairs, inserted in order: a
    /// later pair for a key replaces an earlier one.
    pub fn from<const N: usize>(items: [(K, V); N]) -> (map: Self)
        requires
            clones_exactly::<V>(),
        ensures
            map.wf(),
            map@ == insert_all(Map::empty(), items@),
    {
        let mut map = Self::new();
        let mut at: usize = 0;
        assert(items@.subrange(0, 0) =~= Seq::empty());
        while at < N
            invariant
                clones_exactly::<V>(),
                at <= N,
                map.wf(),
                map@ == insert_all(Map::empty(), items@.subrange(0, at as int)),
            decreases N - at,
        {
            let pair = &items[at];
            proof {
                let upto = items@.subrange(0, at + 1);
                assert(upto.drop_last() =~= items@.subrange(0, at as int));
                assert(upto.last() == items@[at as int]);
            }
            map = map.insert(pair.0.clone_key(), pair.1.clone());
            at = at + 1;
        }
        assert(items@.subrange(0, N as int) =~= items@);
        map
    }

    /// Inserts the pair of `key` and `value`. The map that comes back has
    /// `value` for `key` and is otherwise as this one; this one is not
    /// changed.
    pub fn insert(&self, key: K, value: V) -> (map: HAMT<K, V>)
        requires
            clones_exactly::<V>(),
        ensures
            map.wf(),
            map@ == self@.insert(key.id(), value),
            map.spec_height() >= self.spec_height(),
            self@.contains_key(key.id()) ==> map.spec_height() == self.spec_height(),
            node_inserted(self.root(), map.root(), 0, key.id(), value),
    {
        proof {
            use_type_invariant(self);
        }
        let hashed_key = key.hash_key();
        let ghost id = key.id();
        let new_root = insert_at_node(&self.root, key, hashed_key, value, 0);
        let map = HAMT { root: Rc::new(new_root) };
        proof {
            let target = self@.insert(id, value);
            if self@.contains_key(id) {
                self.lemma_view_holds(id, self@[id]);
            }
            assert forall|other: K::Id, held: V| #[trigger]
                map.root.holds(other, held) == (target.contains_key(other) && target[other]
                    == held) by {
                self.lemma_view_holds(other, held);
            }
            map.lemma_view_is(target);
        }
        map
    }

    /// Removes `key`, if the map has it. The map that comes back has no
    /// value for `key` and is otherwise as this one; this one is not
    /// changed.
    pub fn remove(&self, key: K) -> (map: HAMT<K, V>)
        requires
            clones_exactly::<V>(),
        ensures
            map.wf(),
            map@ == self@.remove(key.id()),
            map.spec_height() <= self.spec_height(),
            !self@.contains_key(key.id()) ==> map.spec_height() == self.spec_height(),
            node_removed(self.root(), map.root(), 0, key.id()),
    {
        proof {
            use_type_invariant(self);
        }
        let hashed_key = key.hash_key();
        let ghost id = key.id();
        let new_root = remove_at_node(share(&self.root), key, hashed_key, Ghost(0));
        let map = HAMT { root: new_root };
        proof {
            let target = self@.remove(id);
            if !self@.contains_key(id) {
                assert forall|held: V| !self.root.holds(id, held) by {
                    self.lemma_view_holds(id, held);
                }
            }
            assert forall|other: K::Id, held: V| #[trigger]
                map.root.holds(other, held) == (target.contains_key(other) && target[other]
                    == held) by {
                self.lemma_view_holds(other, held);
            }
            map.lemma_view_is(target);
        }
        map
    }
}

impl<K: HashKey, V> Clone for HAMT<K, V> {
    /// Another handle for the same trie.
    fn clone(&self) -> (copy: Self)
        ensures
            copy == *self,
            copy.wf(),
    {
        proof {
            use_type_invariant(self);
        }
        HAMT { root: share(&self.root) }
    }
}

} // verus!

//! What holds of every map, whatever is inserted and removed.
//!
//! `insert` hands back a map whose view is `Map::insert` of the old view,
//! `remove` one whose view is `Map::remove` of it, and `from` one whose view
//! is `insert_all` of its pairs: the laws below are stated over these.

use crate::bits::lemma_empty_presence;
use crate::height::lemma_height_max;
use crate::height::lemma_wf_compact;
use crate::key::HashKey;
use crate::map::insert_all;
use crate::map::HAMT;
use crate::node::lemma_as_map_holds;
use crate::node::lemma_nonempty_holds;
use vstd::prelude::*;

verus! {

/// After any sequence of insertions, the map has for every inserted key the
/// value of the key's most recent insertion: the pair at `at`, where no
/// later pair names the same key.
pub proof fn lemma_last_insert_wins<K: HashKey, V>(map: HAMT<K, V>, pairs: Seq<(K, V)>, at: int)
    requires
        0 <= at < pairs.len(),
        forall|later: int|
            at < later < pairs.len() ==> (#[trigger] pairs[later]).0.id() != pairs[at].0.id(),
    ensures
        insert_all(map@, pairs).contains_key(pairs[at].0.id()),
        insert_all(map@, pairs)[pairs[at].0.id()] == pairs[at].1,
    decreases pairs.len(),
{
    if at < pairs.len() - 1 {
        let earlier = pairs.drop_last();
        assert(earlier[at] == pairs[at]);
        assert forall|later: int| at < later < earlier.len() implies (
        #[trigger] earlier[later]).0.id() != earlier[at].0.id() by {
            assert(earlier[later] == pairs[later]);
        }
        lemma_last_insert_wins(map, earlier, at);
        assert(pairs[pairs.len() - 1].0.id() != pairs[at].0.id());
    }
}

/// Inserting the same pair twice gives the same map as inserting it once.
/// The second insertion finds the key in the map, so that by the contract of
/// `insert` it leaves the height as it is, too.
pub proof fn lemma_insert_idempotent<K: HashKey, V>(map: HAMT<K, V>, key: K, value: V)
    ensures
        map@.insert(key.id(), value).insert(key.id(), value) == map@.insert(key.id(), value),
        map@.insert(key.id(), value).contains_key(key.id()),
{
    assert(map@.insert(key.id(), value).insert(key.id(), value) =~= map@.insert(key.id(), value));
}

/// The map that an insertion gives has the inserted value for the key. The
/// map that it was made from is a value of its own, which `insert` borrows
/// and cannot change: it has for the key what it had before, and for every
/// other key the two maps agree.
pub proof fn lemma_insert_leaves_map<K: HashKey, V>(
    map: HAMT<K, V>,
    key: K,
    value: V,
    other: K::Id,
)
    ensures
        map@.insert(key.id(), value).contains_key(key.id()),
        map@.insert(key.id(), value)[key.id()] == value,
        other != key.id() ==> map@.insert(key.id(), value).contains_key(other)
            == map@.contains_key(other),
        other != key.id() && map@.contains_key(other) ==> map@.insert(key.id(), value)[other]
            == map@[other],
{
}

/// After a removal the map does not have the key, and it has every other
/// key that it had, with the value that it had.
pub proof fn lemma_remove_complete<K: HashKey, V>(map: HAMT<K, V>, key: K, other: K::Id)
    ensures
        !map@.remove(key.id()).contains_key(key.id()),
        other != key.id() ==> map@.remove(key.id()).contains_key(other) == map@.contains_key(
            other,
        ),
        other != key.id() && map@.contains_key(other) ==> map@.remove(key.id())[other]
            == map@[other],
{
}

/// In a well-formed trie every node that can be reached from the root has
/// exactly as many entries as its presence map marks branches.
pub proof fn lemma_every_node_compact<K: HashKey, V>(map: HAMT<K, V>)
    requires
        map.wf(),
    ensures
        map.root().compact(),
{
    lemma_wf_compact(map.root(), 0);
}

/// A map without keys has height 0, however it came to be empty: its root
/// has no entries.
pub proof fn lemma_empty_map_height<K: HashKey, V>(map: HAMT<K, V>)
    requires
        map.wf(),
        map@.dom() =~= Set::<K::Id>::empty(),
    ensures
        map.root().presence_map == 0,
        map.root().entries.len() == 0,
        map.spec_height() == 0,
{
    let root = map.root();
    if root.presence_map != 0 {
        let pair = lemma_nonempty_holds(root, 0);
        lemma_as_map_holds(root, pair.0, pair.1);
        assert(map@.dom().contains(pair.0));
    }
    lemma_empty_presence();
    lemma_height_max(root);
}

/// Two keys whose hashes agree in their first 60 bits and differ in the last
/// four can both be found after they have been inserted, each with its own
/// value.
pub proof fn lemma_colliding_keys<K: HashKey, V>(
    map: HAMT<K, V>,
    key1: K,
    val1: V,
    key2: K,
    val2: V,
)
    requires
        K::hash_of(key1.id()) >> 4 == K::hash_of(key2.id()) >> 4,
        K::hash_of(key1.id()) != K::hash_of(key2.id()),
    ensures
        map@.insert(key1.id(), val1).insert(key2.id(), val2).contains_key(key1.id()),
        map@.insert(key1.id(), val1).insert(key2.id(), val2)[key1.id()] == val1,
        map@.insert(key1.id(), val1).insert(key2.id(), val2).contains_key(key2.id()),
        map@.insert(key1.id(), val1).insert(key2.id(), val2)[key2.id()] == val2,
{
}

} // verus!

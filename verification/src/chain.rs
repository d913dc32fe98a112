//! Chains: the lists of pairs that stand where the hashes of several keys
//! agree in all 64 bits.

use crate::key::HashKey;
use crate::node::chain_agrees;
use crate::node::chain_distinct;
use crate::node::chain_has_key;
use crate::node::chain_holds;
use crate::node::chain_on_branch;
use crate::node::clones_exactly;
use crate::node::key_fragment;
use crate::update::copy_chain;
use vstd::prelude::*;

verus! {

/// Whether `at` is the first place of the chain that names the key `id`.
pub open spec fn chain_first<K: HashKey, V>(pairs: Seq<(K, V)>, id: K::Id, at: int) -> bool {
    &&& 0 <= at < pairs.len()
    &&& pairs[at].0.id() == id
    &&& forall|before: int| 0 <= before < at ==> (#[trigger] pairs[before]).0.id() != id
}

/// Whether `after` is the chain `before` with `value` inserted for the key
/// `id`. Where `before` names the key, the value of its first pair for the
/// key is replaced and nothing else changes; where it does not, the new pair
/// comes first and the pairs of `before` follow it.
pub open spec fn chain_inserted<K: HashKey, V>(
    before: Seq<(K, V)>,
    after: Seq<(K, V)>,
    id: K::Id,
    value: V,
) -> bool {
    &&& forall|at: int| #[trigger]
        chain_first(before, id, at) ==> {
            &&& after.len() == before.len()
            &&& after[at].0.id() == id
            &&& after[at].1 == value
            &&& forall|other: int|
                0 <= other < before.len() && other != at ==> (#[trigger] after[other]).0.id()
                    == before[other].0.id() && after[other].1 == before[other].1
        }
    &&& !chain_has_key(before, id) ==> {
        &&& after.len() == before.len() + 1
        &&& after[0].0.id() == id
        &&& after[0].1 == value
        &&& chain_agrees(after.subrange(1, after.len() as int), before)
    }
}

/// Whether `after` is the chain `before` without its first pair for the key
/// `id`, and `before` itself where it has none.
pub open spec fn chain_removed<K: HashKey, V>(
    before: Seq<(K, V)>,
    after: Seq<(K, V)>,
    id: K::Id,
) -> bool {
    &&& forall|at: int| #[trigger]
        chain_first(before, id, at) ==> chain_agrees(after, before.remove(at))
    &&& !chain_has_key(before, id) ==> chain_agrees(after, before)
}

/// The first place of the chain that names `key`, if there is one.
pub fn chain_position<K: HashKey, V>(pairs: &Vec<(K, V)>, key: &K) -> (found: Option<usize>)
    ensures
        match found {
            Some(at) => chain_first(pairs@, key.id(), at as int),
            None => !chain_has_key(pairs@, key.id()),
        },
{
    let mut at: usize = 0;
    while at < pairs.len()
        invariant
            at <= pairs.len(),
            forall|before: int| 0 <= before < at ==> (#[trigger] pairs@[before]).0.id() != key.id(),
        decreases pairs.len() - at,
    {
        if pairs[at].0.same_key(key) {
            return Some(at);
        }
        at = at + 1;
    }
    None
}

/// Inserts a pair into a copy of a chain. Where the chain names the key
/// already, the value of its first pair for the key is replaced; where it
/// does not, the new pair comes first.
pub fn insert_chained<K: HashKey, V: Clone>(vec: &Vec<(K, V)>, key: K, value: V) -> (new_vec: Vec<
    (K, V),
>)
    requires
        clones_exactly::<V>(),
    ensures
        chain_inserted(vec@, new_vec@, key.id(), value),
{
    let mut new_vec = copy_chain(vec);
    let ghost copy = new_vec@;
    match chain_position(&new_vec, &key) {
        Some(at) => {
            let (old_key, _) = new_vec.remove(at);
            new_vec.insert(at, (old_key, value));
            assert forall|first: int| chain_first(vec@, key.id(), first) implies first == at by {
                assert(copy[first].0.id() == key.id());
                assert(vec@[at as int].0.id() == key.id());
            }
        },
        None => {
            new_vec.insert(0, (key, value));
            assert(new_vec@.subrange(1, new_vec@.len() as int) =~= copy);
            assert forall|first: int| !chain_first(vec@, key.id(), first) by {
                if chain_first(vec@, key.id(), first) {
                    assert(copy[first].0.id() == key.id());
                }
            }
            assert(!chain_has_key(vec@, key.id())) by {
                if chain_has_key(vec@, key.id()) {
                    let at = choose|at: int|
                        0 <= at < vec@.len() && (#[trigger] vec@[at]).0.id() == key.id();
                    assert(copy[at].0.id() == key.id());
                }
            }
        },
    }
    new_vec
}

/// A chain that names no key twice does so after an insertion too, and then
/// holds the new pair and, for every other key, what it held before.
pub proof fn lemma_insert_chained<K: HashKey, V>(
    before: Seq<(K, V)>,
    after: Seq<(K, V)>,
    key: K,
    value: V,
    level: nat,
    branch: u32,
)
    requires
        chain_distinct(before),
        chain_on_branch(before, level, branch),
        key_fragment::<K>(key.id(), level) == branch,
        chain_inserted(before, after, key.id(), value),
    ensures
        after.len() > 0,
        chain_distinct(after),
        chain_on_branch(after, level, branch),
        forall|id: K::Id, held: V| #[trigger]
            chain_holds(after, id, held) == (if id == key.id() {
                held == value
            } else {
                chain_holds(before, id, held)
            }),
{
    if chain_has_key(before, key.id()) {
        let at = choose|at: int|
            0 <= at < before.len() && (#[trigger] before[at]).0.id() == key.id();
        assert(chain_first(before, key.id(), at)) by {
            assert forall|earlier: int| 0 <= earlier < at implies (
            #[trigger] before[earlier]).0.id() != key.id() by {
                assert(before[earlier].0.id() != before[at].0.id());
            }
        }
        assert forall|i: int| 0 <= i < after.len() implies (#[trigger] after[i]).0.id()
            == before[i].0.id() by {}
        assert forall|i: int, j: int| 0 <= i < j < after.len() implies (#[trigger] after[i]).0.id()
            != (#[trigger] after[j]).0.id() by {
            assert(before[i].0.id() != before[j].0.id());
        }
        assert forall|i: int| 0 <= i < after.len() implies key_fragment::<K>(
            (#[trigger] after[i]).0.id(),
            level,
        ) == branch by {
            assert(key_fragment::<K>(before[i].0.id(), level) == branch);
        }
        assert forall|id: K::Id, held: V| #[trigger]
            chain_holds(after, id, held) == (if id == key.id() {
                held == value
            } else {
                chain_holds(before, id, held)
            }) by {
            if chain_holds(after, id, held) {
                let i = choose|i: int|
                    0 <= i < after.len() && (#[trigger] after[i]).0.id() == id && after[i].1
                        == held;
                if id == key.id() {
                    assert(before[i].0.id() == before[at].0.id());
                } else {
                    assert(before[i].0.id() == id && before[i].1 == held);
                }
            }
            if id == key.id() && held == value {
                assert(after[at].0.id() == id && after[at].1 == held);
            }
            if id != key.id() && chain_holds(before, id, held) {
                let i = choose|i: int|
                    0 <= i < before.len() && (#[trigger] before[i]).0.id() == id && before[i].1
                        == held;
                assert(after[i].0.id() == id && after[i].1 == held);
            }
        }
    } else {
        let rest = after.subrange(1, after.len() as int);
        assert forall|i: int| 1 <= i < after.len() implies (#[trigger] after[i]).0.id() == before[i
            - 1].0.id() && after[i].1 == before[i - 1].1 by {
            assert(rest[i - 1] == after[i]);
        }
        assert forall|i: int, j: int| 0 <= i < j < after.len() implies (#[trigger] after[i]).0.id()
            != (#[trigger] after[j]).0.id() by {
            if i == 0 {
                assert(before[j - 1].0.id() == after[j].0.id());
            } else {
                assert(before[i - 1].0.id() != before[j - 1].0.id());
            }
        }
        assert forall|i: int| 0 <= i < after.len() implies key_fragment::<K>(
            (#[trigger] after[i]).0.id(),
            level,
        ) == branch by {
            if i > 0 {
                assert(key_fragment::<K>(before[i - 1].0.id(), level) == branch);
            }
        }
        assert forall|id: K::Id, held: V| #[trigger]
            chain_holds(after, id, held) == (if id == key.id() {
                held == value
            } else {
                chain_holds(before, id, held)
            }) by {
            if chain_holds(after, id, held) {
                let i = choose|i: int|
                    0 <= i < after.len() && (#[trigger] after[i]).0.id() == id && after[i].1
                        == held;
                if i > 0 {
                    assert(before[i - 1].0.id() == id && before[i - 1].1 == held);
                }
            }
            if id == key.id() && held == value {
                assert(after[0].0.id() == id && after[0].1 == held);
            }
            if id != key.id() && chain_holds(before, id, held) {
                let i = choose|i: int|
                    0 <= i < before.len() && (#[trigger] before[i]).0.id() == id && before[i].1
                        == held;
                assert(after[i + 1].0.id() == id && after[i + 1].1 == held);
            }
        }
    }
}

/// A chain that names no key twice and loses its pair for a key holds what
/// it held before for every other key, and nothing for that key.
pub proof fn lemma_remove_chained<K: HashKey, V>(
    before: Seq<(K, V)>,
    copy: Seq<(K, V)>,
    id: K::Id,
    at: int,
    level: nat,
    branch: u32,
)
    requires
        chain_distinct(before),
        chain_on_branch(before, level, branch),
        chain_agrees(copy, before),
        chain_first(copy, id, at),
    ensures
        chain_distinct(copy.remove(at)),
        chain_on_branch(copy.remove(at), level, branch),
        forall|other: K::Id, held: V| #[trigger]
            chain_holds(copy.remove(at), other, held) == (other != id && chain_holds(
                before,
                other,
                held,
            )),
{
    let after = copy.remove(at);
    assert forall|i: int| 0 <= i < after.len() implies (#[trigger] after[i]).0.id() == before[if i
        < at {
        i
    } else {
        i + 1
    }].0.id() && after[i].1 == before[if i < at {
        i
    } else {
        i + 1
    }].1 by {
        let from = if i < at {
            i
        } else {
            i + 1
        };
        assert(after[i] == copy[from]);
    }
    assert forall|i: int, j: int| 0 <= i < j < after.len() implies (#[trigger] after[i]).0.id()
        != (#[trigger] after[j]).0.id() by {
        let from_i = if i < at {
            i
        } else {
            i + 1
        };
        let from_j = if j < at {
            j
        } else {
            j + 1
        };
        assert(before[from_i].0.id() != before[from_j].0.id());
    }
    assert forall|i: int| 0 <= i < after.len() implies key_fragment::<K>(
        (#[trigger] after[i]).0.id(),
        level,
    ) == branch by {
        let from = if i < at {
            i
        } else {
            i + 1
        };
        assert(key_fragment::<K>(before[from].0.id(), level) == branch);
    }
    assert forall|other: K::Id, held: V| #[trigger]
        chain_holds(after, other, held) == (other != id && chain_holds(before, other, held)) by {
        assert(copy[at].0.id() == before[at].0.id());
        if chain_holds(after, other, held) {
            let i = choose|i: int|
                0 <= i < after.len() && (#[trigger] after[i]).0.id() == other && after[i].1
                    == held;
            let from = if i < at {
                i
            } else {
                i + 1
            };
            assert(before[from].0.id() == other && before[from].1 == held);
            if from < at {
                assert(before[from].0.id() != before[at].0.id());
            } else {
                assert(before[at].0.id() != before[from].0.id());
            }
        }
        if other != id && chain_holds(before, other, held) {
            let from = choose|from: int|
                0 <= from < before.len() && (#[trigger] before[from]).0.id() == other
                    && before[from].1 == held;
            let i = if from < at {
                from
            } else {
                from - 1
            };
            assert(after[i].0.id() == other && after[i].1 == held);
        }
    }
}

} // verus!

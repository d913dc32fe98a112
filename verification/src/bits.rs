//! Bit addressing: how a 64-bit hash is cut into 5-bit fragments, and how a
//! 32-bit presence bitmap maps a branch to its slot in a node's dense array
//! of entries.

use vstd::prelude::*;

verus! {

/// Selects the five most significant bits of a 64-bit word (`0b11111 << 59`).
pub const MOST_SIG: u64 = 0xF800_0000_0000_0000;

/// The deepest level at which a node can stand. Levels `0..=11` consume the
/// upper 60 bits of a hash, five at a time; level 12 consumes the last four.
pub const LAST_LEVEL: u32 = 12;

/// The level at which no hash bits are left: two keys that still share a
/// branch there are chained.
pub const CHAIN_LEVEL: u32 = 13;

/// Whether `branch` is marked occupied in `presence`.
pub open spec fn occupied(presence: u32, branch: u32) -> bool {
    (presence >> branch) & 1 == 1
}

/// The number of occupied branches of `presence` below `branch`: the slot of
/// `branch` in the dense array.
pub open spec fn rank(presence: u32, branch: u32) -> nat
    decreases branch,
{
    if branch == 0 {
        0
    } else {
        let below = (branch - 1) as u32;
        rank(presence, below) + if occupied(presence, below) {
            1nat
        } else {
            0nat
        }
    }
}

/// The number of occupied branches of `presence`.
pub open spec fn popcount(presence: u32) -> nat {
    rank(presence, 32)
}

/// `u32::count_ones` of the standard library: the number of one bits in the
/// binary representation of `x`, stated here as the number of positions
/// below 32 at which `x` has a one.
pub assume_specification[ u32::count_ones ](x: u32) -> (ones: u32)
    ensures
        ones == popcount(x),
;

/// The branch that a working hash selects: its five most significant bits.
pub open spec fn fragment(working_hash: u64) -> u32 {
    ((working_hash & MOST_SIG) >> 59) as u32
}

/// The working hash at `level`: `hash` shifted left by five bits per level.
pub open spec fn level_hash(hash: u64, level: nat) -> u64
    decreases level,
{
    if level == 0 {
        hash
    } else {
        level_hash(hash, (level - 1) as nat) << 5
    }
}

/// The branch that `hash` selects at `level`.
pub open spec fn fragment_at(hash: u64, level: nat) -> u32 {
    fragment(level_hash(hash, level))
}

/// Fewer than `branch` branches are occupied below `branch`.
pub proof fn lemma_rank_bound(presence: u32, branch: u32)
    ensures
        rank(presence, branch) <= branch,
    decreases branch,
{
    if branch > 0 {
        lemma_rank_bound(presence, (branch - 1) as u32);
    }
}

/// A higher branch has at least the rank of a lower one.
pub proof fn lemma_rank_monotonic(presence: u32, low: u32, high: u32)
    requires
        low <= high,
    ensures
        rank(presence, low) <= rank(presence, high),
    decreases high,
{
    if low < high {
        lemma_rank_monotonic(presence, low, (high - 1) as u32);
    }
}

/// An occupied branch takes a slot of its own: every branch above it has a
/// larger rank.
pub proof fn lemma_rank_strict(presence: u32, low: u32, high: u32)
    requires
        low < high,
        occupied(presence, low),
    ensures
        rank(presence, low) < rank(presence, high),
{
    lemma_rank_monotonic(presence, (low + 1) as u32, high);
}

/// The slot of an occupied branch lies inside the dense array.
pub proof fn lemma_rank_in_bounds(presence: u32, branch: u32)
    requires
        branch < 32,
        occupied(presence, branch),
    ensures
        rank(presence, branch) < popcount(presence),
{
    lemma_rank_strict(presence, branch, 32);
}

/// Two distinct occupied branches have distinct slots.
pub proof fn lemma_rank_distinct(presence: u32, a: u32, b: u32)
    requires
        a != b,
        occupied(presence, a),
        occupied(presence, b),
    ensures
        rank(presence, a) != rank(presence, b),
{
    if a < b {
        lemma_rank_strict(presence, a, b);
    } else {
        lemma_rank_strict(presence, b, a);
    }
}

/// The ranks of a masked bitmap: those of the bitmap itself up to `index`,
/// and the rank of `index` from there on.
proof fn lemma_mask_rank_upto(presence: u32, index: u32, upto: u32)
    requires
        0 < index < 32,
        upto <= 32,
    ensures
        rank(presence & (((1u32 << index) - 1) as u32), upto) == rank(
            presence,
            if upto <= index {
                upto
            } else {
                index
            },
        ),
    decreases upto,
{
    if upto > 0 {
        let below = (upto - 1) as u32;
        lemma_mask_rank_upto(presence, index, below);
        assert(occupied(presence & (((1u32 << index) - 1) as u32), below) == (below < index
            && occupied(presence, below))) by (bit_vector)
            requires
                index < 32,
                below < 32,
        ;
    }
}

/// Masking away the branches from `index` upwards leaves exactly the
/// occupied branches below `index`.
pub proof fn lemma_mask_rank(presence: u32, index: u32)
    requires
        0 < index < 32,
    ensures
        (1u32 << index) >= 1,
        popcount(presence & (((1u32 << index) - 1) as u32)) == rank(presence, index),
{
    lemma_mask_rank_upto(presence, index, 32);
    assert((1u32 << index) >= 1) by (bit_vector)
        requires
            index < 32,
    ;
}

/// Marking a free branch adds one to the rank of every branch above it.
proof fn lemma_set_rank_upto(presence: u32, branch: u32, upto: u32)
    requires
        branch < 32,
        upto <= 32,
        !occupied(presence, branch),
    ensures
        rank(presence | (1u32 << branch), upto) == rank(presence, upto) + if upto > branch {
            1nat
        } else {
            0nat
        },
    decreases upto,
{
    if upto > 0 {
        let below = (upto - 1) as u32;
        lemma_set_rank_upto(presence, branch, below);
        assert(occupied(presence | (1u32 << branch), below) == (below == branch || occupied(
            presence,
            below,
        ))) by (bit_vector)
            requires
                branch < 32,
                below < 32,
        ;
    }
}

/// What marking a free branch as occupied does to the bitmap.
pub proof fn lemma_set_branch(presence: u32, branch: u32)
    requires
        branch < 32,
        !occupied(presence, branch),
    ensures
        presence | (1u32 << branch) != 0,
        forall|other: u32|
            other < 32 ==> #[trigger] occupied(presence | (1u32 << branch), other) == (other
                == branch || occupied(presence, other)),
        forall|upto: u32|
            upto <= 32 ==> #[trigger] rank(presence | (1u32 << branch), upto) == rank(
                presence,
                upto,
            ) + if upto > branch {
                1nat
            } else {
                0nat
            },
{
    assert(presence | (1u32 << branch) != 0) by (bit_vector)
        requires
            branch < 32,
    ;
    assert forall|other: u32| other < 32 implies #[trigger] occupied(
        presence | (1u32 << branch),
        other,
    ) == (other == branch || occupied(presence, other)) by {
        assert(occupied(presence | (1u32 << branch), other) == (other == branch || occupied(
            presence,
            other,
        ))) by (bit_vector)
            requires
                branch < 32,
                other < 32,
        ;
    }
    assert forall|upto: u32| upto <= 32 implies #[trigger] rank(
        presence | (1u32 << branch),
        upto,
    ) == rank(presence, upto) + if upto > branch {
        1nat
    } else {
        0nat
    } by {
        lemma_set_rank_upto(presence, branch, upto);
    }
}

/// Freeing an occupied branch takes one from the rank of every branch above
/// it.
proof fn lemma_clear_rank_upto(presence: u32, branch: u32, upto: u32)
    requires
        branch < 32,
        upto <= 32,
        occupied(presence, branch),
    ensures
        rank(presence ^ (1u32 << branch), upto) + (if upto > branch {
            1nat
        } else {
            0nat
        }) == rank(presence, upto),
    decreases upto,
{
    if upto > 0 {
        let below = (upto - 1) as u32;
        lemma_clear_rank_upto(presence, branch, below);
        assert(occupied(presence ^ (1u32 << branch), below) == (below != branch && occupied(
            presence,
            below,
        ))) by (bit_vector)
            requires
                branch < 32,
                below < 32,
                occupied(presence, branch),
        ;
    }
}

/// What marking an occupied branch as free does to the bitmap.
pub proof fn lemma_clear_branch(presence: u32, branch: u32)
    requires
        branch < 32,
        occupied(presence, branch),
    ensures
        forall|other: u32|
            other < 32 ==> #[trigger] occupied(presence ^ (1u32 << branch), other) == (other
                != branch && occupied(presence, other)),
        forall|upto: u32|
            upto <= 32 ==> (#[trigger] rank(presence ^ (1u32 << branch), upto)) + (if upto
                > branch {
                1nat
            } else {
                0nat
            }) == rank(presence, upto),
{
    assert forall|other: u32| other < 32 implies #[trigger] occupied(
        presence ^ (1u32 << branch),
        other,
    ) == (other != branch && occupied(presence, other)) by {
        assert(occupied(presence ^ (1u32 << branch), other) == (other != branch && occupied(
            presence,
            other,
        ))) by (bit_vector)
            requires
                branch < 32,
                other < 32,
                occupied(presence, branch),
        ;
    }
    assert forall|upto: u32| upto <= 32 implies (#[trigger] rank(
        presence ^ (1u32 << branch),
        upto,
    )) + (if upto > branch {
        1nat
    } else {
        0nat
    }) == rank(presence, upto) by {
        lemma_clear_rank_upto(presence, branch, upto);
    }
}

/// In the empty bitmap every rank is 0.
proof fn lemma_empty_rank(upto: u32)
    requires
        upto <= 32,
    ensures
        rank(0, upto) == 0,
    decreases upto,
{
    if upto > 0 {
        let below = (upto - 1) as u32;
        lemma_empty_rank(below);
        assert(!occupied(0u32, below)) by (bit_vector)
            requires
                below < 32,
        ;
    }
}

/// The empty bitmap has no occupied branch.
pub proof fn lemma_empty_presence()
    ensures
        popcount(0) == 0,
        forall|branch: u32| branch < 32 ==> !#[trigger] occupied(0, branch),
{
    lemma_empty_rank(32);
    assert forall|branch: u32| branch < 32 implies !#[trigger] occupied(0, branch) by {
        assert(!occupied(0u32, branch)) by (bit_vector)
            requires
                branch < 32,
        ;
    }
}

/// A bitmap with an occupied branch is not the empty bitmap.
pub proof fn lemma_occupied_nonzero(presence: u32, branch: u32)
    requires
        branch < 32,
        occupied(presence, branch),
    ensures
        presence != 0,
{
    lemma_empty_presence();
}

/// A bitmap without an occupied branch below `upto` has no bit set below
/// `upto`.
proof fn lemma_low_bits_clear(presence: u32, upto: u32)
    requires
        upto <= 32,
        forall|branch: u32| branch < upto ==> !#[trigger] occupied(presence, branch),
    ensures
        upto < 32 ==> presence & (((1u32 << upto) - 1) as u32) == 0,
        upto == 32 ==> presence == 0,
    decreases upto,
{
    if upto == 0 {
        assert(presence & (((1u32 << 0u32) - 1) as u32) == 0) by (bit_vector);
    } else {
        let below = (upto - 1) as u32;
        lemma_low_bits_clear(presence, below);
        assert(!occupied(presence, below));
        if upto < 32 {
            assert(presence & (((1u32 << upto) - 1) as u32) == 0) by (bit_vector)
                requires
                    upto < 32,
                    below == upto - 1,
                    presence & (((1u32 << below) - 1) as u32) == 0,
                    (presence >> below) & 1 != 1,
            ;
        } else {
            assert(presence == 0) by (bit_vector)
                requires
                    below == 31,
                    presence & (((1u32 << below) - 1) as u32) == 0,
                    (presence >> below) & 1 != 1,
            ;
        }
    }
}

/// A bitmap that is not empty has an occupied branch.
pub proof fn lemma_nonzero_occupied(presence: u32) -> (branch: u32)
    requires
        presence != 0,
    ensures
        branch < 32,
        occupied(presence, branch),
{
    if forall|branch: u32| branch < 32 ==> !#[trigger] occupied(presence, branch) {
        lemma_low_bits_clear(presence, 32);
    }
    choose|branch: u32| branch < 32 && #[trigger] occupied(presence, branch)
}

/// A bitmap with one branch marked.
pub proof fn lemma_single_branch(branch: u32)
    requires
        branch < 32,
    ensures
        1u32 << branch != 0,
        popcount(1u32 << branch) == 1,
        rank(1u32 << branch, branch) == 0,
        forall|other: u32|
            other < 32 ==> #[trigger] occupied(1u32 << branch, other) == (other == branch),
{
    lemma_empty_presence();
    lemma_set_branch(0, branch);
    assert(0u32 | (1u32 << branch) == 1u32 << branch) by (bit_vector);
    lemma_empty_rank(branch);
}

/// A bitmap with two branches marked.
pub proof fn lemma_two_branches(low: u32, high: u32)
    requires
        low < high < 32,
    ensures
        (1u32 << low) | (1u32 << high) == (1u32 << high) | (1u32 << low),
        (1u32 << low) | (1u32 << high) != 0,
        popcount((1u32 << low) | (1u32 << high)) == 2,
        rank((1u32 << low) | (1u32 << high), low) == 0,
        rank((1u32 << low) | (1u32 << high), high) == 1,
        forall|other: u32|
            other < 32 ==> #[trigger] occupied((1u32 << low) | (1u32 << high), other) == (other
                == low || other == high),
{
    lemma_single_branch(low);
    lemma_set_branch(1u32 << low, high);
    lemma_rank_strict(1u32 << low, low, high);
    lemma_rank_monotonic(1u32 << low, high, 32);
    assert((1u32 << low) | (1u32 << high) == (1u32 << high) | (1u32 << low)) by (bit_vector);
}

/// Every slot of the dense array belongs to an occupied branch.
pub proof fn lemma_slot_branch(presence: u32, slot: nat) -> (branch: u32)
    requires
        slot < popcount(presence),
    ensures
        branch < 32,
        occupied(presence, branch),
        rank(presence, branch) == slot,
{
    lemma_slot_branch_below(presence, slot, 32)
}

/// Every slot below the rank of `upto` belongs to an occupied branch below
/// `upto`.
proof fn lemma_slot_branch_below(presence: u32, slot: nat, upto: u32) -> (branch: u32)
    requires
        upto <= 32,
        slot < rank(presence, upto),
    ensures
        branch < upto,
        occupied(presence, branch),
        rank(presence, branch) == slot,
    decreases upto,
{
    let below = (upto - 1) as u32;
    if slot < rank(presence, below) {
        lemma_slot_branch_below(presence, slot, below)
    } else {
        below
    }
}

/// A working hash always selects one of the 32 branches.
pub proof fn lemma_fragment_bound(working_hash: u64)
    ensures
        fragment(working_hash) < 32,
        fragment(working_hash) == (working_hash & MOST_SIG) >> 59,
{
    assert((working_hash & 0xF800_0000_0000_0000u64) >> 59 < 32) by (bit_vector);
}

/// Shifting level by level is shifting once by five bits per level.
pub proof fn lemma_level_hash(hash: u64, level: u32)
    requires
        level <= LAST_LEVEL,
    ensures
        level_hash(hash, level as nat) == hash << ((5 * level) as u32),
    decreases level,
{
    if level == 0 {
        assert(hash << 0u32 == hash) by (bit_vector);
    } else {
        let before = (level - 1) as u32;
        lemma_level_hash(hash, before);
        let by_before = (5 * before) as u32;
        let by_level = (5 * level) as u32;
        assert((hash << by_before) << 5 == hash << by_level) by (bit_vector)
            requires
                by_before <= 55,
                by_level == by_before + 5,
        ;
    }
}

/// The branch that a working hash selects.
pub fn most_significant(cur_hashed_key: u64) -> (branch: u32)
    ensures
        branch == fragment(cur_hashed_key),
        branch < 32,
{
    proof {
        lemma_fragment_bound(cur_hashed_key);
    }
    ((cur_hashed_key & MOST_SIG) >> 59) as u32
}

/// Whether a node with this presence map has an entry at `branch`.
pub fn key_present(presence_map: u32, branch: u32) -> (present: bool)
    requires
        branch < 32,
    ensures
        present == occupied(presence_map, branch),
{
    (presence_map >> branch) & 1 == 1
}

/// Given a presence map and a branch index between 0 and 31 (inclusive),
/// computes the location of that branch in the entries vector.
pub fn get_entries_index(presence_map: u32, index: u32) -> (slot: usize)
    requires
        index < 32,
    ensures
        slot == rank(presence_map, index),
        slot <= popcount(presence_map),
        slot <= 32,
{
    proof {
        lemma_rank_monotonic(presence_map, index, 32);
        lemma_rank_bound(presence_map, index);
    }
    if index == 0 {
        0
    } else {
        proof {
            lemma_mask_rank(presence_map, index);
        }
        (presence_map & ((1u32 << index) - 1)).count_ones() as usize
    }
}

} // verus!

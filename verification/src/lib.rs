//! A persistent map from hashable keys to values, implemented as a hash
//! array mapped trie and verified with Verus.
//!
//! A [`HAMT`] is immutable: `insert` and `remove` hand back a new map and
//! leave the old one as it is, and the two share every subtree that the
//! change did not touch. A key's 64-bit hash is read five bits at a time,
//! from the most significant end; each fragment selects one of the 32
//! branches of a node, and a presence bitmap lets a node store entries for
//! its occupied branches only. Keys whose hashes agree in all 64 bits are
//! kept in a chain.

pub mod bits;
pub mod chain;
pub mod height;
pub mod insert;
pub mod key;
pub mod laws;
pub mod map;
pub mod node;
pub mod remove;
pub mod update;

pub use key::HashKey;
pub use map::HAMT;

//! Keys: what a map needs of a key type, and the key types that come with
//! the library.

use std::collections::hash_map::DefaultHasher;
use std::hash::Hash;
use std::hash::Hasher;
use vstd::prelude::*;
use vstd::std_specs::hash::DefaultHasherAdditionalSpecFns;

verus! {

/// A key of a [`HAMT`](crate::HAMT): a value that can be hashed to 64 bits,
/// compared with another key, and copied.
///
/// A key stands for its *identity* (`id`): two keys are the same key exactly
/// when their identities are equal, and the hash of a key depends on its
/// identity alone. The maps of this library are maps from identities to
/// values.
///
/// `id` and `hash_of` are specification functions. An implementation outside
/// verified code gives them as the functions that they describe.
pub trait HashKey: Sized {
    /// The mathematical value that identifies a key.
    type Id;

    /// The identity of this key.
    spec fn id(&self) -> Self::Id;

    /// The hash of every key with identity `id`.
    spec fn hash_of(id: Self::Id) -> u64;

    /// Hashes the key. The result is the same for every key with the same
    /// identity, whenever and wherever it is computed.
    fn hash_key(&self) -> (hashed_key: u64)
        ensures
            hashed_key == Self::hash_of(self.id()),
    ;

    /// Whether `self` and `other` are the same key.
    fn same_key(&self, other: &Self) -> (same: bool)
        ensures
            same == (self.id() == other.id()),
    ;

    /// A copy of the key, with the same identity.
    fn clone_key(&self) -> (copy: Self)
        ensures
            copy.id() == self.id(),
    ;
}

/// What `<i32 as Hash>::hash` writes into a hasher for `key`.
pub uninterp spec fn i32_hash_input(key: i32) -> Seq<Seq<u8>>;

/// `<i32 as Hash>::hash` of the standard library, on the default hasher.
/// It feeds the integer into the hasher: what the hasher has absorbed grows
/// by writes that depend on the integer alone.
#[verifier::external_body]
fn feed_i32(key: &i32, state: &mut DefaultHasher)
    ensures
        final(state)@ == old(state)@ + i32_hash_input(*key),
{
    key.hash(state);
}

/// What `<u64 as Hash>::hash` writes into a hasher for `key`.
pub uninterp spec fn u64_hash_input(key: u64) -> Seq<Seq<u8>>;

/// `<u64 as Hash>::hash` of the standard library, on the default hasher.
/// It feeds the integer into the hasher: what the hasher has absorbed grows
/// by writes that depend on the integer alone.
#[verifier::external_body]
fn feed_u64(key: &u64, state: &mut DefaultHasher)
    ensures
        final(state)@ == old(state)@ + u64_hash_input(*key),
{
    key.hash(state);
}

/// What `<str as Hash>::hash` writes into a hasher for a string with the
/// characters `key`.
pub uninterp spec fn str_hash_input(key: Seq<char>) -> Seq<Seq<u8>>;

/// `<str as Hash>::hash` of the standard library, on the default hasher.
/// It feeds the string into the hasher: what the hasher has absorbed grows
/// by writes that depend on the string's characters alone.
#[verifier::external_body]
fn feed_str(key: &str, state: &mut DefaultHasher)
    ensures
        final(state)@ == old(state)@ + str_hash_input(key@),
{
    key.hash(state);
}

/// `<str as PartialEq>::eq` of the standard library: two strings are equal
/// when they hold the same characters.
#[verifier::external_body]
fn str_eq(left: &str, right: &str) -> (same: bool)
    ensures
        same == (left@ == right@),
{
    left == right
}

/// Keys of type `i32` are hashed with the standard library's default hasher.
impl HashKey for i32 {
    type Id = i32;

    open spec fn id(&self) -> i32 {
        *self
    }

    open spec fn hash_of(id: i32) -> u64 {
        DefaultHasher::spec_finish(i32_hash_input(id))
    }

    fn hash_key(&self) -> (hashed_key: u64) {
        let mut hasher = DefaultHasher::new();
        feed_i32(self, &mut hasher);
        assert(hasher@ =~= i32_hash_input(*self));
        hasher.finish()
    }

    fn same_key(&self, other: &Self) -> (same: bool) {
        *self == *other
    }

    fn clone_key(&self) -> (copy: Self) {
        *self
    }
}

/// Keys of type `u64` are hashed with the standard library's default hasher.
impl HashKey for u64 {
    type Id = u64;

    open spec fn id(&self) -> u64 {
        *self
    }

    open spec fn hash_of(id: u64) -> u64 {
        DefaultHasher::spec_finish(u64_hash_input(id))
    }

    fn hash_key(&self) -> (hashed_key: u64) {
        let mut hasher = DefaultHasher::new();
        feed_u64(self, &mut hasher);
        assert(hasher@ =~= u64_hash_input(*self));
        hasher.finish()
    }

    fn same_key(&self, other: &Self) -> (same: bool) {
        *self == *other
    }

    fn clone_key(&self) -> (copy: Self) {
        *self
    }
}

/// String slices are keys by their characters, hashed with the standard
/// library's default hasher.
impl<'a> HashKey for &'a str {
    type Id = Seq<char>;

    open spec fn id(&self) -> Seq<char> {
        self@
    }

    open spec fn hash_of(id: Seq<char>) -> u64 {
        DefaultHasher::spec_finish(str_hash_input(id))
    }

    fn hash_key(&self) -> (hashed_key: u64) {
        let mut hasher = DefaultHasher::new();
        feed_str(self, &mut hasher);
        assert(hasher@ =~= str_hash_input(self@));
        hasher.finish()
    }

    fn same_key(&self, other: &Self) -> (same: bool) {
        str_eq(self, other)
    }

    fn clone_key(&self) -> (copy: Self) {
        *self
    }
}

/// Strings are keys by their characters, and are hashed as the string
/// slices that they hold.
impl HashKey for String {
    type Id = Seq<char>;

    open spec fn id(&self) -> Seq<char> {
        self@
    }

    open spec fn hash_of(id: Seq<char>) -> u64 {
        DefaultHasher::spec_finish(str_hash_input(id))
    }

    fn hash_key(&self) -> (hashed_key: u64) {
        self.as_str().hash_key()
    }

    fn same_key(&self, other: &Self) -> (same: bool) {
        str_eq(self.as_str(), other.as_str())
    }

    fn clone_key(&self) -> (copy: Self) {
        self.clone()
    }
}

} // verus!

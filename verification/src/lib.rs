//! Radix sort and a path-compressed digit trie over a shared digit codec.
//!
//! Every supported type decomposes each value into a fixed schedule of small
//! positional digits (round 0 is least significant).  Sorting distributes
//! elements into buckets digit by digit; the trie stores one value per full
//! digit path.  A per-(round, bucket) reversal flag marks buckets whose raw
//! digit order is the opposite of the intended numeric order, so their
//! contents are emitted back to front.

use vstd::prelude::*;

// the digit-defined order and its laws
pub mod order;

// the sort engine and what its round schedule guarantees
pub mod sort;
pub mod sort_laws;

// the path-compressed digit trie
pub mod tree;

// the provided codecs
pub mod arrays;
pub mod boolean;
pub mod character;
pub mod floats;
pub mod signed_integer;
pub mod tuples;
pub mod unsigned_integer;

verus! {

/// A digit codec: how one value of a type is decomposed into a fixed
/// number of rounds of digits, each below a fixed bucket count.
///
/// Rounds are counted from `0` (least significant) up to, exclusively,
/// `cfg_nrounds()`.  A digit returned by `get_bucket` is always below
/// `cfg_nbuckets()`; `lemma_digit_in_range` obliges every implementation
/// to prove this, so a broken codec cannot be admitted.
pub trait Rdx: Sized {
    /// Number of buckets available in every round.
    spec fn nbuckets_spec() -> int;

    /// Number of digit rounds scheduled for this type.
    spec fn nrounds_spec() -> int;

    /// The digit of this value at the given round.
    spec fn digit_spec(self, round: int) -> int;

    /// Whether the bucket at the given round holds its contents in the
    /// order opposite to the intended numeric order.
    spec fn reverse_spec(round: int, bucket: int) -> bool;

    /// Which values the codec is defined on.  All values are supported for
    /// most types; float codecs exclude NaN and subnormal bit patterns.
    spec fn supported(self) -> bool;

    /// Bucket and round counts are never negative.
    proof fn lemma_config_nonneg()
        ensures
            0 <= Self::nbuckets_spec(),
            0 <= Self::nrounds_spec(),
    ;

    /// Every digit of a supported value lies in `[0, nbuckets)`.
    proof fn lemma_digit_in_range(self, round: int)
        requires
            self.supported(),
            0 <= round < Self::nrounds_spec(),
        ensures
            0 <= self.digit_spec(round) < Self::nbuckets_spec(),
    ;

    /// The full digit path determines the value: the codec never maps two
    /// distinct values to the same digits on every round.
    proof fn lemma_digits_injective(self, other: Self)
        requires
            forall|r: int|
                0 <= r < Self::nrounds_spec() ==> self.digit_spec(r) == other.digit_spec(r),
        ensures
            self == other,
    ;

    /// Number of buckets used by the generic sort and trie.
    fn cfg_nbuckets() -> (n: usize)
        ensures
            n as int == Self::nbuckets_spec(),
    ;

    /// Number of rounds scheduled by the generic sort and trie.  The round
    /// schedule of a composite type is the sum of its components', so it
    /// must fit the machine word to be usable at all.
    fn cfg_nrounds() -> (n: usize)
        requires
            Self::nrounds_spec() <= usize::MAX as int,
        ensures
            n as int == Self::nrounds_spec(),
    ;

    /// The bucket this value falls into at the given round.
    fn get_bucket(&self, round: usize) -> (b: usize)
        requires
            (*self).supported(),
            (round as int) < Self::nrounds_spec(),
            Self::nrounds_spec() <= usize::MAX as int,
        ensures
            b as int == (*self).digit_spec(round as int),
    ;

    /// Whether the contents of `bucket` must be copied back in reverse
    /// order after `round`.
    fn reverse(round: usize, bucket: usize) -> (r: bool)
        requires
            (round as int) < Self::nrounds_spec(),
            Self::nrounds_spec() <= usize::MAX as int,
        ensures
            r == Self::reverse_spec(round as int, bucket as int),
    ;
}

} // verus!

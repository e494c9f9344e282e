//! What the trees are built over: field elements, digests and hashers.
//!
//! The traits are for the users of the library to implement. Each method is a function of its
//! arguments; a spec function beside it, `spec_` and the method's name, stands for that function
//! in contracts. What the spec function is, is left open here and for an implementation to say.

use vstd::pervasive::arbitrary;
use vstd::prelude::*;

verus! {

/// The hash functions.
#[derive(Clone, Copy, PartialEq, Eq, Debug, Structural)]
pub enum HasherType {
    Poseidon,
    Keccak,
    PoseidonBN128,
}

/// An element of a field whose elements fit into 64 bits.
pub trait RichField: Copy + Send + Sync {
    closed spec fn spec_from_canonical_u64(n: u64) -> Self {
        arbitrary()
    }

    closed spec fn spec_to_canonical_u64(&self) -> u64 {
        arbitrary()
    }

    /// The element that `n` stands for.
    fn from_canonical_u64(n: u64) -> (element: Self)
        ensures
            element == Self::spec_from_canonical_u64(n),
    ;

    /// The number that stands for the element.
    fn to_canonical_u64(&self) -> (n: u64)
        ensures
            n == self.spec_to_canonical_u64(),
    ;
}

/// A digest.
pub trait GenericHashOut<F: RichField>: Copy + Send + Sync {
    closed spec fn spec_to_vec(&self) -> Seq<F> {
        arbitrary()
    }

    closed spec fn spec_from_bytes(bytes: Seq<u8>) -> Self {
        arbitrary()
    }

    /// The digest as field elements.
    fn to_vec(&self) -> (elements: Vec<F>)
        ensures
            elements@ == self.spec_to_vec(),
    ;

    /// The digest that `bytes` stand for.
    fn from_bytes(bytes: &[u8]) -> (digest: Self)
        ensures
            digest == Self::spec_from_bytes(bytes@),
    ;

    /// Whether the two digests are equal.
    fn is_same(&self, other: &Self) -> (same: bool)
        ensures
            same == (*self == *other),
    ;
}

/// A hash function.
pub trait Hasher<F: RichField>: Sized {
    /// The number of bytes of a digest.
    const HASH_SIZE: usize;

    /// Which hash function it is.
    const HASHER_TYPE: HasherType;

    /// The digests.
    type Hash: GenericHashOut<F>;

    closed spec fn spec_hash_or_noop(inputs: Seq<F>) -> Self::Hash {
        arbitrary()
    }

    closed spec fn spec_two_to_one(left: Self::Hash, right: Self::Hash) -> Self::Hash {
        arbitrary()
    }

    /// The digest of the elements of a leaf.
    fn hash_or_noop(inputs: &[F]) -> (digest: Self::Hash)
        ensures
            digest == Self::spec_hash_or_noop(inputs@),
    ;

    /// The digest of a node, from those of its two children.
    fn two_to_one(left: Self::Hash, right: Self::Hash) -> (digest: Self::Hash)
        ensures
            digest == Self::spec_two_to_one(left, right),
    ;
}

} // verus!

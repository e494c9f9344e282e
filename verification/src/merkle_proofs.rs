//! Proofs that a leaf belongs to a tree, and their verification against a cap.

use crate::config::{GenericHashOut, Hasher, RichField};
use crate::layout::{lemma_subtree_within, subtree};
use crate::merkle_tree::{MerkleCap, MerkleTree};
use crate::update::{lemma_place, lemma_sized};
use crate::util::lemma_pow2_zero;
use vstd::arithmetic::div_mod::lemma_div_denominator;
use vstd::arithmetic::power2::{is_pow2, lemma_pow2_pos, lemma_pow2_unfold, pow2};
use vstd::prelude::*;

verus! {

/// The siblings of the nodes on the way from a leaf up to the cap, from the leaf on.
#[derive(Clone, Debug, Eq, PartialEq)]
pub struct MerkleProof<F: RichField, H: Hasher<F>> {
    pub siblings: Vec<H::Hash>,
}

/// Why a proof is refused.
#[derive(Clone, Copy, Debug, Eq, PartialEq)]
pub enum MerkleProofError {
    /// The proof does not lead from the leaf to its entry of the cap.
    InvalidMerkleProof,
}

/// The siblings of leaf `r` of a subtree of `width` leaves and of the nodes above it, from the
/// leaf on, given the digests `nodes` of the subtree: those within the half that holds the leaf,
/// and then the root of the other half.
pub open spec fn path<T>(nodes: Seq<T>, width: int, r: int) -> Seq<T>
    decreases width,
{
    if width <= 1 {
        Seq::empty()
    } else if r < width / 2 {
        path(nodes.take(width - 2), width / 2, r).push(nodes[width - 1])
    } else {
        path(nodes.skip(width), width / 2, r - width / 2).push(nodes[width - 2])
    }
}

/// Where the siblings lead from a node with the digest `digest` that is number `index` on its
/// level.
pub open spec fn path_root<F: RichField, H: Hasher<F>>(
    digest: H::Hash,
    index: int,
    siblings: Seq<H::Hash>,
) -> H::Hash
    decreases siblings.len(),
{
    if siblings.len() == 0 {
        digest
    } else {
        let parent = if index % 2 == 1 {
            H::spec_two_to_one(siblings[0], digest)
        } else {
            H::spec_two_to_one(digest, siblings[0])
        };
        path_root::<F, H>(parent, index / 2, siblings.drop_first())
    }
}

/// Checks that `proof` leads from leaf `leaf_index`, which holds `leaf_data`, to its entry of
/// `merkle_cap`.
pub fn verify_merkle_proof_to_cap<F: RichField, H: Hasher<F>>(
    leaf_data: Vec<F>,
    leaf_index: usize,
    merkle_cap: &MerkleCap<F, H>,
    proof: &MerkleProof<F, H>,
) -> (result: Result<(), MerkleProofError>)
    requires
        leaf_index as nat / pow2(proof.siblings@.len()) < merkle_cap.0@.len(),
    ensures
        result == if path_root::<F, H>(
            H::spec_hash_or_noop(leaf_data@),
            leaf_index as int,
            proof.siblings@,
        ) == merkle_cap.0@[(leaf_index as nat / pow2(proof.siblings@.len())) as int] {
            Ok::<(), MerkleProofError>(())
        } else {
            Err::<(), MerkleProofError>(MerkleProofError::InvalidMerkleProof)
        },
{
    let mut index: usize = leaf_index;
    let mut current_digest: H::Hash = H::hash_or_noop(leaf_data.as_slice());
    let ghost siblings = proof.siblings@;
    let ghost goal = path_root::<F, H>(current_digest, leaf_index as int, siblings);
    let mut i: usize = 0;
    proof {
        lemma_pow2_zero();
        assert(siblings.skip(0) =~= siblings);
    }
    while i < proof.siblings.len()
        invariant
            siblings == proof.siblings@,
            i <= siblings.len(),
            index as int == leaf_index as int / pow2(i as nat) as int,
            path_root::<F, H>(current_digest, index as int, siblings.skip(i as int)) == goal,
        decreases siblings.len() - i,
    {
        let sibling_digest: H::Hash = proof.siblings[i];
        let bit: usize = index % 2;
        proof {
            lemma_pow2_pos(i as nat);
            lemma_pow2_unfold((i + 1) as nat);
            lemma_div_denominator(leaf_index as int, pow2(i as nat) as int, 2);
            assert(pow2(i as nat) * 2 == pow2((i + 1) as nat));
            assert(siblings.skip(i as int).drop_first() =~= siblings.skip(i + 1));
        }
        index = index / 2;
        current_digest = if bit == 1 {
            H::two_to_one(sibling_digest, current_digest)
        } else {
            H::two_to_one(current_digest, sibling_digest)
        };
        i = i + 1;
    }
    if current_digest.is_same(&merkle_cap.0[index]) {
        Ok(())
    } else {
        Err(MerkleProofError::InvalidMerkleProof)
    }
}

/// Appends the siblings of leaf `r` and of the nodes above it in a subtree of `width` leaves,
/// whose digests stand in `digests` from `offset` on.
fn collect_siblings<T: Copy>(
    digests: &Vec<T>,
    offset: usize,
    width: usize,
    r: usize,
    siblings: &mut Vec<T>,
)
    requires
        is_pow2(width as int),
        r < width,
        offset + 2 * width - 2 <= digests@.len(),
    ensures
        final(siblings)@ == old(siblings)@ + path(
            digests@.subrange(offset as int, offset + 2 * width - 2),
            width as int,
            r as int,
        ),
    decreases width,
{
    let ghost before = siblings@;
    let ghost nodes = digests@.subrange(offset as int, offset + 2 * width - 2);
    proof {
        reveal(is_pow2);
        assert(digests@.len() == digests.len());
    }
    if width > 1 {
        let half: usize = width / 2;
        if r < half {
            proof {
                assert(nodes.take(width - 2) =~= digests@.subrange(
                    offset as int,
                    offset + 2 * half - 2,
                ));
            }
            collect_siblings(digests, offset, half, r, siblings);
            siblings.push(digests[offset + (width - 1)]);
        } else {
            proof {
                assert(nodes.skip(width as int) =~= digests@.subrange(
                    offset + width,
                    offset + width + 2 * half - 2,
                ));
            }
            collect_siblings(digests, offset + width, half, r - half, siblings);
            siblings.push(digests[offset + (width - 2)]);
        }
    }
    proof {
        assert(siblings@ =~= before + path(nodes, width as int, r as int));
    }
}

impl<F: RichField, H: Hasher<F>> MerkleTree<F, H> {
    /// Create a Merkle proof from a leaf index.
    ///
    /// In a tree that is all cap every index has the same proof, without siblings.
    pub fn prove(&self, leaf_index: usize) -> (proof: MerkleProof<F, H>)
        requires
            self.sized(),
            self.width() == 1 || leaf_index < self.leaves_count(),
        ensures
            proof.siblings@ == path(
                subtree(self.digests@, self.width(), leaf_index as int / self.width()),
                self.width(),
                leaf_index as int % self.width(),
            ),
    {
        let ghost caps = self.cap.0@.len() as int;
        proof {
            lemma_sized(*self);
        }
        let subtree_leaves: usize = self.get_leaves_count() / self.cap.len();
        let mut siblings: Vec<H::Hash> = Vec::new();
        if subtree_leaves == 1 {
            return MerkleProof { siblings };
        }
        let subtree_idx: usize = leaf_index / subtree_leaves;
        proof {
            lemma_place(caps, self.width(), leaf_index as int);
            lemma_subtree_within(caps, self.width(), subtree_idx as int);
            assert(self.digests@.len() == self.digests.len());
        }
        let subtree_digest_size: usize = self.digests.len() / self.cap.len();
        collect_siblings(
            &self.digests,
            subtree_idx * subtree_digest_size,
            subtree_leaves,
            leaf_index % subtree_leaves,
            &mut siblings,
        );
        assert(siblings@ =~= path(
            subtree(self.digests@, self.width(), leaf_index as int / self.width()),
            self.width(),
            leaf_index as int % self.width(),
        ));
        MerkleProof { siblings }
    }
}

} // verus!

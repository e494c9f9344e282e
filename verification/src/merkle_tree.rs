//! Merkle trees over leaves of field elements, topped by a cap in place of a single root.

use crate::config::{GenericHashOut, Hasher, RichField};
use crate::fill::{fill_digests_buf_meta, leaf_slice, lemma_leaf_fits};
use crate::laws::law_what_can_be_built;
use crate::layout::{
    buildable, hashed, leaf_at, lemma_buildable, padded_rows, rehashed, row_digests, with_rows,
};
use crate::util::{is_power_of_two, lemma_pow2_ordered, log2_strict, shl_one};
use vstd::arithmetic::power2::{is_pow2, pow2};
use vstd::prelude::*;
use vstd::slice::slice_to_vec;

verus! {

/// The Merkle cap of height `h` of a Merkle tree is the `h`-th layer (from the root) of the
/// tree. It can be used in place of the root to verify Merkle paths, which are `h` elements
/// shorter.
#[derive(Clone, Debug, Eq, PartialEq)]
pub struct MerkleCap<F: RichField, H: Hasher<F>>(pub Vec<H::Hash>);

impl<F: RichField, H: Hasher<F>> Default for MerkleCap<F, H> {
    /// A cap without entries.
    fn default() -> (cap: Self)
        ensures
            cap.0@ == Seq::<H::Hash>::empty(),
    {
        MerkleCap(Vec::new())
    }
}

impl<F: RichField, H: Hasher<F>> MerkleCap<F, H> {
    /// The number of entries.
    pub fn len(&self) -> (n: usize)
        ensures
            n == self.0@.len(),
    {
        self.0.len()
    }

    /// Whether there are no entries.
    pub fn is_empty(&self) -> (empty: bool)
        ensures
            empty == (self.0@.len() == 0),
    {
        self.len() == 0
    }

    /// The layer of the tree, counted from the root, that the cap is.
    pub fn height(&self) -> (h: usize)
        requires
            is_pow2(self.0@.len() as int),
        ensures
            pow2(h as nat) == self.0@.len(),
    {
        log2_strict(self.len())
    }

    /// The field elements of all entries, one entry after the other.
    pub fn flatten(&self) -> (elements: Vec<F>)
        ensures
            elements@ == self.0@.map_values(|h: H::Hash| h.spec_to_vec()).flatten(),
    {
        let mut elements: Vec<F> = Vec::new();
        let ghost parts = self.0@.map_values(|h: H::Hash| h.spec_to_vec());
        let mut i: usize = 0;
        assert(parts.take(0) =~= Seq::<Seq<F>>::empty());
        while i < self.0.len()
            invariant
                i <= self.0@.len(),
                parts == self.0@.map_values(|h: H::Hash| h.spec_to_vec()),
                elements@ == parts.take(i as int).flatten(),
            decreases self.0@.len() - i,
        {
            let mut part: Vec<F> = self.0[i].to_vec();
            proof {
                assert(parts.take(i + 1) =~= parts.take(i as int).push(parts[i as int]));
                parts.take(i as int).lemma_flatten_push(parts[i as int]);
            }
            elements.append(&mut part);
            i = i + 1;
        }
        assert(parts.take(i as int) =~= parts);
        elements
    }
}

/// A Merkle tree.
#[derive(Clone, Debug, Eq, PartialEq)]
pub struct MerkleTree<F: RichField, H: Hasher<F>> {
    /// The data in the leaves of the Merkle tree, one leaf after the other.
    pub leaves: Vec<F>,
    /// The number of elements of a leaf.
    pub leaf_size: usize,
    /// The digests in the tree. Consists of `cap.len()` sub-trees, each corresponding to one
    /// element in `cap`. Each subtree is contiguous and located at
    /// `digests[digests.len() / cap.len() * i..digests.len() / cap.len() * (i + 1)]`.
    /// Within each subtree, siblings are stored next to each other. The layout is,
    /// left_child_subtree || left_child_digest || right_child_digest || right_child_subtree, where
    /// left_child_digest and right_child_digest are H::Hash and left_child_subtree and
    /// right_child_subtree recurse. Observe that the digest of a node is stored by its _parent_.
    /// Consequently, the digests of the roots are not stored here (they can be found in `cap`).
    pub digests: Vec<H::Hash>,
    /// The Merkle cap.
    pub cap: MerkleCap<F, H>,
}

impl<F: RichField, H: Hasher<F>> Default for MerkleTree<F, H> {
    /// A tree without leaves.
    fn default() -> (tree: Self)
        ensures
            tree.leaf_size == 0,
            tree.leaves@ == Seq::<F>::empty(),
            tree.digests@ == Seq::<H::Hash>::empty(),
            tree.cap.0@ == Seq::<H::Hash>::empty(),
    {
        MerkleTree {
            leaf_size: 0,
            leaves: Vec::new(),
            digests: Vec::new(),
            cap: MerkleCap::default(),
        }
    }
}

impl<F: RichField, H: Hasher<F>> MerkleTree<F, H> {
    /// The number of whole leaves.
    pub open spec fn leaves_count(&self) -> int {
        self.leaves@.len() as int / self.leaf_size as int
    }

    /// The number of leaves under one entry of the cap.
    pub open spec fn width(&self) -> int {
        self.leaves_count() / self.cap.0@.len() as int
    }

    /// The number of leaves, of digests and of entries of the cap go together.
    pub open spec fn sized(&self) -> bool {
        &&& self.leaf_size > 0
        &&& is_pow2(self.leaves_count())
        &&& is_pow2(self.cap.0@.len() as int)
        &&& self.cap.0@.len() <= self.leaves_count()
        &&& self.digests@.len() == 2 * (self.leaves_count() - self.cap.0@.len())
    }

    /// The digests and the cap are the hashes of the leaves.
    pub open spec fn hashed(&self) -> bool {
        hashed::<F, H>(
            self.leaves@,
            self.leaf_size as int,
            self.digests@,
            self.cap.0@,
            self.width(),
        )
    }

    /// The tree is `before` with `rows` in place of the leaves from `start` on: the leaves hold
    /// the first `leaf_size` elements of each row, what lies above them has been hashed anew
    /// from the digests of the rows, and everything else is as it was.
    pub open spec fn follows(&self, before: &Self, start: int, rows: Seq<Seq<F>>) -> bool {
        &&& self.leaf_size == before.leaf_size
        &&& self.leaves@ == with_rows(before.leaves@, before.leaf_size as int, start, rows)
        &&& rehashed::<F, H>(
            before.digests@,
            before.cap.0@,
            self.digests@,
            self.cap.0@,
            before.width(),
            start,
            row_digests::<F, H>(rows),
        )
    }

    /// Whether a tree can be built over `len` elements in leaves of `leaf_size` with a cap of
    /// height `cap_height`.
    pub fn can_build(len: usize, leaf_size: usize, cap_height: usize) -> (b: bool)
        ensures
            b == buildable(len as int, leaf_size as int, cap_height as int),
            b == (leaf_size > 0 && exists|k: nat|
                len as int / leaf_size as int == #[trigger] pow2(k) && cap_height <= k),
    {
        proof {
            law_what_can_be_built(len as int, leaf_size as int, cap_height as int);
        }
        if leaf_size == 0 {
            return false;
        }
        let leaves_len: usize = len / leaf_size;
        if !is_power_of_two(leaves_len) {
            return false;
        }
        let log2_leaves_len: usize = log2_strict(leaves_len);
        proof {
            lemma_pow2_ordered(cap_height as nat, log2_leaves_len as nat);
        }
        cap_height <= log2_leaves_len
    }

    /// Builds the tree over leaves that lie one after the other.
    ///
    /// Elements behind the last whole leaf are kept, but not hashed.
    pub fn new_from_1d(leaves_1d: Vec<F>, leaf_size: usize, cap_height: usize) -> (tree: Self)
        requires
            buildable(leaves_1d@.len() as int, leaf_size as int, cap_height as int),
        ensures
            tree.leaves@ == leaves_1d@,
            tree.leaf_size == leaf_size,
            tree.cap.0@.len() == pow2(cap_height as nat),
            tree.sized(),
            tree.hashed(),
    {
        let leaves_len: usize = leaves_1d.len() / leaf_size;
        proof {
            lemma_buildable(leaves_1d.len(), leaf_size, cap_height);
        }
        let len_cap: usize = shl_one(cap_height);
        let num_digests: usize = 2 * (leaves_len - len_cap);
        let (digests, cap) = fill_digests_buf_meta::<F, H>(
            num_digests,
            len_cap,
            &leaves_1d,
            leaf_size,
            cap_height,
        );
        MerkleTree { leaves: leaves_1d, leaf_size, digests, cap: MerkleCap(cap) }
    }

    /// The elements of leaves given row by row, one leaf after the other. An empty row stands
    /// for a leaf of zeros, as many as the first row has elements.
    pub fn leaves_from_2d(leaves_2d: &Vec<Vec<F>>) -> (leaves_1d: Vec<F>)
        requires
            leaves_2d@.len() > 0,
        ensures
            leaves_1d@ == padded_rows(leaves_2d@).flatten(),
    {
        let leaf_size: usize = leaves_2d[0].len();
        let leaves_count: usize = leaves_2d.len();
        let ghost rows = padded_rows(leaves_2d@);
        let mut zeros: Vec<F> = Vec::with_capacity(leaf_size);
        while zeros.len() < leaf_size
            invariant
                zeros@.len() <= leaf_size,
                forall|j: int|
                    0 <= j < zeros@.len() ==> zeros@[j] == F::spec_from_canonical_u64(0),
            decreases leaf_size - zeros@.len(),
        {
            zeros.push(F::from_canonical_u64(0));
        }
        let mut leaves_1d: Vec<F> = Vec::new();
        let mut idx: usize = 0;
        assert(rows.take(0) =~= Seq::<Seq<F>>::empty());
        while idx < leaves_count
            invariant
                idx <= leaves_count,
                leaves_count == leaves_2d@.len(),
                leaf_size == leaves_2d@[0]@.len(),
                rows == padded_rows(leaves_2d@),
                zeros@ =~= Seq::new(leaf_size as nat, |j: int| F::spec_from_canonical_u64(0)),
                leaves_1d@ == rows.take(idx as int).flatten(),
            decreases leaves_count - idx,
        {
            let mut row: Vec<F> = if leaves_2d[idx].len() == 0 {
                slice_to_vec(zeros.as_slice())
            } else {
                slice_to_vec(leaves_2d[idx].as_slice())
            };
            proof {
                assert(row@ == rows[idx as int]);
                assert(rows.take(idx + 1) =~= rows.take(idx as int).push(rows[idx as int]));
                rows.take(idx as int).lemma_flatten_push(rows[idx as int]);
            }
            leaves_1d.append(&mut row);
            idx = idx + 1;
        }
        assert(rows.take(idx as int) =~= rows);
        leaves_1d
    }

    /// Builds the tree over leaves given row by row. The first row fixes the number of elements
    /// of a leaf; an empty row stands for a leaf of zeros.
    pub fn new_from_2d(leaves_2d: Vec<Vec<F>>, cap_height: usize) -> (tree: Self)
        requires
            leaves_2d@.len() > 0,
            buildable(
                padded_rows(leaves_2d@).flatten().len() as int,
                leaves_2d@[0]@.len() as int,
                cap_height as int,
            ),
        ensures
            tree.leaves@ == padded_rows(leaves_2d@).flatten(),
            tree.leaf_size == leaves_2d@[0]@.len(),
            tree.cap.0@.len() == pow2(cap_height as nat),
            tree.sized(),
            tree.hashed(),
    {
        let leaf_size: usize = leaves_2d[0].len();
        let leaves_1d: Vec<F> = Self::leaves_from_2d(&leaves_2d);
        Self::new_from_1d(leaves_1d, leaf_size, cap_height)
    }

    /// Puts a tree together from its parts, as they are.
    pub fn new_from_fields(
        leaves_1d: Vec<F>,
        leaf_size: usize,
        digests: Vec<H::Hash>,
        cap: MerkleCap<F, H>,
    ) -> (tree: Self)
        ensures
            tree.leaves == leaves_1d,
            tree.leaf_size == leaf_size,
            tree.digests == digests,
            tree.cap == cap,
    {
        MerkleTree { leaves: leaves_1d, leaf_size, digests, cap }
    }

    /// The elements of leaf `i`.
    pub fn get(&self, i: usize) -> (leaf: &[F])
        requires
            (i + 1) * self.leaf_size <= self.leaves@.len(),
        ensures
            leaf@ == leaf_at(self.leaves@, self.leaf_size as int, i as int),
    {
        leaf_slice(self.leaves.as_slice(), self.leaf_size, i)
    }

    /// All elements, one leaf after the other.
    pub fn get_leaves_1d(&self) -> (leaves: Vec<F>)
        ensures
            leaves@ == self.leaves@,
    {
        slice_to_vec(self.leaves.as_slice())
    }

    /// The whole leaves, row by row.
    pub fn get_leaves_2d(&self) -> (rows: Vec<Vec<F>>)
        requires
            self.leaf_size > 0,
        ensures
            rows@.len() == self.leaves_count(),
            forall|i: int|
                0 <= i < rows@.len() ==> (#[trigger] rows@[i])@ == leaf_at(
                    self.leaves@,
                    self.leaf_size as int,
                    i,
                ),
    {
        let leaves_count: usize = self.get_leaves_count();
        let mut rows: Vec<Vec<F>> = Vec::with_capacity(leaves_count);
        let mut i: usize = 0;
        while i < leaves_count
            invariant
                self.leaf_size > 0,
                i <= leaves_count,
                leaves_count == self.leaves_count(),
                rows@.len() == i,
                forall|j: int|
                    0 <= j < i ==> (#[trigger] rows@[j])@ == leaf_at(
                        self.leaves@,
                        self.leaf_size as int,
                        j,
                    ),
            decreases leaves_count - i,
        {
            proof {
                lemma_leaf_fits(self.leaves@.len() as int, self.leaf_size as int, i as int);
            }
            rows.push(slice_to_vec(self.get(i)));
            i = i + 1;
        }
        rows
    }

    /// The number of whole leaves.
    pub fn get_leaves_count(&self) -> (n: usize)
        requires
            self.leaf_size > 0,
        ensures
            n == self.leaves_count(),
    {
        self.leaves.len() / self.leaf_size
    }
}

} // verus!

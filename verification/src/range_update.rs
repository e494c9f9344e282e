//! Changing a range of leaves of a tree.

use crate::config::{Hasher, RichField};
use crate::laws::law_changes_keep_hashes;
use crate::layout::{row_digests, with_rows};
use crate::merkle_tree::MerkleTree;
use crate::par::par_map;
use crate::update::{lemma_sized, rehash, write_leaf};
use vstd::prelude::*;

verus! {

/// The digests of `rows`, each hashed as one leaf.
fn hash_rows<F: RichField, H: Hasher<F>>(rows: &Vec<Vec<F>>) -> (digests: Vec<H::Hash>)
    ensures
        digests@ == row_digests::<F, H>(rows@.map_values(|row: Vec<F>| row@)),
{
    let hash_row = |j: usize| -> (digest: H::Hash)
        requires
            j < rows@.len(),
        ensures
            digest == H::spec_hash_or_noop(rows@[j as int]@),
        { H::hash_or_noop(rows[j].as_slice()) };
    let digests: Vec<H::Hash> = par_map(rows.len(), hash_row);
    proof {
        assert forall|j: int| #![trigger digests@[j]] 0 <= j < rows@.len() implies digests@[j]
            == H::spec_hash_or_noop(rows@[j]@) by {
            assert(digests@[j as usize as int] == digests@[j]);
        }
        assert(digests@ =~= row_digests::<F, H>(rows@.map_values(|row: Vec<F>| row@)));
    }
    digests
}

/// One more row.
pub(crate) proof fn lemma_with_rows_push<F>(
    leaves: Seq<F>,
    leaf_size: int,
    start: int,
    rows: Seq<Seq<F>>,
    i: int,
)
    requires
        leaf_size > 0,
        0 <= start,
        0 <= i < rows.len(),
    ensures
        with_rows(
            with_rows(leaves, leaf_size, start, rows.take(i)),
            leaf_size,
            start + i,
            seq![rows[i]],
        ) == with_rows(leaves, leaf_size, start, rows.take(i + 1)),
{
    assert(with_rows(
        with_rows(leaves, leaf_size, start, rows.take(i)),
        leaf_size,
        start + i,
        seq![rows[i]],
    ) =~= with_rows(leaves, leaf_size, start, rows.take(i + 1)));
}

impl<F: RichField, H: Hasher<F>> MerkleTree<F, H> {
    /// Replaces the leaves from `start_index` up to but not including `end_index` and hashes
    /// anew what lies above them. The last leaf of the tree cannot be among them.
    ///
    /// Of a row that is longer than a leaf, the tree keeps as much as fits into the leaf, while
    /// the leaf's digest is that of the whole row.
    pub fn change_leaves_in_range_and_update(
        &mut self,
        new_leaves: Vec<Vec<F>>,
        start_index: usize,
        end_index: usize,
    )
        requires
            old(self).sized(),
            start_index < end_index < old(self).leaves_count(),
            new_leaves@.len() == end_index - start_index,
            new_leaves@[0]@.len() == old(self).leaf_size,
            forall|j: int|
                0 <= j < new_leaves@.len() ==> (#[trigger] new_leaves@[j])@.len()
                    >= old(self).leaf_size,
        ensures
            final(self).follows(
                old(self),
                start_index as int,
                new_leaves@.map_values(|row: Vec<F>| row@),
            ),
            final(self).sized(),
            old(self).hashed() && (forall|j: int|
                0 <= j < new_leaves@.len() ==> (#[trigger] new_leaves@[j])@.len() == old(
                    self,
                ).leaf_size) ==> final(self).hashed(),
    {
        let tree_leaves_count: usize = self.leaves.len() / self.leaf_size;
        let ghost before = *self;
        let ghost start = start_index as int;
        let ghost rows = new_leaves@.map_values(|row: Vec<F>| row@);
        proof {
            lemma_sized(*self);
            assert(with_rows(self.leaves@, self.leaf_size as int, start, rows.take(0))
                =~= self.leaves@);
        }
        let mut i: usize = 0;
        while i < new_leaves.len()
            invariant
                i <= new_leaves@.len(),
                rows == new_leaves@.map_values(|row: Vec<F>| row@),
                start == start_index,
                start_index + new_leaves@.len() < tree_leaves_count,
                tree_leaves_count == before.leaves@.len() as int / before.leaf_size as int,
                before.leaf_size > 0,
                forall|j: int|
                    0 <= j < new_leaves@.len() ==> (#[trigger] new_leaves@[j])@.len()
                        >= before.leaf_size,
                self.leaf_size == before.leaf_size,
                self.digests == before.digests,
                self.cap == before.cap,
                self.leaves@ == with_rows(
                    before.leaves@,
                    before.leaf_size as int,
                    start,
                    rows.take(i as int),
                ),
            decreases new_leaves@.len() - i,
        {
            write_leaf(&mut self.leaves, self.leaf_size, start_index + i, &new_leaves[i]);
            proof {
                lemma_with_rows_push(
                    before.leaves@,
                    before.leaf_size as int,
                    start,
                    rows,
                    i as int,
                );
            }
            i = i + 1;
        }
        assert(rows.take(i as int) =~= rows);
        let subtree_leaves_len: usize = tree_leaves_count / self.cap.len();
        let new_digests: Vec<H::Hash> = hash_rows::<F, H>(&new_leaves);
        rehash::<F, H>(
            &mut self.digests,
            &mut self.cap.0,
            subtree_leaves_len,
            start_index,
            &new_digests,
        );
        proof {
            if before.hashed() && (forall|j: int|
                0 <= j < new_leaves@.len() ==> (#[trigger] new_leaves@[j])@.len()
                    == before.leaf_size) {
                assert forall|j: int| 0 <= j < rows.len() implies (#[trigger] rows[j]).len()
                    == before.leaf_size by {
                    assert(new_leaves@[j]@.len() == before.leaf_size);
                }
                law_changes_keep_hashes::<F, H>(
                    before.leaves@,
                    before.leaf_size as int,
                    before.digests@,
                    before.cap.0@,
                    self.digests@,
                    self.cap.0@,
                    before.width(),
                    start,
                    rows,
                );
            }
        }
    }
}

} // verus!

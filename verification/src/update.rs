//! Changing leaves of a tree, and the digests above them.

use crate::config::{Hasher, RichField};
use crate::fill::lemma_leaf_fits;
use crate::laws::law_changes_keep_hashes;
use crate::layout::{
    fresh, fresh_root, lemma_fresh_halves, lemma_none_fresh, lemma_rehashed_len,
    lemma_subtree_within, none_fresh, rehashed, rehashed_nodes, rehashed_root, row_digests,
    subtree, subtree_rehashed, with_rows,
};
use crate::merkle_tree::MerkleTree;
use crate::util::{
    lemma_doubles, lemma_exponent, lemma_pow2_is_pow2, lemma_pow2_ordered, lemma_pow2_split,
};
use vstd::arithmetic::div_mod::{lemma_fundamental_div_mod, lemma_fundamental_div_mod_converse};
use vstd::arithmetic::power2::is_pow2;
use vstd::prelude::*;

verus! {

/// The sizes of a tree.
pub(crate) proof fn lemma_sized<F: RichField, H: Hasher<F>>(tree: MerkleTree<F, H>)
    requires
        tree.sized(),
    ensures
        1 <= tree.width() <= tree.leaves_count(),
        is_pow2(tree.width()),
        tree.cap.0@.len() > 0,
        tree.cap.0@.len() * tree.width() == tree.leaves_count(),
        tree.digests@.len() == tree.cap.0@.len() * (2 * tree.width() - 2),
        tree.leaves_count() * tree.leaf_size <= tree.leaves@.len(),
        tree.leaves_count() <= usize::MAX,
        tree.width() == 1 <==> tree.digests@.len() == 0,
        tree.digests@.len() as int / tree.cap.0@.len() as int == 2 * tree.width() - 2,
{
    let count = tree.leaves_count();
    let caps = tree.cap.0@.len() as int;
    let len = tree.leaves@.len() as int;
    let leaf_size = tree.leaf_size as int;
    assert(len == tree.leaves.len());
    lemma_fundamental_div_mod(len, leaf_size);
    assert(count * leaf_size <= len && count <= len) by (nonlinear_arith)
        requires
            leaf_size >= 1,
            count >= 0,
            leaf_size * count <= len,
    ;
    let k = lemma_exponent(count);
    let h = lemma_exponent(caps);
    lemma_pow2_ordered(h, k);
    lemma_pow2_split(k, h);
    lemma_pow2_is_pow2((k - h) as nat);
    lemma_pow2_ordered((k - h) as nat, k);
    let width = tree.width();
    assert(caps * (2 * width - 2) == 2 * (count - caps)) by (nonlinear_arith)
        requires
            caps * width == count,
    ;
    lemma_fundamental_div_mod_converse(
        tree.digests@.len() as int,
        caps,
        2 * width - 2,
        0,
    );
    if width > 1 {
        assert(caps * (2 * width - 2) > 0) by (nonlinear_arith)
            requires
                caps > 0,
                width > 1,
        ;
    }
}

/// Leaf `i` is leaf `i % width` of subtree `i / width`, and of no other.
pub(crate) proof fn lemma_place(caps: int, width: int, i: int)
    requires
        width >= 1,
        0 <= i < caps * width,
    ensures
        0 <= i / width < caps,
        0 <= i % width < width,
        (i / width) * width + i % width == i,
        forall|s: int, r: int| #![trigger s * width + r]
            0 <= r < width && s * width + r == i ==> s == i / width && r == i % width,
{
    lemma_fundamental_div_mod(i, width);
    assert((i / width) * width == width * (i / width)) by (nonlinear_arith);
    assert(i / width < caps && 0 <= i / width) by (nonlinear_arith)
        requires
            width >= 1,
            0 <= i < caps * width,
            i == (i / width) * width + i % width,
            0 <= i % width < width,
    ;
    assert forall|s: int, r: int| #![trigger s * width + r]
        0 <= r < width && s * width + r == i implies s == i / width && r == i % width by {
        lemma_fundamental_div_mod_converse(i, width, s, r);
    }
}

/// Writes the first `leaf_size` elements of `row` as leaf `i`.
pub(crate) fn write_leaf<F: RichField>(
    leaves: &mut Vec<F>,
    leaf_size: usize,
    i: usize,
    row: &Vec<F>,
)
    requires
        leaf_size > 0,
        i < old(leaves)@.len() as int / leaf_size as int,
        row@.len() >= leaf_size,
    ensures
        final(leaves)@ == with_rows(old(leaves)@, leaf_size as int, i as int, seq![row@]),
{
    let ghost before = leaves@;
    proof {
        lemma_leaf_fits(leaves@.len() as int, leaf_size as int, i as int);
        assert(leaves@.len() == leaves.len());
    }
    let start: usize = i * leaf_size;
    let mut j: usize = 0;
    while j < leaf_size
        invariant
            j <= leaf_size,
            leaf_size <= row@.len(),
            start + leaf_size <= before.len(),
            before.len() <= usize::MAX,
            leaves@.len() == before.len(),
            forall|k: int|
                0 <= k < before.len() ==> #[trigger] leaves@[k] == if start <= k < start + j {
                    row@[k - start]
                } else {
                    before[k]
                },
        decreases leaf_size - j,
    {
        leaves[start + j] = row[j];
        j = j + 1;
    }
    proof {
        let changed = with_rows(before, leaf_size as int, i as int, seq![row@]);
        assert forall|k: int| 0 <= k < before.len() implies #[trigger] leaves@[k] == changed[k] by {
            lemma_element_place(k, leaf_size as int, i as int);
        }
        assert(leaves@ =~= changed);
    }
}

/// Element `k` belongs to leaf `i` where it lies between the ends of it.
pub(crate) proof fn lemma_element_place(k: int, leaf_size: int, i: int)
    requires
        leaf_size > 0,
    ensures
        k / leaf_size == i <==> i * leaf_size <= k < i * leaf_size + leaf_size,
        k / leaf_size == i ==> k % leaf_size == k - i * leaf_size,
        k == (k / leaf_size) * leaf_size + k % leaf_size,
        0 <= k % leaf_size < leaf_size,
{
    lemma_fundamental_div_mod(k, leaf_size);
    assert(leaf_size * (k / leaf_size) == (k / leaf_size) * leaf_size) by (nonlinear_arith);
    if i * leaf_size <= k < i * leaf_size + leaf_size {
        lemma_fundamental_div_mod_converse(k, leaf_size, i, k - i * leaf_size);
    }
}

/// The subtree whose digests stand in `before` from `offset` on has become that in `after`, where
/// its leaves got new digests; nothing else has changed, and `root` is the new digest of its
/// root.
#[verifier::opaque]
spec fn followed<F: RichField, H: Hasher<F>>(
    before: Seq<H::Hash>,
    after: Seq<H::Hash>,
    offset: int,
    changed: Seq<Option<H::Hash>>,
    root: Option<H::Hash>,
) -> bool {
    let end = offset + 2 * changed.len() - 2;
    let nodes = after.subrange(offset, end);
    &&& after.len() == before.len()
    &&& forall|p: int|
        0 <= p < before.len() && !(offset <= p < end) ==> #[trigger] after[p] == before[p]
    &&& nodes == rehashed_nodes::<F, H>(before.subrange(offset, end), changed)
    &&& root == fresh_root::<F, H>(nodes, changed)
}

/// A subtree none of whose leaves has a new digest stays as it is.
proof fn lemma_followed_none<F: RichField, H: Hasher<F>>(
    digests: Seq<H::Hash>,
    offset: int,
    changed: Seq<Option<H::Hash>>,
)
    requires
        changed.len() >= 1,
        0 <= offset,
        offset + 2 * changed.len() - 2 <= digests.len(),
        none_fresh(changed),
    ensures
        followed::<F, H>(digests, digests, offset, changed, None),
{
    reveal(followed);
    lemma_none_fresh::<F, H>(
        digests.subrange(offset, offset + 2 * changed.len() - 2),
        changed,
    );
}

/// A single leaf is the root of its subtree, which has no digests.
proof fn lemma_followed_leaf<F: RichField, H: Hasher<F>>(
    digests: Seq<H::Hash>,
    offset: int,
    changed: Seq<Option<H::Hash>>,
)
    requires
        changed.len() == 1,
        0 <= offset <= digests.len(),
        changed[0] is Some,
    ensures
        followed::<F, H>(digests, digests, offset, changed, changed[0]),
{
    reveal(followed);
    assert(digests.subrange(offset, offset) =~= Seq::<H::Hash>::empty());
}

/// `digests` with `digest`, where there is one, at `p`.
spec fn with_digest<T>(digests: Seq<T>, p: int, digest: Option<T>) -> Seq<T> {
    match digest {
        Some(d) => digests.update(p, d),
        None => digests,
    }
}

/// A subtree is hashed anew in its two halves, and then in the digests of its two children.
proof fn lemma_followed_halves<F: RichField, H: Hasher<F>>(
    before: Seq<H::Hash>,
    between: Seq<H::Hash>,
    below: Seq<H::Hash>,
    offset: int,
    half: int,
    changed: Seq<Option<H::Hash>>,
    left_root: Option<H::Hash>,
    right_root: Option<H::Hash>,
)
    requires
        half >= 1,
        changed.len() == 2 * half,
        0 <= offset,
        offset + 4 * half - 2 <= before.len(),
        !none_fresh(changed),
        followed::<F, H>(before, between, offset, changed.take(half), left_root),
        followed::<F, H>(between, below, offset + 2 * half, changed.skip(half), right_root),
    ensures
        ({
            let l = offset + 2 * half - 2;
            let after = with_digest(with_digest(below, l, left_root), l + 1, right_root);
            &&& below.len() == before.len()
            &&& followed::<F, H>(
                before,
                after,
                offset,
                changed,
                Some(H::spec_two_to_one(after[l], after[l + 1])),
            )
        }),
{
    reveal(followed);
    let l = offset + 2 * half - 2;
    let end = offset + 4 * half - 2;
    let after = with_digest(with_digest(below, l, left_root), l + 1, right_root);
    let nodes = before.subrange(offset, end);
    let left = between.subrange(offset, l);
    let right = below.subrange(l + 2, end);
    assert(nodes.take(2 * half - 2) =~= before.subrange(offset, l));
    assert(nodes.skip(2 * half) =~= before.subrange(l + 2, end));
    assert(between.subrange(l + 2, end) =~= before.subrange(l + 2, end));
    lemma_rehashed_len::<F, H>(nodes.take(2 * half - 2), changed.take(half));
    lemma_rehashed_len::<F, H>(nodes.skip(2 * half), changed.skip(half));
    let left_digest = rehashed_root::<F, H>(nodes[2 * half - 2], left, changed.take(half));
    let right_digest = rehashed_root::<F, H>(nodes[2 * half - 1], right, changed.skip(half));
    assert(below[l] == before[l] && below[l + 1] == before[l + 1]);
    assert(after[l] == left_digest);
    assert(after[l + 1] == right_digest);
    let nodes_after = after.subrange(offset, end);
    assert(nodes_after =~= left + seq![left_digest, right_digest] + right) by {
        assert forall|p: int| offset <= p < l implies #[trigger] after[p] == between[p] by {}
    }
    assert(nodes_after == rehashed_nodes::<F, H>(nodes, changed));
    assert(nodes_after[2 * half - 2] == after[l] && nodes_after[2 * half - 1] == after[l + 1]);
}

/// Hashes anew what lies above the leaves from `start` on, which have got the digests `new`, in a
/// subtree of `width` leaves: its digests stand in `digests` from `offset` on, and its first leaf
/// is leaf `first`. Gives the digest of the root, where it has been hashed anew.
fn rehash_subtree<F: RichField, H: Hasher<F>>(
    digests: &mut Vec<H::Hash>,
    offset: usize,
    width: usize,
    first: usize,
    start: usize,
    new: &Vec<H::Hash>,
) -> (root: Option<H::Hash>)
    requires
        is_pow2(width as int),
        offset + 2 * width - 2 <= old(digests)@.len(),
        first + width <= usize::MAX,
        start + new@.len() <= usize::MAX,
        new@.len() > 0,
    ensures
        final(digests)@.len() == old(digests)@.len(),
        followed::<F, H>(
            old(digests)@,
            final(digests)@,
            offset as int,
            fresh(start as int, new@, first as int, width as int),
            root,
        ),
    decreases width,
{
    let ghost before = digests@;
    let ghost changed = fresh(start as int, new@, first as int, width as int);
    proof {
        reveal(is_pow2);
        assert(digests@.len() == digests.len());
        assert(new@.len() == new.len());
    }
    if first + width <= start || start + new.len() <= first {
        proof {
            lemma_followed_none::<F, H>(before, offset as int, changed);
        }
        return None;
    }
    proof {
        let r: int = if start <= first {
            0
        } else {
            start - first
        };
        assert(changed[r] is Some);
    }
    if width == 1 {
        proof {
            lemma_followed_leaf::<F, H>(before, offset as int, changed);
        }
        return Some(new[first - start]);
    }
    let half: usize = width / 2;
    proof {
        lemma_fresh_halves(start as int, new@, first as int, width as int);
    }
    let left_root: Option<H::Hash> = rehash_subtree::<F, H>(
        digests,
        offset,
        half,
        first,
        start,
        new,
    );
    let ghost between = digests@;
    let right_root: Option<H::Hash> = rehash_subtree::<F, H>(
        digests,
        offset + width,
        half,
        first + half,
        start,
        new,
    );
    let ghost below = digests@;
    proof {
        lemma_followed_halves::<F, H>(
            before,
            between,
            below,
            offset as int,
            half as int,
            changed,
            left_root,
            right_root,
        );
    }
    let left_idx: usize = offset + (width - 2);
    let right_idx: usize = offset + (width - 1);
    if let Some(digest) = left_root {
        digests[left_idx] = digest;
    }
    assert(digests@ == with_digest(below, left_idx as int, left_root));
    if let Some(digest) = right_root {
        digests[right_idx] = digest;
    }
    Some(H::two_to_one(digests[left_idx], digests[right_idx]))
}

/// Hashes anew what lies above the leaves from `start` on, which have got the digests `new`.
pub(crate) fn rehash<F: RichField, H: Hasher<F>>(
    digests: &mut Vec<H::Hash>,
    cap: &mut Vec<H::Hash>,
    width: usize,
    start: usize,
    new: &Vec<H::Hash>,
)
    requires
        is_pow2(width as int),
        old(digests)@.len() == old(cap)@.len() * (2 * width - 2),
        old(cap)@.len() * width <= usize::MAX,
        new@.len() > 0,
        start + new@.len() <= old(cap)@.len() * width,
    ensures
        rehashed::<F, H>(
            old(digests)@,
            old(cap)@,
            final(digests)@,
            final(cap)@,
            width as int,
            start as int,
            new@,
        ),
{
    let ghost digests_before = digests@;
    let ghost cap_before = cap@;
    let ghost caps = cap@.len() as int;
    proof {
        reveal(is_pow2);
        lemma_doubles(width);
        assert(digests@.len() == digests.len());
        assert(new@.len() == new.len());
        lemma_place(caps, width as int, start as int);
        lemma_place(caps, width as int, start + new@.len() - 1);
    }
    let subtree_digests_len: usize = (width - 1) * 2;
    let first_subtree: usize = start / width;
    let end_subtree: usize = (start + new.len() - 1) / width + 1;
    let mut s: usize = first_subtree;
    proof {
        assert forall|i: int| 0 <= i < caps && !(s <= i < end_subtree) implies #[trigger]
            none_fresh(fresh(start as int, new@, i * width, width as int)) by {
            lemma_outside(width as int, start as int, start + new@.len(), i);
        }
        assert(first_subtree <= end_subtree) by (nonlinear_arith)
            requires
                first_subtree as int == start as int / width as int,
                end_subtree == (start + new@.len() - 1) / width as int + 1,
                width > 0,
                new@.len() > 0,
        ;
    }
    while s < end_subtree
        invariant
            is_pow2(width as int),
            width > 0,
            2 * width - 2 <= usize::MAX,
            subtree_digests_len == 2 * width - 2,
            caps == cap_before.len(),
            caps * width <= usize::MAX,
            new@.len() > 0,
            start + new@.len() <= caps * width,
            digests_before.len() == caps * (2 * width - 2),
            digests_before.len() <= usize::MAX,
            digests@.len() == digests_before.len(),
            cap@.len() == caps,
            first_subtree <= s <= end_subtree <= caps,
            forall|i: int|
                first_subtree <= i < s ==> #[trigger] subtree_rehashed::<F, H>(
                    digests_before,
                    cap_before,
                    digests@,
                    cap@,
                    width as int,
                    i,
                    start as int,
                    new@,
                ),
            forall|i: int|
                0 <= i < caps && !(first_subtree <= i < s) ==> #[trigger] cap@[i]
                    == cap_before[i],
            forall|i: int|
                0 <= i < caps && !(first_subtree <= i < s) ==> #[trigger] subtree(
                    digests@,
                    width as int,
                    i,
                ) == subtree(digests_before, width as int, i),
        decreases end_subtree - s,
    {
        let ghost prior = digests@;
        let ghost prior_cap = cap@;
        proof {
            lemma_subtree_within(caps, width as int, s as int);
            assert((s + 1) * width == s * width + width && (s + 1) * width <= caps * width && 0
                <= s * width) by (nonlinear_arith)
                requires
                    s + 1 <= caps,
            ;
            assert(subtree(prior, width as int, s as int) == subtree(
                digests_before,
                width as int,
                s as int,
            ));
        }
        let root: Option<H::Hash> = rehash_subtree::<F, H>(
            digests,
            s * subtree_digests_len,
            width,
            s * width,
            start,
            new,
        );
        if let Some(digest) = root {
            cap[s] = digest;
        }
        proof {
            reveal(followed);
            assert forall|i: int| 0 <= i < caps && i != s implies #[trigger] subtree(
                digests@,
                width as int,
                i,
            ) == subtree(prior, width as int, i) by {
                lemma_other_subtree(caps, width as int, s as int, i);
                assert(subtree(digests@, width as int, i) =~= subtree(prior, width as int, i));
            }
            assert forall|i: int| first_subtree <= i < s + 1 implies #[trigger] subtree_rehashed::<
                F,
                H,
            >(digests_before, cap_before, digests@, cap@, width as int, i, start as int, new@) by {
                if i < s {
                    assert(subtree_rehashed::<F, H>(
                        digests_before,
                        cap_before,
                        prior,
                        prior_cap,
                        width as int,
                        i,
                        start as int,
                        new@,
                    ));
                    assert(subtree(digests@, width as int, i) == subtree(prior, width as int, i));
                }
            }
        }
        proof {
            assert forall|i: int| 0 <= i < caps && !(first_subtree <= i < s + 1) implies #[trigger]
                subtree(digests@, width as int, i) == subtree(
                digests_before,
                width as int,
                i,
            ) by {
                assert(subtree(digests@, width as int, i) == subtree(prior, width as int, i));
            }
        }
        s = s + 1;
    }
    proof {
        assert forall|i: int| 0 <= i < caps implies #[trigger] subtree_rehashed::<F, H>(
            digests_before,
            cap_before,
            digests@,
            cap@,
            width as int,
            i,
            start as int,
            new@,
        ) by {
            if !(first_subtree <= i < end_subtree) {
                assert(none_fresh(fresh(start as int, new@, i * width, width as int)));
                assert(subtree(digests@, width as int, i) == subtree(
                    digests_before,
                    width as int,
                    i,
                ));
                lemma_subtree_within(caps, width as int, i);
                lemma_none_fresh::<F, H>(
                    subtree(digests_before, width as int, i),
                    fresh(start as int, new@, i * width, width as int),
                );
            }
        }
    }
}

/// A subtree that is neither the one of leaf `start`, nor the one of leaf `end - 1`, nor between
/// these, holds no leaf from `start` up to but not including `end`.
proof fn lemma_outside(width: int, start: int, end: int, i: int)
    requires
        width > 0,
        0 <= start < end,
        i < start / width || i > (end - 1) / width,
    ensures
        i * width + width <= start || end <= i * width,
{
    lemma_fundamental_div_mod(start, width);
    lemma_fundamental_div_mod(end - 1, width);
    if i < start / width {
        assert(i * width + width <= width * (start / width)) by (nonlinear_arith)
            requires
                i + 1 <= start / width,
                width > 0,
        ;
    } else {
        assert(width * ((end - 1) / width) + width <= i * width) by (nonlinear_arith)
            requires
                (end - 1) / width + 1 <= i,
                width > 0,
        ;
    }
}

/// Two subtrees lie apart.
proof fn lemma_other_subtree(caps: int, width: int, s: int, i: int)
    requires
        width > 0,
        0 <= s < caps,
        0 <= i < caps,
        i != s,
    ensures
        0 <= i * (2 * width - 2),
        (i + 1) * (2 * width - 2) == i * (2 * width - 2) + (2 * width - 2),
        (i + 1) * (2 * width - 2) <= caps * (2 * width - 2),
        (s + 1) * (2 * width - 2) == s * (2 * width - 2) + (2 * width - 2),
        (i + 1) * (2 * width - 2) <= s * (2 * width - 2) || (s + 1) * (2 * width - 2) <= i * (2
            * width - 2),
{
    lemma_subtree_within(caps, width, i);
    lemma_subtree_within(caps, width, s);
    if i < s {
        assert((i + 1) * (2 * width - 2) <= s * (2 * width - 2)) by (nonlinear_arith)
            requires
                i + 1 <= s,
                width > 0,
        ;
    } else {
        assert((s + 1) * (2 * width - 2) <= i * (2 * width - 2)) by (nonlinear_arith)
            requires
                s + 1 <= i,
                width > 0,
        ;
    }
}

impl<F: RichField, H: Hasher<F>> MerkleTree<F, H> {
    /// Replaces leaf `leaf_index` and hashes anew what lies above it.
    pub fn change_leaf_and_update(&mut self, leaf: Vec<F>, leaf_index: usize)
        requires
            old(self).sized(),
            leaf@.len() == old(self).leaf_size,
            leaf_index < old(self).leaves_count(),
        ensures
            final(self).follows(old(self), leaf_index as int, seq![leaf@]),
            final(self).sized(),
            old(self).hashed() ==> final(self).hashed(),
    {
        let leaves_count: usize = self.leaves.len() / self.leaf_size;
        let ghost before = *self;
        let ghost rows = seq![leaf@];
        proof {
            lemma_sized(*self);
        }
        let subtree_leaves_len: usize = leaves_count / self.cap.len();
        let leaf_digest: H::Hash = H::hash_or_noop(leaf.as_slice());
        let new_digests: Vec<H::Hash> = vec![leaf_digest];
        assert(new_digests@ =~= row_digests::<F, H>(rows));
        write_leaf(&mut self.leaves, self.leaf_size, leaf_index, &leaf);
        rehash::<F, H>(
            &mut self.digests,
            &mut self.cap.0,
            subtree_leaves_len,
            leaf_index,
            &new_digests,
        );
        proof {
            if before.hashed() {
                law_changes_keep_hashes::<F, H>(
                    before.leaves@,
                    before.leaf_size as int,
                    before.digests@,
                    before.cap.0@,
                    self.digests@,
                    self.cap.0@,
                    before.width(),
                    leaf_index as int,
                    rows,
                );
            }
        }
    }
}

} // verus!

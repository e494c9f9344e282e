//! Digests of a subtree level by level, and how they are put into the order of a tree.
//!
//! Level by level, the digests of a subtree with `w` leaves, `w` a power of two, are numbered
//! from the root's children, nodes `0` and `1`, down to the leaves, the last `w` of the
//! `2 * w - 2` nodes. The children of node `q` are the nodes `2 * q + 2` and `2 * q + 3`.

use crate::config::{Hasher, RichField};
use crate::layout::{lemma_subtree_within, root_digest, subtree, subtree_digests};
use crate::util::lemma_doubles;
use vstd::arithmetic::power2::is_pow2;
use vstd::prelude::*;
use vstd::slice::slice_subrange;

verus! {

/// What node `q` has to be, given its two children.
pub open spec fn parent_digest<F: RichField, H: Hasher<F>>(
    nodes: Seq<H::Hash>,
    q: int,
) -> H::Hash {
    H::spec_two_to_one(nodes[2 * q + 2], nodes[2 * q + 3])
}

/// `nodes` are, level by level, the digests of a subtree whose leaves have the digests `bottom`.
pub open spec fn levels_hashed<F: RichField, H: Hasher<F>>(
    nodes: Seq<H::Hash>,
    bottom: Seq<H::Hash>,
) -> bool {
    &&& nodes.len() == 2 * bottom.len() - 2
    &&& forall|q: int|
        0 <= q < bottom.len() - 2 ==> nodes[q] == #[trigger] parent_digest::<F, H>(nodes, q)
    &&& forall|r: int| #![trigger bottom[r]]
        0 <= r < bottom.len() ==> bottom.len() >= 2 ==> nodes[bottom.len() - 2 + r] == bottom[r]
}

/// The root over digests `nodes` that are given level by level, where the leaves have the digests
/// `bottom`.
pub open spec fn levels_root<F: RichField, H: Hasher<F>>(
    nodes: Seq<H::Hash>,
    bottom: Seq<H::Hash>,
) -> H::Hash {
    if bottom.len() == 1 {
        bottom[0]
    } else {
        H::spec_two_to_one(nodes[0], nodes[1])
    }
}

/// The digests below one node, in the order of a tree, out of `nodes`, which are given level by
/// level: the node is number `j` on a level of `size` nodes, and there are `width` leaves below
/// it.
pub open spec fn regrouped<T>(nodes: Seq<T>, size: int, width: int, j: int) -> Seq<T>
    decreases width,
{
    if width <= 1 {
        Seq::empty()
    } else {
        let left = 2 * size - 2 + 2 * j;
        regrouped(nodes, 2 * size, width / 2, 2 * j) + seq![nodes[left], nodes[left + 1]]
            + regrouped(nodes, 2 * size, width / 2, 2 * j + 1)
    }
}

/// Appends the digests below one node, in the order of a tree, out of `nodes`, which are given
/// level by level.
pub(crate) fn regroup<T: Copy>(
    nodes: &[T],
    size: usize,
    width: usize,
    j: usize,
    out: &mut Vec<T>,
)
    requires
        width >= 2,
        is_pow2(width as int),
        j < size,
        size * width <= usize::MAX,
        nodes@.len() == 2 * (size * width) - 2,
    ensures
        final(out)@ == old(out)@ + regrouped(nodes@, size as int, width as int, j as int),
    decreases width,
{
    let ghost before = out@;
    proof {
        reveal(is_pow2);
        assert(2 * size <= size * width) by (nonlinear_arith)
            requires
                width >= 2,
        ;
        assert(nodes@.len() == nodes.len());
        assert((2 * size) * (width / 2) == size * width) by (nonlinear_arith)
            requires
                width % 2 == 0,
        ;
    }
    let left: usize = 2 * size - 2 + 2 * j;
    if width > 2 {
        regroup(nodes, 2 * size, width / 2, 2 * j, out);
    }
    out.push(nodes[left]);
    out.push(nodes[left + 1]);
    if width > 2 {
        regroup(nodes, 2 * size, width / 2, 2 * j + 1, out);
    }
    proof {
        reveal_with_fuel(regrouped, 2);
        assert(out@ =~= before + regrouped(nodes@, size as int, width as int, j as int));
    }
}

/// As many digests lie below a node with `width` leaves.
pub proof fn lemma_regrouped_len<T>(nodes: Seq<T>, size: int, width: int, j: int)
    requires
        is_pow2(width),
    ensures
        regrouped(nodes, size, width, j).len() == 2 * width - 2,
    decreases width,
{
    reveal(is_pow2);
    if width > 1 {
        lemma_regrouped_len(nodes, 2 * size, width / 2, 2 * j);
        lemma_regrouped_len(nodes, 2 * size, width / 2, 2 * j + 1);
    }
}

/// Hashes that are given level by level become the digests of a subtree, below each node.
pub proof fn lemma_regrouped_is_hashed<F: RichField, H: Hasher<F>>(
    nodes: Seq<H::Hash>,
    bottom: Seq<H::Hash>,
    size: int,
    width: int,
    j: int,
)
    requires
        is_pow2(width),
        size >= 1,
        0 <= j < size,
        size * width == bottom.len(),
        levels_hashed::<F, H>(nodes, bottom),
    ensures
        0 <= j * width,
        (j + 1) * width <= bottom.len(),
        ({
            let below = bottom.subrange(j * width, (j + 1) * width);
            &&& below.len() == width
            &&& regrouped(nodes, size, width, j) == subtree_digests::<F, H>(below)
            &&& size >= 2 ==> nodes[size - 2 + j] == root_digest::<F, H>(below)
            &&& size == 1 && width >= 2 ==> H::spec_two_to_one(nodes[0], nodes[1])
                == root_digest::<F, H>(below)
        }),
    decreases width,
{
    reveal(is_pow2);
    assert(0 <= j * width && (j + 1) * width <= size * width && (j + 1) * width == j * width
        + width) by (nonlinear_arith)
        requires
            0 <= j < size,
            width >= 1,
    ;
    let below = bottom.subrange(j * width, (j + 1) * width);
    if width == 1 {
        assert(size * 1 == size && j * 1 == j);
        assert(below[0] == bottom[j]);
    } else {
        let half = width / 2;
        assert((2 * size) * half == size * width && (2 * j) * half == j * width && (2 * j + 1)
            * half == j * width + half && (2 * j + 2) * half == j * width + width)
            by (nonlinear_arith)
            requires
                width == 2 * half,
        ;
        lemma_regrouped_is_hashed::<F, H>(nodes, bottom, 2 * size, half, 2 * j);
        lemma_regrouped_is_hashed::<F, H>(nodes, bottom, 2 * size, half, 2 * j + 1);
        assert(below.take(half) =~= bottom.subrange((2 * j) * half, (2 * j + 1) * half));
        assert(below.skip(half) =~= bottom.subrange((2 * j + 1) * half, (2 * j + 2) * half));
        if size >= 2 {
            let q = size - 2 + j;
            assert(2 * size <= size * width) by (nonlinear_arith)
                requires
                    width >= 2,
                    size >= 1,
            ;
            assert(nodes[q] == parent_digest::<F, H>(nodes, q));
        }
    }
}

/// The digests of `caps` subtrees of `width` leaves, each in the order of a tree, out of digests
/// that are given subtree by subtree, and level by level within each.
pub fn from_levels<T: Copy>(levels: &Vec<T>, caps: usize, width: usize) -> (digests: Vec<T>)
    requires
        is_pow2(width as int),
        levels@.len() == caps * (2 * width - 2),
    ensures
        digests@.len() == levels@.len(),
        forall|s: int|
            0 <= s < caps ==> #[trigger] subtree(digests@, width as int, s) == regrouped(
                subtree(levels@, width as int, s),
                1,
                width as int,
                0,
            ),
{
    let mut digests: Vec<T> = Vec::with_capacity(levels.len());
    proof {
        reveal(is_pow2);
        lemma_doubles(width);
        assert(levels@.len() == levels.len());
    }
    if width == 1 {
        proof {
            assert(caps * (2 * 1 - 2) == 0) by (nonlinear_arith);
            assert forall|s: int| 0 <= s < caps implies #[trigger] subtree(digests@, 1, s)
                == regrouped(subtree(levels@, 1, s), 1, 1, 0) by {
                lemma_subtree_within(caps as int, 1, s);
                assert(subtree(digests@, 1, s) =~= Seq::empty());
            }
        }
        return digests;
    }
    let subtree_digests_len: usize = (width - 1) * 2;
    let mut s: usize = 0;
    while s < caps
        invariant
            s <= caps,
            width >= 2,
            is_pow2(width as int),
            subtree_digests_len == 2 * width - 2,
            levels@.len() == caps * (2 * width - 2),
            levels@.len() <= usize::MAX,
            digests@.len() == s * (2 * width - 2),
            forall|i: int|
                0 <= i < s ==> #[trigger] subtree(digests@, width as int, i) == regrouped(
                    subtree(levels@, width as int, i),
                    1,
                    width as int,
                    0,
                ),
        decreases caps - s,
    {
        let ghost prior = digests@;
        proof {
            lemma_subtree_within(caps as int, width as int, s as int);
        }
        let offset: usize = s * subtree_digests_len;
        let nodes: &[T] = slice_subrange(
            levels.as_slice(),
            offset,
            offset + subtree_digests_len,
        );
        assert(nodes@ =~= subtree(levels@, width as int, s as int));
        regroup(nodes, 1, width, 0, &mut digests);
        proof {
            lemma_regrouped_len(nodes@, 1, width as int, 0);
            assert(subtree(digests@, width as int, s as int) =~= regrouped(
                nodes@,
                1,
                width as int,
                0,
            ));
            assert forall|i: int| 0 <= i < s implies #[trigger] subtree(digests@, width as int, i)
                == subtree(prior, width as int, i) by {
                lemma_subtree_within(s as int, width as int, i);
                assert(subtree(digests@, width as int, i) =~= subtree(prior, width as int, i));
            }
        }
        s = s + 1;
    }
    digests
}

} // verus!

//! Hashing leaves upwards into the digests and the cap of a tree.

use crate::config::{Hasher, RichField};
use crate::layout::{
    buildable, hashed, leaf_at, leaf_digest, leaf_digests, lemma_buildable, lemma_subtree_len,
    lemma_subtree_within, root_digest, subtree, subtree_digests, subtree_ok,
};
use crate::levels::{levels_hashed, lemma_regrouped_is_hashed, parent_digest, regroup};
use crate::par::par_map;
use crate::util::{ascending, lemma_doubles, lemma_pow2_zero, log2_strict, shl_one};
use vstd::arithmetic::div_mod::{
    lemma_div_by_multiple, lemma_fundamental_div_mod, lemma_mod_multiples_basic,
};
use vstd::arithmetic::power2::{is_pow2, lemma_pow2_pos, lemma_pow2_unfold, pow2};
use vstd::prelude::*;
use vstd::slice::{slice_subrange, slice_to_vec};

verus! {

/// The elements of leaf `i`.
pub(crate) fn leaf_slice<'a, F: RichField>(
    leaves: &'a [F],
    leaf_size: usize,
    i: usize,
) -> (leaf: &'a [F])
    requires
        (i + 1) * leaf_size <= leaves@.len(),
    ensures
        leaf@ == leaf_at(leaves@, leaf_size as int, i as int),
{
    proof {
        assert(0 <= i * leaf_size && (i + 1) * leaf_size == i * leaf_size + leaf_size)
            by (nonlinear_arith);
        assert(leaves@.len() == leaves.len());
    }
    let (_, rest) = leaves.split_at(i * leaf_size);
    let (leaf, _) = rest.split_at(leaf_size);
    assert(leaf@ =~= leaf_at(leaves@, leaf_size as int, i as int));
    leaf
}

/// Leaf `i` of `count` lies within the elements.
pub(crate) proof fn lemma_leaf_fits(len: int, leaf_size: int, i: int)
    requires
        leaf_size > 0,
        0 <= i < len / leaf_size,
    ensures
        0 <= i * leaf_size,
        (i + 1) * leaf_size == i * leaf_size + leaf_size,
        (i + 1) * leaf_size <= len,
{
    lemma_fundamental_div_mod(len, leaf_size);
    assert((i + 1) * leaf_size <= (len / leaf_size) * leaf_size) by (nonlinear_arith)
        requires
            i + 1 <= len / leaf_size,
            leaf_size > 0,
    ;
    assert(leaf_size * (len / leaf_size) == (len / leaf_size) * leaf_size) by (nonlinear_arith);
    assert(0 <= i * leaf_size && (i + 1) * leaf_size == i * leaf_size + leaf_size)
        by (nonlinear_arith)
        requires
            i >= 0,
            leaf_size > 0,
    ;
}

/// What `fill_subtree` makes of `leaves`: the digests of the subtree over them. The digest of a
/// single leaf is itself the root and stands among them too.
pub open spec fn filled_nodes<F: RichField, H: Hasher<F>>(
    leaves: Seq<F>,
    leaf_size: int,
) -> Seq<H::Hash> {
    let bottom = leaf_digests::<F, H>(leaves, leaf_size, 0, leaves.len() as int / leaf_size);
    if bottom.len() == 1 {
        bottom
    } else {
        subtree_digests::<F, H>(bottom)
    }
}

/// What `fill_subtree` makes of `leaves`: the digest of the root of the subtree over them.
pub open spec fn filled_root<F: RichField, H: Hasher<F>>(
    leaves: Seq<F>,
    leaf_size: int,
) -> H::Hash {
    root_digest::<F, H>(
        leaf_digests::<F, H>(leaves, leaf_size, 0, leaves.len() as int / leaf_size),
    )
}

/// Hashes the leaves of one subtree upwards into its digests and that of its root.
pub fn fill_subtree<F: RichField, H: Hasher<F>>(
    leaves: &[F],
    leaf_size: usize,
) -> (filled: (Vec<H::Hash>, H::Hash))
    requires
        leaf_size > 0,
        leaves@.len() as int % leaf_size as int == 0,
        is_pow2(leaves@.len() as int / leaf_size as int),
    ensures
        filled.0@ == filled_nodes::<F, H>(leaves@, leaf_size as int),
        filled.1 == filled_root::<F, H>(leaves@, leaf_size as int),
{
    let leaves_count: usize = leaves.len() / leaf_size;
    let ghost width = leaves_count as int;
    let ghost bottom = leaf_digests::<F, H>(leaves@, leaf_size as int, 0, width);
    proof {
        reveal(is_pow2);
    }
    // leaves first - we can do all in parallel
    let mut bottom_digests: Vec<H::Hash> = hash_all_leaves::<F, H>(leaves, leaf_size);
    let first: H::Hash = bottom_digests[0];
    if leaves_count == 1 {
        return (bottom_digests, first);
    }
    proof {
        lemma_doubles(leaves_count);
    }
    // Level by level: the digests that are yet to come, then those of the leaves.
    let mut last_index: usize = leaves_count - 2;
    let mut nodes: Vec<H::Hash> = Vec::with_capacity((leaves_count - 1) * 2);
    while nodes.len() < last_index
        invariant
            nodes@.len() <= last_index,
        decreases last_index - nodes@.len(),
    {
        nodes.push(first);
    }
    nodes.append(&mut bottom_digests);
    // internal nodes - we can do in parallel per level
    let level_logs: Vec<usize> = ascending(1, log2_strict(leaves_count));
    let mut levels_left: usize = level_logs.len();
    proof {
        lemma_pow2_zero();
        lemma_pow2_unfold(1);
        assert(pow2((levels_left + 1) as nat) == leaves_count);
    }
    while levels_left > 0
        invariant
            levels_left <= level_logs@.len(),
            forall|i: int| 0 <= i < level_logs@.len() ==> #[trigger] level_logs@[i] == 1 + i,
            level_logs@.len() < usize::BITS,
            level_logs@.len() > 0 ==> level_logs@[level_logs@.len() - 1] < usize::BITS,
            leaves_count >= 2,
            2 * leaves_count - 2 <= usize::MAX,
            last_index + 2 == pow2((levels_left + 1) as nat),
            last_index <= leaves_count - 2,
            nodes@.len() == 2 * leaves_count - 2,
            bottom.len() == leaves_count,
            forall|q: int|
                last_index <= q < leaves_count - 2 ==> nodes@[q] == #[trigger] parent_digest::<
                    F,
                    H,
                >(nodes@, q),
            forall|r: int| #![trigger bottom[r]]
                0 <= r < leaves_count ==> nodes@[leaves_count - 2 + r] == bottom[r],
        decreases levels_left,
    {
        levels_left = levels_left - 1;
        let level_size: usize = shl_one(level_logs[levels_left]);
        proof {
            lemma_pow2_unfold((levels_left + 2) as nat);
            lemma_pow2_unfold((levels_left + 1) as nat);
            lemma_pow2_pos(levels_left as nat);
        }
        let level_start: usize = last_index - level_size;
        let level: Vec<H::Hash> = hash_level::<F, H>(&nodes, level_start, level_size);
        let mut i: usize = 0;
        while i < level_size
            invariant
                leaves_count >= 2,
                2 * leaves_count - 2 <= usize::MAX,
                i <= level_size,
                level_size == level_start + 2,
                last_index == level_start + level_size,
                last_index <= leaves_count - 2,
                nodes@.len() == 2 * leaves_count - 2,
                bottom.len() == leaves_count,
                level@.len() == level_size,
                forall|j: int| #![trigger level@[j]]
                    0 <= j < level_size ==> level@[j] == parent_digest::<F, H>(
                        nodes@,
                        level_start + j,
                    ),
                forall|q: int|
                    level_start <= q < level_start + i || last_index <= q < leaves_count - 2
                        ==> nodes@[q] == #[trigger] parent_digest::<F, H>(nodes@, q),
                forall|r: int| #![trigger bottom[r]]
                    0 <= r < leaves_count ==> nodes@[leaves_count - 2 + r] == bottom[r],
            decreases level_size - i,
        {
            let ghost prior = nodes@;
            assert(level@[i as int] == parent_digest::<F, H>(prior, level_start + i));
            nodes[level_start + i] = level[i];
            proof {
                assert forall|q: int|
                    level_start <= q < leaves_count - 2 implies #[trigger] parent_digest::<F, H>(
                    nodes@,
                    q,
                ) == parent_digest::<F, H>(prior, q) by {}
            }
            i = i + 1;
        }
        last_index = level_start;
    }
    proof {
        lemma_pow2_zero();
        lemma_pow2_unfold(1);
        assert(last_index == 0);
    }
    let root: H::Hash = H::two_to_one(nodes[0], nodes[1]);
    let mut digests: Vec<H::Hash> = Vec::with_capacity(nodes.len());
    proof {
        assert(1 * width == width && 0 * width == 0);
        assert(levels_hashed::<F, H>(nodes@, bottom));
        lemma_regrouped_is_hashed::<F, H>(nodes@, bottom, 1, width, 0);
        assert(bottom.subrange(0, width) =~= bottom);
    }
    regroup(nodes.as_slice(), 1, leaves_count, 0, &mut digests);
    (digests, root)
}

/// The digests of all whole leaves.
fn hash_all_leaves<F: RichField, H: Hasher<F>>(leaves: &[F], leaf_size: usize) -> (digests: Vec<
    H::Hash,
>)
    requires
        leaf_size > 0,
    ensures
        digests@ == leaf_digests::<F, H>(
            leaves@,
            leaf_size as int,
            0,
            leaves@.len() as int / leaf_size as int,
        ),
{
    let leaves_count: usize = leaves.len() / leaf_size;
    let hash_leaf = |leaf_idx: usize| -> (digest: H::Hash)
        requires
            leaf_idx < leaves_count,
        ensures
            digest == leaf_digest::<F, H>(leaves@, leaf_size as int, leaf_idx as int),
        {
            proof {
                lemma_leaf_fits(leaves@.len() as int, leaf_size as int, leaf_idx as int);
            }
            H::hash_or_noop(leaf_slice(leaves, leaf_size, leaf_idx))
        };
    let digests: Vec<H::Hash> = par_map(leaves_count, hash_leaf);
    proof {
        let bottom = leaf_digests::<F, H>(leaves@, leaf_size as int, 0, leaves_count as int);
        assert forall|i: int| 0 <= i < leaves_count implies digests@[i] == bottom[i] by {
            assert(digests@[i as usize as int] == digests@[i]);
        }
        assert(digests@ =~= bottom);
    }
    digests
}

/// What the nodes of a level of `size` nodes from node `start` on have to be, given the level
/// below.
fn hash_level<F: RichField, H: Hasher<F>>(
    nodes: &Vec<H::Hash>,
    start: usize,
    size: usize,
) -> (level: Vec<H::Hash>)
    requires
        2 * (start + size) + 2 <= nodes@.len(),
    ensures
        level@.len() == size,
        forall|j: int| #![trigger level@[j]]
            0 <= j < size ==> level@[j] == parent_digest::<F, H>(nodes@, start + j),
{
    assert(nodes@.len() == nodes.len());
    let hash_node = |i: usize| -> (digest: H::Hash)
        requires
            i < size,
        ensures
            digest == parent_digest::<F, H>(nodes@, start + i),
        {
            let left_idx: usize = 2 * (start + i + 1);
            let right_idx: usize = left_idx + 1;
            H::two_to_one(nodes[left_idx], nodes[right_idx])
        };
    let level: Vec<H::Hash> = par_map(size, hash_node);
    proof {
        assert forall|j: int| #![trigger level@[j]] 0 <= j < size implies level@[j]
            == parent_digest::<F, H>(nodes@, start + j) by {
            assert(level@[j as usize as int] == level@[j]);
        }
    }
    level
}

/// Part `c` of `elements` in parts of `len`.
pub open spec fn part<T>(elements: Seq<T>, len: int, c: int) -> Seq<T> {
    elements.subrange(c * len, (c + 1) * len)
}

/// The leaves of a chunk are leaves of the whole.
pub(crate) proof fn lemma_chunk_leaves<F: RichField, H: Hasher<F>>(
    leaves: Seq<F>,
    leaf_size: int,
    width: int,
    s: int,
    chunk: Seq<F>,
)
    requires
        leaf_size > 0,
        width > 0,
        s >= 0,
        s * (width * leaf_size) >= 0,
        (s + 1) * (width * leaf_size) <= leaves.len(),
        chunk == leaves.subrange(s * (width * leaf_size), (s + 1) * (width * leaf_size)),
    ensures
        chunk.len() == width * leaf_size,
        chunk.len() as int / leaf_size == width,
        chunk.len() as int % leaf_size == 0,
        leaf_digests::<F, H>(chunk, leaf_size, 0, width) == leaf_digests::<F, H>(
            leaves,
            leaf_size,
            s * width,
            width,
        ),
{
    assert((s + 1) * (width * leaf_size) == s * (width * leaf_size) + width * leaf_size)
        by (nonlinear_arith);
    assert(width * leaf_size >= 0) by (nonlinear_arith)
        requires
            width > 0,
            leaf_size > 0,
    ;
    lemma_div_by_multiple(width, leaf_size);
    lemma_mod_multiples_basic(width, leaf_size);
    assert forall|r: int| 0 <= r < width implies #[trigger] leaf_digest::<F, H>(
        chunk,
        leaf_size,
        r,
    ) == leaf_digest::<F, H>(leaves, leaf_size, s * width + r) by {
        assert(0 <= r * leaf_size && (r + 1) * leaf_size == r * leaf_size + leaf_size && (r + 1)
            * leaf_size <= width * leaf_size) by (nonlinear_arith)
            requires
                0 <= r < width,
                leaf_size > 0,
        ;
        assert((s * width + r) * leaf_size == s * (width * leaf_size) + r * leaf_size && (s * width
            + r + 1) * leaf_size == s * (width * leaf_size) + (r + 1) * leaf_size)
            by (nonlinear_arith);
        assert(leaf_at(chunk, leaf_size, r) =~= leaf_at(leaves, leaf_size, s * width + r));
    }
    assert(leaf_digests::<F, H>(chunk, leaf_size, 0, width) =~= leaf_digests::<F, H>(
        leaves,
        leaf_size,
        s * width,
        width,
    ));
}

/// Digests that come later leave the earlier subtrees as they are.
proof fn lemma_subtrees_stay<F: RichField, H: Hasher<F>>(
    leaves: Seq<F>,
    leaf_size: int,
    digests: Seq<H::Hash>,
    cap: Seq<H::Hash>,
    longer: Seq<H::Hash>,
    longer_cap: Seq<H::Hash>,
    width: int,
    s: int,
)
    requires
        width > 0,
        0 <= s < cap.len(),
        digests.len() >= cap.len() * (2 * width - 2),
        digests.is_prefix_of(longer),
        cap.is_prefix_of(longer_cap),
        subtree_ok::<F, H>(leaves, leaf_size, digests, cap, width, s),
    ensures
        subtree_ok::<F, H>(leaves, leaf_size, longer, longer_cap, width, s),
{
    lemma_subtree_within(cap.len() as int, width, s);
    assert(subtree(longer, width, s) =~= subtree(digests, width, s));
}

/// `digests_len` digests and a cap of `cap_len` entries can be filled from `len` elements in
/// leaves of `leaf_size`: without digests each leaf has its entry of the cap, whatever
/// `cap_height` is, and otherwise the sizes are those of a tree.
pub open spec fn fillable(
    len: int,
    leaf_size: int,
    digests_len: int,
    cap_len: int,
    cap_height: int,
) -> bool {
    &&& leaf_size > 0
    &&& if digests_len == 0 {
        cap_len == len / leaf_size
    } else {
        &&& buildable(len, leaf_size, cap_height)
        &&& cap_len == pow2(cap_height as nat)
        &&& digests_len == 2 * (len / leaf_size - cap_len)
    }
}

/// The number of leaves under each entry of a cap that is filled.
pub open spec fn filled_width(
    len: int,
    leaf_size: int,
    digests_len: int,
    cap_len: int,
) -> int {
    if digests_len == 0 {
        1
    } else {
        len / leaf_size / cap_len
    }
}

/// Fills the digests and the cap of a tree, subtree by subtree: each subtree is what
/// `fill_subtree` makes of its own leaves.
pub fn fill_digests_buf<F: RichField, H: Hasher<F>>(
    digests_len: usize,
    cap_len: usize,
    leaves: &Vec<F>,
    leaf_size: usize,
    cap_height: usize,
) -> (filled: (Vec<H::Hash>, Vec<H::Hash>))
    requires
        fillable(
            leaves@.len() as int,
            leaf_size as int,
            digests_len as int,
            cap_len as int,
            cap_height as int,
        ),
    ensures
        filled.0@.len() == digests_len,
        filled.1@.len() == cap_len,
        ({
            let width = filled_width(
                leaves@.len() as int,
                leaf_size as int,
                digests_len as int,
                cap_len as int,
            );
            &&& hashed::<F, H>(leaves@, leaf_size as int, filled.0@, filled.1@, width)
            &&& digests_len > 0 ==> forall|c: int|
                0 <= c < cap_len ==> #[trigger] subtree(filled.0@, width, c) == filled_nodes::<
                    F,
                    H,
                >(part(leaves@, width * leaf_size, c), leaf_size as int)
            &&& forall|c: int|
                0 <= c < cap_len ==> #[trigger] filled.1@[c] == filled_root::<F, H>(
                    part(leaves@, width * leaf_size, c),
                    leaf_size as int,
                )
        }),
{
    let leaves_count: usize = leaves.len() / leaf_size;
    // Special case of a tree that's all cap.
    if digests_len == 0 {
        let cap_buf: Vec<H::Hash> = hash_all_leaves::<F, H>(leaves.as_slice(), leaf_size);
        let digests_buf: Vec<H::Hash> = Vec::new();
        proof {
            assert(cap_len * (2 * 1 - 2) == 0) by (nonlinear_arith);
            assert forall|s: int| 0 <= s < cap_len implies #[trigger] subtree_ok::<F, H>(
                leaves@,
                leaf_size as int,
                digests_buf@,
                cap_buf@,
                1,
                s,
            ) by {
                assert(s * (2 * 1 - 2) == 0 && (s + 1) * (2 * 1 - 2) == 0);
                assert(subtree(digests_buf@, 1, s) =~= Seq::empty());
                assert(leaf_digest::<F, H>(leaves@, leaf_size as int, s * 1 + 0) == cap_buf@[s]);
            }
            assert forall|c: int| 0 <= c < cap_len implies #[trigger] cap_buf@[c] == filled_root::<
                F,
                H,
            >(part(leaves@, 1 * leaf_size, c), leaf_size as int) by {
                assert(subtree_ok::<F, H>(
                    leaves@,
                    leaf_size as int,
                    digests_buf@,
                    cap_buf@,
                    1,
                    c,
                ));
                lemma_leaf_fits(leaves@.len() as int, leaf_size as int, c);
                lemma_chunk_leaves::<F, H>(
                    leaves@,
                    leaf_size as int,
                    1,
                    c,
                    part(leaves@, 1 * leaf_size, c),
                );
            }
        }
        return (digests_buf, cap_buf);
    }
    proof {
        lemma_buildable(leaves.len(), leaf_size, cap_height);
    }
    let subtree_leaves_len: usize = leaves_count / cap_len;
    let ghost width = subtree_leaves_len as int;
    // We have `1 << cap_height` sub-trees, one for each entry in `cap`. They are totally
    // independent, so we schedule one task for each.
    let subtrees: Vec<(Vec<H::Hash>, H::Hash)> = fill_all_subtrees::<F, H>(
        leaves.as_slice(),
        leaf_size,
        cap_len,
        subtree_leaves_len,
    );
    let mut digests_buf: Vec<H::Hash> = Vec::with_capacity(digests_len);
    let mut cap_buf: Vec<H::Hash> = Vec::with_capacity(cap_len);
    let mut s: usize = 0;
    while s < cap_len
        invariant
            s <= cap_len,
            subtree_leaves_len > 1,
            subtrees@.len() == cap_len,
            forall|i: int| #![trigger subtrees@[i]]
                0 <= i < cap_len ==> is_filled::<F, H>(
                    subtrees@[i],
                    leaf_digests::<F, H>(
                        leaves@,
                        leaf_size as int,
                        i * subtree_leaves_len,
                        subtree_leaves_len as int,
                    ),
                ),
            cap_buf@.len() == s,
            digests_buf@.len() == s * (2 * subtree_leaves_len - 2),
            forall|i: int|
                0 <= i < s ==> #[trigger] subtree_ok::<F, H>(
                    leaves@,
                    leaf_size as int,
                    digests_buf@,
                    cap_buf@,
                    subtree_leaves_len as int,
                    i,
                ),
        decreases cap_len - s,
    {
        let ghost prior = digests_buf@;
        let ghost prior_cap = cap_buf@;
        let ghost width = subtree_leaves_len as int;
        assert(is_filled::<F, H>(
            subtrees@[s as int],
            leaf_digests::<F, H>(leaves@, leaf_size as int, s * width, width),
        ));
        let mut nodes: Vec<H::Hash> = slice_to_vec(subtrees[s].0.as_slice());
        let ghost filled = nodes@;
        digests_buf.append(&mut nodes);
        cap_buf.push(subtrees[s].1);
        proof {
            lemma_subtree_len::<F, H>(
                leaf_digests::<F, H>(leaves@, leaf_size as int, s * width, width),
            );
            assert((s + 1) * (2 * width - 2) == s * (2 * width - 2) + (2 * width - 2))
                by (nonlinear_arith);
            assert(subtree(digests_buf@, width, s as int) =~= filled);
            assert forall|i: int| 0 <= i < s + 1 implies #[trigger] subtree_ok::<F, H>(
                leaves@,
                leaf_size as int,
                digests_buf@,
                cap_buf@,
                width,
                i,
            ) by {
                if i < s {
                    lemma_subtrees_stay::<F, H>(
                        leaves@,
                        leaf_size as int,
                        prior,
                        prior_cap,
                        digests_buf@,
                        cap_buf@,
                        width,
                        i,
                    );
                }
            }
        }
        s = s + 1;
    }
    proof {
        assert forall|c: int| 0 <= c < cap_len implies #[trigger] subtree(digests_buf@, width, c)
            == filled_nodes::<F, H>(part(leaves@, width * leaf_size, c), leaf_size as int)
            && cap_buf@[c] == filled_root::<F, H>(
            part(leaves@, width * leaf_size, c),
            leaf_size as int,
        ) by {
            assert(subtree_ok::<F, H>(
                leaves@,
                leaf_size as int,
                digests_buf@,
                cap_buf@,
                width,
                c,
            ));
            lemma_part_fits(leaves@.len() as int, cap_len as int, width * leaf_size, c);
            lemma_chunk_leaves::<F, H>(
                leaves@,
                leaf_size as int,
                width,
                c,
                part(leaves@, width * leaf_size, c),
            );
        }
        assert forall|c: int| 0 <= c < cap_len implies #[trigger] cap_buf@[c] == filled_root::<
            F,
            H,
        >(part(leaves@, width * leaf_size, c), leaf_size as int) by {
            assert(subtree(digests_buf@, width, c) == subtree(digests_buf@, width, c));
        }
    }
    (digests_buf, cap_buf)
}

/// Part `c` of `count` parts of `len` lies within what they are parts of.
proof fn lemma_part_fits(total: int, count: int, len: int, c: int)
    requires
        len >= 0,
        0 <= c < count,
        count * len <= total,
    ensures
        0 <= c * len,
        (c + 1) * len <= total,
        (c + 1) * len == c * len + len,
{
    assert(0 <= c * len && (c + 1) * len == c * len + len && (c + 1) * len <= count * len)
        by (nonlinear_arith)
        requires
            len >= 0,
            0 <= c < count,
    ;
}

/// The nodes of a subtree and the digest of its root, given the digests of its leaves.
spec fn is_filled<F: RichField, H: Hasher<F>>(
    filled: (Vec<H::Hash>, H::Hash),
    bottom: Seq<H::Hash>,
) -> bool {
    &&& filled.0@ == subtree_digests::<F, H>(bottom)
    &&& filled.1 == root_digest::<F, H>(bottom)
}

/// Fills `len_cap` subtrees of `width` leaves each.
fn fill_all_subtrees<F: RichField, H: Hasher<F>>(
    leaves: &[F],
    leaf_size: usize,
    len_cap: usize,
    width: usize,
) -> (subtrees: Vec<(Vec<H::Hash>, H::Hash)>)
    requires
        leaf_size > 0,
        width > 1,
        is_pow2(width as int),
        width * leaf_size <= usize::MAX,
        len_cap * (width * leaf_size) <= leaves@.len(),
    ensures
        subtrees@.len() == len_cap,
        forall|s: int| #![trigger subtrees@[s]]
            0 <= s < len_cap ==> is_filled::<F, H>(
                subtrees@[s],
                leaf_digests::<F, H>(leaves@, leaf_size as int, s * width, width as int),
            ),
{
    let chunk_len: usize = width * leaf_size;
    assert(leaves@.len() == leaves.len());
    let fill_one = |s: usize| -> (filled: (Vec<H::Hash>, H::Hash))
        requires
            s < len_cap,
        ensures
            is_filled::<F, H>(
                filled,
                leaf_digests::<F, H>(leaves@, leaf_size as int, s * width, width as int),
            ),
        {
            proof {
                assert(0 <= s * chunk_len && s * chunk_len + chunk_len == (s + 1) * chunk_len && (s
                    + 1) * chunk_len <= len_cap * chunk_len) by (nonlinear_arith)
                    requires
                        s + 1 <= len_cap,
                ;
            }
            let subtree_leaves: &[F] = slice_subrange(
                leaves,
                s * chunk_len,
                s * chunk_len + chunk_len,
            );
            proof {
                lemma_chunk_leaves::<F, H>(
                    leaves@,
                    leaf_size as int,
                    width as int,
                    s as int,
                    subtree_leaves@,
                );
            }
            fill_subtree::<F, H>(subtree_leaves, leaf_size)
        };
    let subtrees: Vec<(Vec<H::Hash>, H::Hash)> = par_map(len_cap, fill_one);
    proof {
        assert forall|s: int| #![trigger subtrees@[s]] 0 <= s < len_cap implies is_filled::<F, H>(
            subtrees@[s],
            leaf_digests::<F, H>(leaves@, leaf_size as int, s * width, width as int),
        ) by {
            assert(subtrees@[s as usize as int] == subtrees@[s]);
        }
    }
    subtrees
}

/// Fills the digests and the cap of a tree on the host.
pub fn fill_digests_buf_meta<F: RichField, H: Hasher<F>>(
    digests_len: usize,
    cap_len: usize,
    leaves: &Vec<F>,
    leaf_size: usize,
    cap_height: usize,
) -> (filled: (Vec<H::Hash>, Vec<H::Hash>))
    requires
        fillable(
            leaves@.len() as int,
            leaf_size as int,
            digests_len as int,
            cap_len as int,
            cap_height as int,
        ),
    ensures
        filled.0@.len() == digests_len,
        filled.1@.len() == cap_len,
        hashed::<F, H>(
            leaves@,
            leaf_size as int,
            filled.0@,
            filled.1@,
            filled_width(
                leaves@.len() as int,
                leaf_size as int,
                digests_len as int,
                cap_len as int,
            ),
        ),
{
    fill_digests_buf::<F, H>(digests_len, cap_len, leaves, leaf_size, cap_height)
}

} // verus!

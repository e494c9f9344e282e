//! How digests lie in a tree, and what makes them the hashes of its leaves.
//!
//! Each subtree, one for each entry of the cap, is laid out as the digests of the left child's
//! subtree, the digest of the left child, the digest of the right child, and the digests of the
//! right child's subtree, and so are these two in turn. A subtree of `w` leaves has `2 * w - 2`
//! digests. That of its root is not among them: it stands in the cap.

use crate::config::{Hasher, RichField};
use crate::util::{
    lemma_doubles, lemma_exponent, lemma_exponent_fits, lemma_pow2_is_pow2, lemma_pow2_ordered,
    lemma_pow2_split,
};
use vstd::arithmetic::div_mod::{lemma_div_by_self, lemma_fundamental_div_mod};
use vstd::arithmetic::power2::{is_pow2, pow2};
use vstd::prelude::*;

verus! {

/// The field elements of leaf `i`.
pub open spec fn leaf_at<F>(leaves: Seq<F>, leaf_size: int, i: int) -> Seq<F> {
    leaves.subrange(i * leaf_size, (i + 1) * leaf_size)
}

/// The digest of leaf `i`.
pub open spec fn leaf_digest<F: RichField, H: Hasher<F>>(
    leaves: Seq<F>,
    leaf_size: int,
    i: int,
) -> H::Hash {
    H::spec_hash_or_noop(leaf_at(leaves, leaf_size, i))
}

/// The digests of the `count` leaves from leaf `first` on.
pub open spec fn leaf_digests<F: RichField, H: Hasher<F>>(
    leaves: Seq<F>,
    leaf_size: int,
    first: int,
    count: int,
) -> Seq<H::Hash> {
    Seq::new(count as nat, |r: int| leaf_digest::<F, H>(leaves, leaf_size, first + r))
}

/// The digest of the root of a subtree whose leaves have the digests `bottom`.
pub open spec fn root_digest<F: RichField, H: Hasher<F>>(bottom: Seq<H::Hash>) -> H::Hash
    decreases bottom.len(),
{
    if bottom.len() <= 1 {
        bottom[0]
    } else {
        let half = bottom.len() as int / 2;
        H::spec_two_to_one(
            root_digest::<F, H>(bottom.take(half)),
            root_digest::<F, H>(bottom.skip(half)),
        )
    }
}

/// The digests of a subtree whose leaves have the digests `bottom`: those of the left child's
/// subtree, that of the left child, that of the right child, and those of the right child's
/// subtree. The digest of the root is not among them.
pub open spec fn subtree_digests<F: RichField, H: Hasher<F>>(bottom: Seq<H::Hash>) -> Seq<H::Hash>
    decreases bottom.len(),
{
    if bottom.len() <= 1 {
        Seq::empty()
    } else {
        let half = bottom.len() as int / 2;
        let left = bottom.take(half);
        let right = bottom.skip(half);
        subtree_digests::<F, H>(left) + seq![
            root_digest::<F, H>(left),
            root_digest::<F, H>(right),
        ] + subtree_digests::<F, H>(right)
    }
}

/// The digests of subtree `s`, of `width` leaves.
pub open spec fn subtree<T>(digests: Seq<T>, width: int, s: int) -> Seq<T> {
    digests.subrange(s * (2 * width - 2), (s + 1) * (2 * width - 2))
}

/// Subtree `s` holds the hashes of its leaves, and `cap[s]` is its root.
pub open spec fn subtree_ok<F: RichField, H: Hasher<F>>(
    leaves: Seq<F>,
    leaf_size: int,
    digests: Seq<H::Hash>,
    cap: Seq<H::Hash>,
    width: int,
    s: int,
) -> bool {
    let bottom = leaf_digests::<F, H>(leaves, leaf_size, s * width, width);
    &&& subtree(digests, width, s) == subtree_digests::<F, H>(bottom)
    &&& cap[s] == root_digest::<F, H>(bottom)
}

/// `digests` and `cap` hold the hashes of `leaves`, for a cap over subtrees of `width` leaves.
pub open spec fn hashed<F: RichField, H: Hasher<F>>(
    leaves: Seq<F>,
    leaf_size: int,
    digests: Seq<H::Hash>,
    cap: Seq<H::Hash>,
    width: int,
) -> bool {
    &&& digests.len() == cap.len() * (2 * width - 2)
    &&& forall|s: int|
        0 <= s < cap.len() ==> #[trigger] subtree_ok::<F, H>(
            leaves,
            leaf_size,
            digests,
            cap,
            width,
            s,
        )
}

/// The rows, with one of zeros, as long as the first row, in place of each empty one.
pub open spec fn padded_rows<F: RichField>(rows: Seq<Vec<F>>) -> Seq<Seq<F>> {
    rows.map_values(
        |row: Vec<F>|
            if row@.len() == 0 {
                Seq::new(rows[0]@.len(), |j: int| F::spec_from_canonical_u64(0))
            } else {
                row@
            },
    )
}

/// `leaves` with the first `leaf_size` elements of `rows[j]` in place of leaf `start + j`.
pub open spec fn with_rows<F>(
    leaves: Seq<F>,
    leaf_size: int,
    start: int,
    rows: Seq<Seq<F>>,
) -> Seq<F> {
    Seq::new(
        leaves.len(),
        |k: int|
            if start <= k / leaf_size < start + rows.len() {
                rows[k / leaf_size - start][k % leaf_size]
            } else {
                leaves[k]
            },
    )
}

/// The digests of `rows`, each hashed as one leaf.
pub open spec fn row_digests<F: RichField, H: Hasher<F>>(rows: Seq<Seq<F>>) -> Seq<H::Hash> {
    Seq::new(rows.len(), |j: int| H::spec_hash_or_noop(rows[j]))
}

/// For each of the `count` leaves from leaf `first` on, its new digest, where it has one: leaf
/// `start + j` has `digests[j]`.
pub open spec fn fresh<T>(start: int, digests: Seq<T>, first: int, count: int) -> Seq<Option<T>> {
    Seq::new(
        count as nat,
        |r: int|
            if start <= first + r < start + digests.len() {
                Some(digests[first + r - start])
            } else {
                None
            },
    )
}

/// No leaf has a new digest.
pub open spec fn none_fresh<T>(fresh: Seq<Option<T>>) -> bool {
    forall|r: int| 0 <= r < fresh.len() ==> #[trigger] fresh[r] is None
}

/// The new digest of a subtree's root, where one of its leaves has a new digest, given the
/// digests `after` that the subtree then has.
pub open spec fn fresh_root<F: RichField, H: Hasher<F>>(
    after: Seq<H::Hash>,
    fresh: Seq<Option<H::Hash>>,
) -> Option<H::Hash> {
    let half = fresh.len() as int / 2;
    if none_fresh(fresh) {
        None
    } else if fresh.len() <= 1 {
        fresh[0]
    } else {
        Some(H::spec_two_to_one(after[2 * half - 2], after[2 * half - 1]))
    }
}

/// What the digest `root` of a subtree's root becomes when some of its leaves get new digests,
/// given the digests `after` that the subtree then has.
pub open spec fn rehashed_root<F: RichField, H: Hasher<F>>(
    root: H::Hash,
    after: Seq<H::Hash>,
    fresh: Seq<Option<H::Hash>>,
) -> H::Hash {
    match fresh_root::<F, H>(after, fresh) {
        Some(digest) => digest,
        None => root,
    }
}

/// What the digests `nodes` of a subtree become when some of its leaves get new digests: what
/// lies above these leaves is hashed anew, and everything else stays as it is.
pub open spec fn rehashed_nodes<F: RichField, H: Hasher<F>>(
    nodes: Seq<H::Hash>,
    fresh: Seq<Option<H::Hash>>,
) -> Seq<H::Hash>
    decreases fresh.len(),
{
    if fresh.len() <= 1 {
        Seq::empty()
    } else {
        let half = fresh.len() as int / 2;
        let left = rehashed_nodes::<F, H>(nodes.take(2 * half - 2), fresh.take(half));
        let right = rehashed_nodes::<F, H>(nodes.skip(2 * half), fresh.skip(half));
        left + seq![
            rehashed_root::<F, H>(nodes[2 * half - 2], left, fresh.take(half)),
            rehashed_root::<F, H>(nodes[2 * half - 1], right, fresh.skip(half)),
        ] + right
    }
}

/// Subtree `s` and its entry of the cap have followed the change of the leaves from `start` on
/// to leaves with the digests `new`.
pub open spec fn subtree_rehashed<F: RichField, H: Hasher<F>>(
    digests_before: Seq<H::Hash>,
    cap_before: Seq<H::Hash>,
    digests: Seq<H::Hash>,
    cap: Seq<H::Hash>,
    width: int,
    s: int,
    start: int,
    new: Seq<H::Hash>,
) -> bool {
    let changed = fresh(start, new, s * width, width);
    let after = subtree(digests, width, s);
    &&& after == rehashed_nodes::<F, H>(subtree(digests_before, width, s), changed)
    &&& cap[s] == rehashed_root::<F, H>(cap_before[s], after, changed)
}

/// The digests and the cap have followed the change of the leaves from `start` on to leaves with
/// the digests `new`.
pub open spec fn rehashed<F: RichField, H: Hasher<F>>(
    digests_before: Seq<H::Hash>,
    cap_before: Seq<H::Hash>,
    digests: Seq<H::Hash>,
    cap: Seq<H::Hash>,
    width: int,
    start: int,
    new: Seq<H::Hash>,
) -> bool {
    &&& digests.len() == digests_before.len()
    &&& cap.len() == cap_before.len()
    &&& forall|s: int|
        0 <= s < cap.len() ==> #[trigger] subtree_rehashed::<F, H>(
            digests_before,
            cap_before,
            digests,
            cap,
            width,
            s,
            start,
            new,
        )
}

/// A tree can be built over `len` elements: in leaves of `leaf_size` there is a power of two of
/// them, and no less than the cap of height `cap_height` has entries.
pub open spec fn buildable(len: int, leaf_size: int, cap_height: int) -> bool {
    &&& leaf_size > 0
    &&& cap_height >= 0
    &&& is_pow2(len / leaf_size)
    &&& pow2(cap_height as nat) <= len / leaf_size
}

/// The sizes of a tree that can be built.
pub proof fn lemma_buildable(len: usize, leaf_size: usize, cap_height: usize)
    requires
        buildable(len as int, leaf_size as int, cap_height as int),
    ensures
        ({
            let count = len as int / leaf_size as int;
            let caps = pow2(cap_height as nat) as int;
            let width = count / caps;
            &&& cap_height < usize::BITS
            &&& 0 < caps <= count
            &&& 1 <= width <= count
            &&& is_pow2(width)
            &&& is_pow2(caps)
            &&& width * leaf_size <= count * leaf_size
            &&& caps * width == count
            &&& count * leaf_size <= len
            &&& caps * (width * leaf_size) == count * leaf_size
            &&& width == 1 <==> caps == count
            &&& caps * (2 * width - 2) == 2 * (count - caps)
            &&& 2 * (count - caps) <= usize::MAX
        }),
{
    let h = cap_height as nat;
    let count = len as int / leaf_size as int;
    lemma_fundamental_div_mod(len as int, leaf_size as int);
    assert(leaf_size * count == count * leaf_size) by (nonlinear_arith);
    assert(count <= len) by (nonlinear_arith)
        requires
            count * leaf_size <= len,
            leaf_size >= 1,
            count >= 0,
    ;
    let k = lemma_exponent(count);
    lemma_pow2_ordered(h, k);
    lemma_pow2_split(k, h);
    lemma_pow2_is_pow2((k - h) as nat);
    lemma_pow2_is_pow2(h);
    lemma_exponent_fits(k, count as usize);
    lemma_doubles(count as usize);
    let caps = pow2(h) as int;
    let width = count / caps;
    assert(caps * (width * leaf_size) == count * leaf_size && caps * (2 * width - 2) == 2 * (count
        - caps)) by (nonlinear_arith)
        requires
            caps * width == count,
    ;
    lemma_pow2_ordered((k - h) as nat, k);
    assert(width * leaf_size <= count * leaf_size) by (nonlinear_arith)
        requires
            width <= count,
            leaf_size >= 0,
    ;
    if width == 1 {
        assert(caps * 1 == caps);
    } else if caps == count {
        lemma_div_by_self(caps);
    }
}

/// Subtree `s` of `caps` lies within the digests.
pub proof fn lemma_subtree_within(caps: int, width: int, s: int)
    requires
        width > 0,
        0 <= s < caps,
    ensures
        0 <= s * (2 * width - 2),
        (s + 1) * (2 * width - 2) == s * (2 * width - 2) + (2 * width - 2),
        (s + 1) * (2 * width - 2) <= caps * (2 * width - 2),
{
    assert(0 <= s * (2 * width - 2) && (s + 1) * (2 * width - 2) == s * (2 * width - 2) + (2 * width
        - 2) && (s + 1) * (2 * width - 2) <= caps * (2 * width - 2)) by (nonlinear_arith)
        requires
            width > 0,
            0 <= s < caps,
    ;
}

/// A subtree of `n` leaves has `2 * n - 2` digests.
pub proof fn lemma_subtree_len<F: RichField, H: Hasher<F>>(bottom: Seq<H::Hash>)
    requires
        bottom.len() >= 1,
    ensures
        subtree_digests::<F, H>(bottom).len() == 2 * bottom.len() - 2,
    decreases bottom.len(),
{
    if bottom.len() > 1 {
        let half = bottom.len() as int / 2;
        lemma_subtree_len::<F, H>(bottom.take(half));
        lemma_subtree_len::<F, H>(bottom.skip(half));
    }
}

/// A change keeps the number of digests of a subtree.
pub proof fn lemma_rehashed_len<F: RichField, H: Hasher<F>>(
    nodes: Seq<H::Hash>,
    fresh: Seq<Option<H::Hash>>,
)
    requires
        fresh.len() >= 1,
    ensures
        rehashed_nodes::<F, H>(nodes, fresh).len() == 2 * fresh.len() - 2,
    decreases fresh.len(),
{
    if fresh.len() > 1 {
        let half = fresh.len() as int / 2;
        lemma_rehashed_len::<F, H>(nodes.take(2 * half - 2), fresh.take(half));
        lemma_rehashed_len::<F, H>(nodes.skip(2 * half), fresh.skip(half));
    }
}

/// Where no leaf has a new digest, a subtree stays as it is.
pub proof fn lemma_none_fresh<F: RichField, H: Hasher<F>>(
    nodes: Seq<H::Hash>,
    fresh: Seq<Option<H::Hash>>,
)
    requires
        fresh.len() >= 1,
        nodes.len() == 2 * fresh.len() - 2,
        none_fresh(fresh),
    ensures
        rehashed_nodes::<F, H>(nodes, fresh) == nodes,
    decreases fresh.len(),
{
    if fresh.len() > 1 {
        let half = fresh.len() as int / 2;
        lemma_none_fresh::<F, H>(nodes.take(2 * half - 2), fresh.take(half));
        lemma_none_fresh::<F, H>(nodes.skip(2 * half), fresh.skip(half));
    }
    assert(rehashed_nodes::<F, H>(nodes, fresh) =~= nodes);
}

/// The new digests of the leaves of the two halves of a subtree.
pub proof fn lemma_fresh_halves<T>(start: int, digests: Seq<T>, first: int, count: int)
    requires
        count >= 2,
    ensures
        fresh(start, digests, first, count).take(count / 2) == fresh(
            start,
            digests,
            first,
            count / 2,
        ),
        fresh(start, digests, first, count).skip(count / 2) == fresh(
            start,
            digests,
            first + count / 2,
            count - count / 2,
        ),
{
    assert(fresh(start, digests, first, count).take(count / 2) =~= fresh(
        start,
        digests,
        first,
        count / 2,
    ));
    assert(fresh(start, digests, first, count).skip(count / 2) =~= fresh(
        start,
        digests,
        first + count / 2,
        count - count / 2,
    ));
}

/// `bottom` with the new digests in place of those that they replace.
pub open spec fn replaced<T>(bottom: Seq<T>, fresh: Seq<Option<T>>) -> Seq<T> {
    Seq::new(
        bottom.len(),
        |r: int|
            match fresh[r] {
                Some(digest) => digest,
                None => bottom[r],
            },
    )
}

/// A change of leaves leaves the digests of a subtree the hashes of its leaves.
pub proof fn lemma_rehashed_is_hashed<F: RichField, H: Hasher<F>>(
    bottom: Seq<H::Hash>,
    fresh: Seq<Option<H::Hash>>,
)
    requires
        bottom.len() >= 1,
        fresh.len() == bottom.len(),
    ensures
        ({
            let after = rehashed_nodes::<F, H>(subtree_digests::<F, H>(bottom), fresh);
            &&& after == subtree_digests::<F, H>(replaced(bottom, fresh))
            &&& rehashed_root::<F, H>(root_digest::<F, H>(bottom), after, fresh) == root_digest::<
                F,
                H,
            >(replaced(bottom, fresh))
        }),
    decreases bottom.len(),
{
    let nodes = subtree_digests::<F, H>(bottom);
    let now = replaced(bottom, fresh);
    if none_fresh(fresh) {
        assert(now =~= bottom);
        lemma_subtree_len::<F, H>(bottom);
        lemma_none_fresh::<F, H>(nodes, fresh);
    } else if bottom.len() > 1 {
        let half = bottom.len() as int / 2;
        let left = bottom.take(half);
        let right = bottom.skip(half);
        lemma_subtree_len::<F, H>(left);
        lemma_subtree_len::<F, H>(right);
        lemma_rehashed_is_hashed::<F, H>(left, fresh.take(half));
        lemma_rehashed_is_hashed::<F, H>(right, fresh.skip(half));
        assert(nodes.take(2 * half - 2) =~= subtree_digests::<F, H>(left));
        assert(nodes.skip(2 * half) =~= subtree_digests::<F, H>(right));
        assert(now.take(half) =~= replaced(left, fresh.take(half)));
        assert(now.skip(half) =~= replaced(right, fresh.skip(half)));
        lemma_subtree_len::<F, H>(now.take(half));
    }
}

/// The sizes of a cap over `count` leaves.
pub proof fn lemma_cap_fits(count: usize, cap_height: usize)
    requires
        is_pow2(count as int),
        pow2(cap_height as nat) <= count,
    ensures
        cap_height < usize::BITS,
        0 < pow2(cap_height as nat),
        is_pow2(pow2(cap_height as nat) as int),
        2 * (count - pow2(cap_height as nat)) <= usize::MAX,
{
    assert(count as int / 1 == count);
    lemma_buildable(count, 1, cap_height);
}

} // verus!

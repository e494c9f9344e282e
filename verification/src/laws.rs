//! What holds of trees as a whole.

use crate::config::{Hasher, RichField};
use crate::device::{device_digest, device_digests, from_device, ByteOrder};
use crate::fill::{fillable, filled_width, lemma_leaf_fits, part};
use crate::layout::{
    buildable, fresh, hashed, leaf_at, leaf_digest, leaf_digests, lemma_buildable,
    lemma_none_fresh, lemma_rehashed_is_hashed, lemma_rehashed_len, lemma_subtree_len,
    lemma_subtree_within, none_fresh, padded_rows, rehashed, rehashed_nodes, rehashed_root,
    replaced, root_digest, row_digests, subtree, subtree_digests, subtree_ok, subtree_rehashed,
    with_rows,
};
use crate::levels::{lemma_regrouped_is_hashed, levels_hashed, levels_root, regrouped};
use crate::merkle_proofs::{path, path_root};
use crate::merkle_tree::MerkleTree;
use crate::range_update::lemma_with_rows_push;
use crate::update::{lemma_element_place, lemma_place, lemma_sized};
use crate::util::{
    lemma_exponent, lemma_pow2_is_pow2, lemma_pow2_ordered, lemma_pow2_split, lemma_pow2_zero,
};
use vstd::arithmetic::div_mod::{lemma_div_denominator, lemma_fundamental_div_mod_converse};
use vstd::arithmetic::power2::{is_pow2, lemma_pow2_pos, lemma_pow2_unfold, pow2};
use vstd::prelude::*;

verus! {

/// A tree can be built wherever the whole leaves are `2^k` and the cap is not higher than `k`, for
/// leaves of any size but zero; and nowhere else.
pub proof fn law_what_can_be_built(len: int, leaf_size: int, cap_height: int)
    requires
        len >= 0,
    ensures
        buildable(len, leaf_size, cap_height) <==> leaf_size > 0 && (exists|k: nat|
            len / leaf_size == #[trigger] pow2(k) && 0 <= cap_height <= k),
{
    if buildable(len, leaf_size, cap_height) {
        let k = lemma_exponent(len / leaf_size);
        lemma_pow2_ordered(cap_height as nat, k);
        assert(len / leaf_size == pow2(k));
    }
    if leaf_size > 0 && (exists|k: nat|
        len / leaf_size == #[trigger] pow2(k) && 0 <= cap_height <= k) {
        let k = choose|k: nat| len / leaf_size == #[trigger] pow2(k) && 0 <= cap_height <= k;
        lemma_pow2_is_pow2(k);
        lemma_pow2_ordered(cap_height as nat, k);
    }
}

/// Digests and a cap can be filled where each leaf has its entry of the cap and there are no
/// digests, at any height; and where the sizes are those of a tree that can be built. Under each
/// entry there are then as many leaves as there are leaves for each entry.
pub proof fn law_what_can_be_filled(
    len: int,
    leaf_size: int,
    digests_len: int,
    cap_len: int,
    cap_height: int,
)
    requires
        len >= 0,
        leaf_size > 0,
    ensures
        digests_len == 0 ==> (fillable(len, leaf_size, digests_len, cap_len, cap_height)
            <==> cap_len == len / leaf_size),
        digests_len != 0 ==> (fillable(len, leaf_size, digests_len, cap_len, cap_height) <==> (
        exists|k: nat|
            len / leaf_size == #[trigger] pow2(k) && 0 <= cap_height <= k && cap_len == pow2(
                cap_height as nat,
            ) && digests_len == 2 * (pow2(k) - cap_len))),
        cap_len > 0 && fillable(len, leaf_size, digests_len, cap_len, cap_height) ==> cap_len
            * filled_width(len, leaf_size, digests_len, cap_len) == len / leaf_size,
{
    law_what_can_be_built(len, leaf_size, cap_height);
    if digests_len != 0 && fillable(len, leaf_size, digests_len, cap_len, cap_height) {
        let k = choose|k: nat| len / leaf_size == #[trigger] pow2(k) && 0 <= cap_height <= k;
        lemma_pow2_split(k, cap_height as nat);
    }
}

/// A tree has the right sizes where it has `2^k` whole leaves, a cap of `2^h` entries with `h` at
/// most `k`, and twice as many digests as leaves less entries; and only then.
pub proof fn law_sizes<F: RichField, H: Hasher<F>>(tree: MerkleTree<F, H>)
    ensures
        tree.leaves_count() == tree.leaves@.len() as int / tree.leaf_size as int,
        tree.sized() <==> tree.leaf_size > 0 && (exists|k: nat, h: nat|
            tree.leaves@.len() as int / tree.leaf_size as int == #[trigger] pow2(k)
                && tree.cap.0@.len() == #[trigger] pow2(h) && h <= k && tree.digests@.len() == 2 * (
            pow2(k) - pow2(h))),
        tree.sized() ==> tree.cap.0@.len() * tree.width() == tree.leaves@.len() as int
            / tree.leaf_size as int,
{
    let count = tree.leaves@.len() as int / tree.leaf_size as int;
    if tree.sized() {
        lemma_sized(tree);
        let k = lemma_exponent(count);
        let h = lemma_exponent(tree.cap.0@.len() as int);
        lemma_pow2_ordered(h, k);
        assert(count == pow2(k) && tree.cap.0@.len() == pow2(h));
    }
    if tree.leaf_size > 0 && (exists|k: nat, h: nat|
        count == #[trigger] pow2(k) && tree.cap.0@.len() == #[trigger] pow2(h) && h <= k
            && tree.digests@.len() == 2 * (pow2(k) - pow2(h))) {
        let (k, h) = choose|k: nat, h: nat|
            count == #[trigger] pow2(k) && tree.cap.0@.len() == #[trigger] pow2(h) && h <= k
                && tree.digests@.len() == 2 * (pow2(k) - pow2(h));
        lemma_pow2_is_pow2(k);
        lemma_pow2_is_pow2(h);
        lemma_pow2_ordered(h, k);
    }
}

/// Leaf `i` are the `leaf_size` elements behind those of the leaves before it.
pub proof fn law_leaf_elements<F>(leaves: Seq<F>, leaf_size: int, i: int, c: int)
    requires
        0 <= i,
        0 <= c < leaf_size,
        i * leaf_size + leaf_size <= leaves.len(),
    ensures
        leaf_at(leaves, leaf_size, i).len() == leaf_size,
        leaf_at(leaves, leaf_size, i)[c] == leaves[i * leaf_size + c],
{
    assert(0 <= i * leaf_size && (i + 1) * leaf_size == i * leaf_size + leaf_size)
        by (nonlinear_arith)
        requires
            0 <= i,
            leaf_size > 0,
    ;
}

/// Of parts of the same length, part `c` are the elements behind those of the parts before it.
pub proof fn law_part_elements<T>(elements: Seq<T>, len: int, c: int, x: int)
    requires
        0 <= c,
        0 <= x < len,
        c * len + len <= elements.len(),
    ensures
        part(elements, len, c).len() == len,
        part(elements, len, c)[x] == elements[c * len + x],
{
    assert(0 <= c * len && (c + 1) * len == c * len + len) by (nonlinear_arith)
        requires
            0 <= c,
            len > 0,
    ;
}

/// Rows are taken as they are, each in its turn, but for empty ones, which become zeros, as many as
/// the first row has elements.
pub proof fn law_padded_row<F: RichField>(rows: Seq<Vec<F>>, i: int)
    requires
        0 <= i < rows.len(),
    ensures
        padded_rows(rows).len() == rows.len(),
        rows[i]@.len() > 0 ==> padded_rows(rows)[i] == rows[i]@,
        rows[i]@.len() == 0 ==> padded_rows(rows)[i].len() == rows[0]@.len(),
        rows[i]@.len() == 0 ==> forall|c: int|
            0 <= c < rows[0]@.len() ==> #[trigger] padded_rows(rows)[i][c]
                == F::spec_from_canonical_u64(0),
{
}

/// After a change, the changed leaves hold the new rows, and the others what they held before.
pub proof fn law_changed_leaves<F>(
    leaves: Seq<F>,
    leaf_size: int,
    start: int,
    rows: Seq<Seq<F>>,
    i: int,
)
    requires
        leaf_size > 0,
        0 <= i < leaves.len() as int / leaf_size,
        forall|j: int| 0 <= j < rows.len() ==> (#[trigger] rows[j]).len() >= leaf_size,
    ensures
        leaf_at(with_rows(leaves, leaf_size, start, rows), leaf_size, i) == if start <= i < start
            + rows.len() {
            rows[i - start].take(leaf_size)
        } else {
            leaf_at(leaves, leaf_size, i)
        },
{
    lemma_leaf_fits(leaves.len() as int, leaf_size, i);
    let changed = with_rows(leaves, leaf_size, start, rows);
    let leaf = leaf_at(changed, leaf_size, i);
    assert forall|j: int| 0 <= j < leaf_size implies #[trigger] leaf[j] == if start <= i < start
        + rows.len() {
        rows[i - start][j]
    } else {
        leaves[i * leaf_size + j]
    } by {
        lemma_element_place(i * leaf_size + j, leaf_size, i);
    }
    if start <= i < start + rows.len() {
        assert(rows[i - start].len() >= leaf_size);
        assert(leaf =~= rows[i - start].take(leaf_size));
    } else {
        assert(leaf =~= leaf_at(leaves, leaf_size, i));
    }
}

/// Digests and cap that follow a change of leaves stay the hashes of the leaves.
pub proof fn law_changes_keep_hashes<F: RichField, H: Hasher<F>>(
    leaves: Seq<F>,
    leaf_size: int,
    digests_before: Seq<H::Hash>,
    cap_before: Seq<H::Hash>,
    digests: Seq<H::Hash>,
    cap: Seq<H::Hash>,
    width: int,
    start: int,
    rows: Seq<Seq<F>>,
)
    requires
        leaf_size > 0,
        width >= 1,
        0 <= start,
        cap_before.len() * width == leaves.len() as int / leaf_size,
        forall|j: int| 0 <= j < rows.len() ==> (#[trigger] rows[j]).len() == leaf_size,
        hashed::<F, H>(leaves, leaf_size, digests_before, cap_before, width),
        rehashed::<F, H>(
            digests_before,
            cap_before,
            digests,
            cap,
            width,
            start,
            row_digests::<F, H>(rows),
        ),
    ensures
        hashed::<F, H>(
            with_rows(leaves, leaf_size, start, rows),
            leaf_size,
            digests,
            cap,
            width,
        ),
{
    let now = with_rows(leaves, leaf_size, start, rows);
    let new = row_digests::<F, H>(rows);
    assert forall|s: int| 0 <= s < cap.len() implies #[trigger] subtree_ok::<F, H>(
        now,
        leaf_size,
        digests,
        cap,
        width,
        s,
    ) by {
        assert(subtree_ok::<F, H>(leaves, leaf_size, digests_before, cap_before, width, s));
        assert(subtree_rehashed::<F, H>(
            digests_before,
            cap_before,
            digests,
            cap,
            width,
            s,
            start,
            new,
        ));
        let bottom = leaf_digests::<F, H>(leaves, leaf_size, s * width, width);
        let bottom_now = leaf_digests::<F, H>(now, leaf_size, s * width, width);
        let changed = fresh(start, new, s * width, width);
        lemma_rehashed_is_hashed::<F, H>(bottom, changed);
        assert forall|r: int| 0 <= r < width implies #[trigger] bottom_now[r] == replaced(
            bottom,
            changed,
        )[r] by {
            let i = s * width + r;
            assert(0 <= i < cap_before.len() * width) by (nonlinear_arith)
                requires
                    i == s * width + r,
                    0 <= s,
                    s + 1 <= cap_before.len(),
                    0 <= r < width,
            ;
            law_changed_leaves(leaves, leaf_size, start, rows, i);
            if start <= i < start + rows.len() {
                assert(rows[i - start].take(leaf_size) =~= rows[i - start]);
            }
        }
        assert(bottom_now =~= replaced(bottom, changed));
    }
}

/// Digests whose subtrees are the same are the same.
proof fn lemma_same_subtrees<T>(a: Seq<T>, b: Seq<T>, caps: int, width: int)
    requires
        width >= 1,
        caps >= 0,
        a.len() == caps * (2 * width - 2),
        b.len() == a.len(),
        forall|s: int|
            0 <= s < caps ==> #[trigger] subtree(a, width, s) == subtree(b, width, s),
    ensures
        a == b,
{
    let d = 2 * width - 2;
    assert forall|p: int| 0 <= p < a.len() implies a[p] == b[p] by {
        if width > 1 {
            lemma_place(caps, d, p);
            let s = p / d;
            lemma_subtree_within(caps, width, s);
            assert(subtree(a, width, s) == subtree(b, width, s));
            assert(subtree(a, width, s)[p % d] == a[p]);
            assert(subtree(b, width, s)[p % d] == b[p]);
        } else {
            assert(caps * d == 0) by (nonlinear_arith)
                requires
                    d == 0,
            ;
        }
    }
    assert(a =~= b);
}

/// The leaves determine the digests and the cap.
pub proof fn law_leaves_determine_hashes<F: RichField, H: Hasher<F>>(
    leaves: Seq<F>,
    leaf_size: int,
    width: int,
    digests_a: Seq<H::Hash>,
    cap_a: Seq<H::Hash>,
    digests_b: Seq<H::Hash>,
    cap_b: Seq<H::Hash>,
)
    requires
        width >= 1,
        cap_a.len() == cap_b.len(),
        hashed::<F, H>(leaves, leaf_size, digests_a, cap_a, width),
        hashed::<F, H>(leaves, leaf_size, digests_b, cap_b, width),
    ensures
        digests_a == digests_b,
        cap_a == cap_b,
{
    let caps = cap_a.len() as int;
    assert forall|s: int| 0 <= s < caps implies #[trigger] cap_a[s] == cap_b[s] && subtree(
        digests_a,
        width,
        s,
    ) == subtree(digests_b, width, s) by {
        assert(subtree_ok::<F, H>(leaves, leaf_size, digests_a, cap_a, width, s));
        assert(subtree_ok::<F, H>(leaves, leaf_size, digests_b, cap_b, width, s));
    }
    assert(cap_a =~= cap_b);
    assert forall|s: int| 0 <= s < caps implies #[trigger] subtree(digests_a, width, s) == subtree(
        digests_b,
        width,
        s,
    ) by {
        assert(cap_a[s] == cap_b[s]);
    }
    lemma_same_subtrees(digests_a, digests_b, caps, width);
}

/// What is filled from leaves is determined by the arguments: `fill_digests_buf_meta` gives exactly
/// what `fill_digests_buf` gives, wherever they can be called.
pub proof fn law_filled_alike<F: RichField, H: Hasher<F>>(
    digests_len: usize,
    cap_len: usize,
    leaves: Vec<F>,
    leaf_size: usize,
    cap_height: usize,
    a: (Seq<H::Hash>, Seq<H::Hash>),
    b: (Seq<H::Hash>, Seq<H::Hash>),
)
    requires
        fillable(
            leaves@.len() as int,
            leaf_size as int,
            digests_len as int,
            cap_len as int,
            cap_height as int,
        ),
        a.1.len() == cap_len,
        b.1.len() == cap_len,
        ({
            let width = filled_width(
                leaves@.len() as int,
                leaf_size as int,
                digests_len as int,
                cap_len as int,
            );
            &&& hashed::<F, H>(leaves@, leaf_size as int, a.0, a.1, width)
            &&& hashed::<F, H>(leaves@, leaf_size as int, b.0, b.1, width)
        }),
    ensures
        a == b,
{
    if digests_len > 0 {
        assert(leaves@.len() == leaves.len());
        lemma_buildable(leaves.len(), leaf_size, cap_height);
    }
    law_leaves_determine_hashes::<F, H>(
        leaves@,
        leaf_size as int,
        filled_width(
            leaves@.len() as int,
            leaf_size as int,
            digests_len as int,
            cap_len as int,
        ),
        a.0,
        a.1,
        b.0,
        b.1,
    );
}

/// A change of leaves keeps the sizes of a tree.
pub proof fn law_changes_keep_sizes<F: RichField, H: Hasher<F>>(
    before: MerkleTree<F, H>,
    after: MerkleTree<F, H>,
    start: int,
    rows: Seq<Seq<F>>,
)
    requires
        before.sized(),
        after.follows(&before, start, rows),
    ensures
        after.sized(),
        after.leaves_count() == before.leaves_count(),
        after.cap.0@.len() == before.cap.0@.len(),
        after.width() == before.width(),
{
}

/// Trees over the same leaves with caps of the same height are the same.
pub proof fn law_same_leaves_same_tree<F: RichField, H: Hasher<F>>(
    a: MerkleTree<F, H>,
    b: MerkleTree<F, H>,
)
    requires
        a.sized(),
        a.hashed(),
        b.hashed(),
        a.leaves@ == b.leaves@,
        a.leaf_size == b.leaf_size,
        a.cap.0@.len() == b.cap.0@.len(),
    ensures
        a.digests@ == b.digests@,
        a.cap.0@ == b.cap.0@,
{
    lemma_sized(a);
    law_leaves_determine_hashes::<F, H>(
        a.leaves@,
        a.leaf_size as int,
        a.width(),
        a.digests@,
        a.cap.0@,
        b.digests@,
        b.cap.0@,
    );
}

/// Changing leaves gives the tree that is built over the changed leaves.
pub proof fn law_change_is_rebuild<F: RichField, H: Hasher<F>>(
    before: MerkleTree<F, H>,
    after: MerkleTree<F, H>,
    rebuilt: MerkleTree<F, H>,
    start: int,
    rows: Seq<Seq<F>>,
)
    requires
        before.sized(),
        before.hashed(),
        0 <= start,
        forall|j: int| 0 <= j < rows.len() ==> (#[trigger] rows[j]).len() == before.leaf_size,
        after.follows(&before, start, rows),
        rebuilt.hashed(),
        rebuilt.leaves@ == with_rows(before.leaves@, before.leaf_size as int, start, rows),
        rebuilt.leaf_size == before.leaf_size,
        rebuilt.cap.0@.len() == before.cap.0@.len(),
    ensures
        after.hashed(),
        after.leaves@ == rebuilt.leaves@,
        after.digests@ == rebuilt.digests@,
        after.cap.0@ == rebuilt.cap.0@,
{
    lemma_sized(before);
    law_changes_keep_sizes(before, after, start, rows);
    law_changes_keep_hashes::<F, H>(
        before.leaves@,
        before.leaf_size as int,
        before.digests@,
        before.cap.0@,
        after.digests@,
        after.cap.0@,
        before.width(),
        start,
        rows,
    );
    law_same_leaves_same_tree(after, rebuilt);
}

/// New digests, and then others: what each leaf has in the end.
pub open spec fn overlaid<T>(first: Seq<Option<T>>, second: Seq<Option<T>>) -> Seq<Option<T>> {
    Seq::new(
        first.len(),
        |r: int|
            if second[r] is Some {
                second[r]
            } else {
                first[r]
            },
    )
}

/// Two changes, one after the other, are one change.
proof fn lemma_rehashed_twice<F: RichField, H: Hasher<F>>(
    nodes: Seq<H::Hash>,
    root: H::Hash,
    first: Seq<Option<H::Hash>>,
    second: Seq<Option<H::Hash>>,
)
    requires
        first.len() >= 1,
        second.len() == first.len(),
        nodes.len() == 2 * first.len() - 2,
    ensures
        ({
            let between = rehashed_nodes::<F, H>(nodes, first);
            let after = rehashed_nodes::<F, H>(between, second);
            let both = overlaid(first, second);
            &&& after == rehashed_nodes::<F, H>(nodes, both)
            &&& rehashed_root::<F, H>(
                rehashed_root::<F, H>(root, between, first),
                after,
                second,
            ) == rehashed_root::<F, H>(root, after, both)
        }),
    decreases first.len(),
{
    let between = rehashed_nodes::<F, H>(nodes, first);
    let after = rehashed_nodes::<F, H>(between, second);
    let both = overlaid(first, second);
    lemma_rehashed_len::<F, H>(nodes, first);
    if none_fresh(second) {
        lemma_none_fresh::<F, H>(between, second);
        assert(both =~= first);
    } else {
        let r = choose|r: int| 0 <= r < second.len() && !(#[trigger] second[r] is None);
        assert(both[r] is Some);
        if first.len() > 1 {
            let half = first.len() as int / 2;
            let left = nodes.take(2 * half - 2);
            let right = nodes.skip(2 * half);
            lemma_rehashed_twice::<F, H>(
                left,
                nodes[2 * half - 2],
                first.take(half),
                second.take(half),
            );
            lemma_rehashed_twice::<F, H>(
                right,
                nodes[2 * half - 1],
                first.skip(half),
                second.skip(half),
            );
            lemma_rehashed_len::<F, H>(left, first.take(half));
            lemma_rehashed_len::<F, H>(right, first.skip(half));
            assert(between.take(2 * half - 2) =~= rehashed_nodes::<F, H>(left, first.take(half)));
            assert(between.skip(2 * half) =~= rehashed_nodes::<F, H>(right, first.skip(half)));
            assert(both.take(half) =~= overlaid(first.take(half), second.take(half)));
            assert(both.skip(half) =~= overlaid(first.skip(half), second.skip(half)));
        }
    }
}

/// A change determines the tree that it gives.
pub proof fn law_change_is_determined<F: RichField, H: Hasher<F>>(
    before: MerkleTree<F, H>,
    a: MerkleTree<F, H>,
    b: MerkleTree<F, H>,
    start: int,
    rows: Seq<Seq<F>>,
)
    requires
        before.sized(),
        a.follows(&before, start, rows),
        b.follows(&before, start, rows),
    ensures
        a.leaves@ == b.leaves@,
        a.leaf_size == b.leaf_size,
        a.digests@ == b.digests@,
        a.cap.0@ == b.cap.0@,
{
    let caps = before.cap.0@.len() as int;
    let width = before.width();
    let new = row_digests::<F, H>(rows);
    lemma_sized(before);
    assert forall|s: int| 0 <= s < caps implies #[trigger] a.cap.0@[s] == b.cap.0@[s] && subtree(
        a.digests@,
        width,
        s,
    ) == subtree(b.digests@, width, s) by {
        assert(subtree_rehashed::<F, H>(
            before.digests@,
            before.cap.0@,
            a.digests@,
            a.cap.0@,
            width,
            s,
            start,
            new,
        ));
        assert(subtree_rehashed::<F, H>(
            before.digests@,
            before.cap.0@,
            b.digests@,
            b.cap.0@,
            width,
            s,
            start,
            new,
        ));
    }
    assert(a.cap.0@ =~= b.cap.0@);
    assert forall|s: int| 0 <= s < caps implies #[trigger] subtree(a.digests@, width, s) == subtree(
        b.digests@,
        width,
        s,
    ) by {
        assert(a.cap.0@[s] == b.cap.0@[s]);
    }
    lemma_same_subtrees(a.digests@, b.digests@, caps, width);
}

/// In one subtree, two changes, one after the other, are one change.
proof fn lemma_subtree_twice<F: RichField, H: Hasher<F>>(
    before: MerkleTree<F, H>,
    between: MerkleTree<F, H>,
    after: MerkleTree<F, H>,
    start: int,
    rows: Seq<Seq<F>>,
    start_then: int,
    rows_then: Seq<Seq<F>>,
    s: int,
)
    requires
        before.sized(),
        between.follows(&before, start, rows),
        after.follows(&between, start_then, rows_then),
        0 <= s < before.cap.0@.len(),
    ensures
        ({
            let width = before.width();
            let both = overlaid(
                fresh(start, row_digests::<F, H>(rows), s * width, width),
                fresh(start_then, row_digests::<F, H>(rows_then), s * width, width),
            );
            let nodes = subtree(after.digests@, width, s);
            &&& nodes == rehashed_nodes::<F, H>(subtree(before.digests@, width, s), both)
            &&& after.cap.0@[s] == rehashed_root::<F, H>(before.cap.0@[s], nodes, both)
        }),
{
    let caps = before.cap.0@.len() as int;
    let width = before.width();
    lemma_sized(before);
    lemma_subtree_within(caps, width, s);
    assert(subtree_rehashed::<F, H>(
        before.digests@,
        before.cap.0@,
        between.digests@,
        between.cap.0@,
        width,
        s,
        start,
        row_digests::<F, H>(rows),
    ));
    assert(subtree_rehashed::<F, H>(
        between.digests@,
        between.cap.0@,
        after.digests@,
        after.cap.0@,
        width,
        s,
        start_then,
        row_digests::<F, H>(rows_then),
    ));
    lemma_rehashed_twice::<F, H>(
        subtree(before.digests@, width, s),
        before.cap.0@[s],
        fresh(start, row_digests::<F, H>(rows), s * width, width),
        fresh(start_then, row_digests::<F, H>(rows_then), s * width, width),
    );
}

/// Changes of different leaves can be made in either order.
pub proof fn law_changes_commute<F: RichField, H: Hasher<F>>(
    before: MerkleTree<F, H>,
    a_between: MerkleTree<F, H>,
    a: MerkleTree<F, H>,
    b_between: MerkleTree<F, H>,
    b: MerkleTree<F, H>,
    start_one: int,
    rows_one: Seq<Seq<F>>,
    start_two: int,
    rows_two: Seq<Seq<F>>,
)
    requires
        before.sized(),
        start_one + rows_one.len() <= start_two || start_two + rows_two.len() <= start_one,
        a_between.follows(&before, start_one, rows_one),
        a.follows(&a_between, start_two, rows_two),
        b_between.follows(&before, start_two, rows_two),
        b.follows(&b_between, start_one, rows_one),
    ensures
        a.leaves@ == b.leaves@,
        a.leaf_size == b.leaf_size,
        a.digests@ == b.digests@,
        a.cap.0@ == b.cap.0@,
{
    let caps = before.cap.0@.len() as int;
    let width = before.width();
    lemma_sized(before);
    assert(a.leaves@ =~= b.leaves@);
    assert forall|s: int| 0 <= s < caps implies #[trigger] a.cap.0@[s] == b.cap.0@[s] && subtree(
        a.digests@,
        width,
        s,
    ) == subtree(b.digests@, width, s) by {
        lemma_subtree_twice(before, a_between, a, start_one, rows_one, start_two, rows_two, s);
        lemma_subtree_twice(before, b_between, b, start_two, rows_two, start_one, rows_one, s);
        let one = fresh(start_one, row_digests::<F, H>(rows_one), s * width, width);
        let two = fresh(start_two, row_digests::<F, H>(rows_two), s * width, width);
        assert(overlaid(one, two) =~= overlaid(two, one));
    }
    assert(a.cap.0@ =~= b.cap.0@);
    assert forall|s: int| 0 <= s < caps implies #[trigger] subtree(a.digests@, width, s) == subtree(
        b.digests@,
        width,
        s,
    ) by {
        assert(a.cap.0@[s] == b.cap.0@[s]);
    }
    lemma_same_subtrees(a.digests@, b.digests@, caps, width);
}

/// The trees on the way from `trees[0]` through changes of one leaf after the other.
pub open spec fn changed_one_by_one<F: RichField, H: Hasher<F>>(
    trees: Seq<MerkleTree<F, H>>,
    start: int,
    rows: Seq<Seq<F>>,
) -> bool {
    &&& trees.len() == rows.len() + 1
    &&& forall|j: int| #![trigger rows[j]]
        0 <= j < rows.len() ==> trees[j + 1].follows(&trees[j], start + j, seq![rows[j]])
}

/// Changing leaves one by one changes them all.
proof fn lemma_one_by_one<F: RichField, H: Hasher<F>>(
    trees: Seq<MerkleTree<F, H>>,
    start: int,
    rows: Seq<Seq<F>>,
    j: int,
)
    requires
        0 <= start,
        0 <= j <= rows.len(),
        changed_one_by_one(trees, start, rows),
        trees[0].sized(),
    ensures
        trees[j].follows(&trees[0], start, rows.take(j)),
    decreases j,
{
    let first = trees[0];
    let leaf_size = first.leaf_size as int;
    let caps = first.cap.0@.len() as int;
    let width = first.width();
    let taken = row_digests::<F, H>(rows.take(j));
    lemma_sized(first);
    if j == 0 {
        assert(with_rows(first.leaves@, leaf_size, start, rows.take(0)) =~= first.leaves@);
        assert forall|s: int| 0 <= s < caps implies #[trigger] subtree_rehashed::<F, H>(
            first.digests@,
            first.cap.0@,
            first.digests@,
            first.cap.0@,
            width,
            s,
            start,
            taken,
        ) by {
            lemma_subtree_within(caps, width, s);
            lemma_none_fresh::<F, H>(
                subtree(first.digests@, width, s),
                fresh(start, taken, s * width, width),
            );
        }
    } else {
        lemma_one_by_one(trees, start, rows, j - 1);
        let row = rows[j - 1];
        assert(trees[j - 1 + 1].follows(&trees[j - 1], start + (j - 1), seq![row]));
        lemma_with_rows_push(first.leaves@, leaf_size, start, rows, j - 1);
        assert forall|s: int| 0 <= s < caps implies #[trigger] subtree_rehashed::<F, H>(
            first.digests@,
            first.cap.0@,
            trees[j].digests@,
            trees[j].cap.0@,
            width,
            s,
            start,
            taken,
        ) by {
            lemma_subtree_twice(
                first,
                trees[j - 1],
                trees[j],
                start,
                rows.take(j - 1),
                start + (j - 1),
                seq![row],
                s,
            );
            assert(overlaid(
                fresh(start, row_digests::<F, H>(rows.take(j - 1)), s * width, width),
                fresh(start + (j - 1), row_digests::<F, H>(seq![row]), s * width, width),
            ) =~= fresh(start, taken, s * width, width));
        }
    }
}

/// Changing a range of leaves gives the same tree as changing them one by one.
pub proof fn law_range_is_one_by_one<F: RichField, H: Hasher<F>>(
    trees: Seq<MerkleTree<F, H>>,
    after: MerkleTree<F, H>,
    start: int,
    rows: Seq<Seq<F>>,
)
    requires
        0 <= start,
        changed_one_by_one(trees, start, rows),
        trees[0].sized(),
        after.follows(&trees[0], start, rows),
    ensures
        after.leaves@ == trees.last().leaves@,
        after.leaf_size == trees.last().leaf_size,
        after.digests@ == trees.last().digests@,
        after.cap.0@ == trees.last().cap.0@,
{
    lemma_one_by_one(trees, start, rows, rows.len() as int);
    assert(rows.take(rows.len() as int) =~= rows);
    law_change_is_determined(trees[0], after, trees.last(), start, rows);
}

/// The digest of node `j` on the layer `t` above the leaves.
pub open spec fn layer_node<F: RichField, H: Hasher<F>>(
    leaves: Seq<F>,
    leaf_size: int,
    t: nat,
    j: int,
) -> H::Hash
    decreases t,
{
    if t == 0 {
        leaf_digest::<F, H>(leaves, leaf_size, j)
    } else {
        H::spec_two_to_one(
            layer_node::<F, H>(leaves, leaf_size, (t - 1) as nat, 2 * j),
            layer_node::<F, H>(leaves, leaf_size, (t - 1) as nat, 2 * j + 1),
        )
    }
}

/// The digests of the leaves of the two halves of a subtree.
proof fn lemma_leaf_halves<F: RichField, H: Hasher<F>>(
    leaves: Seq<F>,
    leaf_size: int,
    first: int,
    count: int,
)
    requires
        count >= 2,
    ensures
        leaf_digests::<F, H>(leaves, leaf_size, first, count).take(count / 2) == leaf_digests::<
            F,
            H,
        >(leaves, leaf_size, first, count / 2),
        leaf_digests::<F, H>(leaves, leaf_size, first, count).skip(count / 2) == leaf_digests::<
            F,
            H,
        >(leaves, leaf_size, first + count / 2, count - count / 2),
{
    let all = leaf_digests::<F, H>(leaves, leaf_size, first, count);
    assert(all.take(count / 2) =~= leaf_digests::<F, H>(leaves, leaf_size, first, count / 2));
    assert(all.skip(count / 2) =~= leaf_digests::<F, H>(
        leaves,
        leaf_size,
        first + count / 2,
        count - count / 2,
    ));
}

/// A node on a layer is the root over the leaves below it.
proof fn lemma_layer_is_root<F: RichField, H: Hasher<F>>(
    leaves: Seq<F>,
    leaf_size: int,
    t: nat,
    j: int,
)
    ensures
        root_digest::<F, H>(
            leaf_digests::<F, H>(leaves, leaf_size, j * pow2(t), pow2(t) as int),
        ) == layer_node::<F, H>(leaves, leaf_size, t, j),
    decreases t,
{
    if t == 0 {
        lemma_pow2_zero();
        assert(j * 1 == j);
    } else {
        let u = (t - 1) as nat;
        lemma_pow2_unfold(t);
        lemma_pow2_pos(u);
        let half = pow2(u) as int;
        assert((2 * j) * half == j * (2 * half) && (2 * j + 1) * half == j * (2 * half) + half)
            by (nonlinear_arith);
        lemma_layer_is_root::<F, H>(leaves, leaf_size, u, 2 * j);
        lemma_layer_is_root::<F, H>(leaves, leaf_size, u, 2 * j + 1);
        lemma_leaf_halves::<F, H>(leaves, leaf_size, j * pow2(t), pow2(t) as int);
    }
}

/// The cap of height `h` of a tree with `2^k` leaves is its `h`-th layer from the root, which
/// lies `k - h` layers above the leaves.
pub proof fn law_cap_is_layer<F: RichField, H: Hasher<F>>(
    tree: MerkleTree<F, H>,
    k: nat,
    h: nat,
    j: int,
)
    requires
        tree.sized(),
        tree.hashed(),
        tree.leaves_count() == pow2(k),
        tree.cap.0@.len() == pow2(h),
        0 <= j < pow2(h),
    ensures
        h <= k,
        tree.cap.0@[j] == layer_node::<F, H>(
            tree.leaves@,
            tree.leaf_size as int,
            (k - h) as nat,
            j,
        ),
{
    lemma_pow2_ordered(h, k);
    lemma_pow2_split(k, h);
    assert(subtree_ok::<F, H>(
        tree.leaves@,
        tree.leaf_size as int,
        tree.digests@,
        tree.cap.0@,
        tree.width(),
        j,
    ));
    lemma_layer_is_root::<F, H>(tree.leaves@, tree.leaf_size as int, (k - h) as nat, j);
}

/// Each subtree is contiguous, one after the other, in equal parts of the digests.
pub proof fn law_subtrees_are_parts<F: RichField, H: Hasher<F>>(tree: MerkleTree<F, H>, i: int)
    requires
        tree.sized(),
        0 <= i < tree.cap.0@.len(),
    ensures
        ({
            let part = tree.digests@.len() as int / tree.cap.0@.len() as int;
            &&& 0 <= part * i <= part * (i + 1) <= tree.digests@.len()
            &&& subtree(tree.digests@, tree.width(), i) == tree.digests@.subrange(
                part * i,
                part * (i + 1),
            )
        }),
{
    lemma_sized(tree);
    lemma_subtree_within(tree.cap.0@.len() as int, tree.width(), i);
    let part = 2 * tree.width() - 2;
    assert(part * i == i * part && part * (i + 1) == (i + 1) * part) by (nonlinear_arith);
}

/// Within each subtree of two leaves or more the layout is that of the left child's subtree, the
/// left child's digest, the right child's digest, and the right child's subtree. The digest of
/// its root is the entry of the cap.
pub proof fn law_subtree_layout<F: RichField, H: Hasher<F>>(tree: MerkleTree<F, H>, s: int)
    requires
        tree.sized(),
        tree.hashed(),
        tree.width() >= 2,
        0 <= s < tree.cap.0@.len(),
    ensures
        ({
            let leaf_size = tree.leaf_size as int;
            let half = tree.width() / 2;
            let first = s * tree.width();
            let left = leaf_digests::<F, H>(tree.leaves@, leaf_size, first, half);
            let right = leaf_digests::<F, H>(tree.leaves@, leaf_size, first + half, half);
            &&& tree.width() == 2 * half
            &&& subtree(tree.digests@, tree.width(), s) == subtree_digests::<F, H>(left) + seq![
                root_digest::<F, H>(left),
                root_digest::<F, H>(right),
            ] + subtree_digests::<F, H>(right)
            &&& tree.cap.0@[s] == H::spec_two_to_one(
                root_digest::<F, H>(left),
                root_digest::<F, H>(right),
            )
        }),
{
    lemma_sized(tree);
    reveal(is_pow2);
    assert(subtree_ok::<F, H>(
        tree.leaves@,
        tree.leaf_size as int,
        tree.digests@,
        tree.cap.0@,
        tree.width(),
        s,
    ));
    lemma_leaf_halves::<F, H>(
        tree.leaves@,
        tree.leaf_size as int,
        s * tree.width(),
        tree.width(),
    );
}

/// The number of siblings on a path.
proof fn lemma_path_len<T>(nodes: Seq<T>, width: int, r: int)
    requires
        is_pow2(width),
    ensures
        pow2(path(nodes, width, r).len()) == width,
    decreases width,
{
    reveal(is_pow2);
    if width == 1 {
        lemma_pow2_zero();
    } else {
        let half = width / 2;
        if r < half {
            lemma_path_len(nodes.take(width - 2), half, r);
            lemma_pow2_unfold(path(nodes, width, r).len());
        } else {
            lemma_path_len(nodes.skip(width), half, r - half);
            lemma_pow2_unfold(path(nodes, width, r).len());
        }
    }
}

/// One sibling more leads one layer further up.
proof fn lemma_path_root_push<F: RichField, H: Hasher<F>>(
    digest: H::Hash,
    index: int,
    siblings: Seq<H::Hash>,
    last: H::Hash,
)
    requires
        index >= 0,
    ensures
        ({
            let below = path_root::<F, H>(digest, index, siblings);
            path_root::<F, H>(digest, index, siblings.push(last)) == if (index / pow2(
                siblings.len(),
            ) as int) % 2 == 1 {
                H::spec_two_to_one(last, below)
            } else {
                H::spec_two_to_one(below, last)
            }
        }),
    decreases siblings.len(),
{
    let more = siblings.push(last);
    if siblings.len() == 0 {
        lemma_pow2_zero();
        assert(more.drop_first() =~= Seq::<H::Hash>::empty());
        reveal_with_fuel(path_root, 2);
    } else {
        let parent = if index % 2 == 1 {
            H::spec_two_to_one(siblings[0], digest)
        } else {
            H::spec_two_to_one(digest, siblings[0])
        };
        let rest = siblings.drop_first();
        assert(more.drop_first() =~= rest.push(last));
        lemma_path_root_push::<F, H>(parent, index / 2, rest, last);
        lemma_pow2_unfold(siblings.len());
        lemma_pow2_pos(rest.len());
        lemma_div_denominator(index, 2, pow2(rest.len()) as int);
    }
}

/// In a subtree that holds the hashes of its leaves, the path of a leaf leads to the root. The
/// subtree is number `q` of its size.
proof fn lemma_path_leads<F: RichField, H: Hasher<F>>(bottom: Seq<H::Hash>, q: int, r: int)
    requires
        is_pow2(bottom.len() as int),
        0 <= q,
        0 <= r < bottom.len(),
    ensures
        path_root::<F, H>(
            bottom[r],
            q * bottom.len() + r,
            path(subtree_digests::<F, H>(bottom), bottom.len() as int, r),
        ) == root_digest::<F, H>(bottom),
    decreases bottom.len(),
{
    reveal(is_pow2);
    let width = bottom.len() as int;
    if width > 1 {
        let half = width / 2;
        let nodes = subtree_digests::<F, H>(bottom);
        let left = bottom.take(half);
        let right = bottom.skip(half);
        lemma_subtree_len::<F, H>(left);
        lemma_subtree_len::<F, H>(right);
        assert(nodes.take(width - 2) =~= subtree_digests::<F, H>(left));
        assert(nodes.skip(width) =~= subtree_digests::<F, H>(right));
        let index = q * width + r;
        assert(index == (2 * q) * half + r && index == (2 * q + 1) * half + (r - half) && index
            >= 0) by (nonlinear_arith)
            requires
                index == q * width + r,
                width == 2 * half,
                q >= 0,
                r >= 0,
                half >= 0,
        ;
        if r < half {
            lemma_path_leads::<F, H>(left, 2 * q, r);
            let below = path(subtree_digests::<F, H>(left), half, r);
            lemma_path_len(subtree_digests::<F, H>(left), half, r);
            lemma_fundamental_div_mod_converse(index, half, 2 * q, r);
            lemma_path_root_push::<F, H>(bottom[r], index, below, nodes[width - 1]);
        } else {
            lemma_path_leads::<F, H>(right, 2 * q + 1, r - half);
            let below = path(subtree_digests::<F, H>(right), half, r - half);
            lemma_path_len(subtree_digests::<F, H>(right), half, r - half);
            lemma_fundamental_div_mod_converse(index, half, 2 * q + 1, r - half);
            lemma_path_root_push::<F, H>(bottom[r], index, below, nodes[width - 2]);
        }
    }
}

/// The proof of a leaf leads to the entry of the cap over it: `verify_merkle_proof_to_cap`
/// accepts what `prove` gives, for every leaf of a tree.
pub proof fn law_proofs_verify<F: RichField, H: Hasher<F>>(
    tree: MerkleTree<F, H>,
    i: int,
    siblings: Seq<H::Hash>,
)
    requires
        tree.sized(),
        tree.hashed(),
        0 <= i < tree.leaves_count(),
        siblings == path(
            subtree(tree.digests@, tree.width(), i / tree.width()),
            tree.width(),
            i % tree.width(),
        ),
    ensures
        i / pow2(siblings.len()) as int == i / tree.width(),
        0 <= i / tree.width() < tree.cap.0@.len(),
        path_root::<F, H>(
            H::spec_hash_or_noop(leaf_at(tree.leaves@, tree.leaf_size as int, i)),
            i,
            siblings,
        ) == tree.cap.0@[i / tree.width()],
{
    let width = tree.width();
    let s = i / width;
    lemma_sized(tree);
    lemma_place(tree.cap.0@.len() as int, width, i);
    lemma_path_len(subtree(tree.digests@, width, s), width, i % width);
    assert(subtree_ok::<F, H>(
        tree.leaves@,
        tree.leaf_size as int,
        tree.digests@,
        tree.cap.0@,
        width,
        s,
    ));
    let bottom = leaf_digests::<F, H>(tree.leaves@, tree.leaf_size as int, s * width, width);
    lemma_path_leads::<F, H>(bottom, s, i % width);
}

/// Proofs to a cap of height `h` have `h` siblings less than the tree has layers above its
/// leaves.
pub proof fn law_proof_length<F: RichField, H: Hasher<F>>(
    tree: MerkleTree<F, H>,
    i: int,
    siblings: Seq<H::Hash>,
    k: nat,
    h: nat,
)
    requires
        tree.sized(),
        tree.leaves_count() == pow2(k),
        tree.cap.0@.len() == pow2(h),
        siblings == path(
            subtree(tree.digests@, tree.width(), i / tree.width()),
            tree.width(),
            i % tree.width(),
        ),
    ensures
        siblings.len() == k - h,
{
    lemma_sized(tree);
    lemma_path_len(
        subtree(tree.digests@, tree.width(), i / tree.width()),
        tree.width(),
        i % tree.width(),
    );
    lemma_pow2_ordered(h, k);
    lemma_pow2_split(k, h);
    lemma_pow2_ordered(siblings.len(), (k - h) as nat);
    lemma_pow2_ordered((k - h) as nat, siblings.len());
}

/// The path of a leaf within a part of a subtree is the beginning of its path within the whole:
/// the part is number `q` of `k` parts of `width` leaves, and the leaf is number `x` in it.
#[verifier::spinoff_prover]
proof fn lemma_path_begins<F: RichField, H: Hasher<F>>(
    bottom: Seq<H::Hash>,
    width: int,
    k: int,
    q: int,
    x: int,
)
    requires
        is_pow2(k),
        width >= 1,
        bottom.len() == k * width,
        0 <= q < k,
        0 <= x < width,
    ensures
        path(
            subtree_digests::<F, H>(bottom.subrange(q * width, (q + 1) * width)),
            width,
            x,
        ).is_prefix_of(path(subtree_digests::<F, H>(bottom), k * width, q * width + x)),
    decreases k,
{
    reveal(is_pow2);
    let part = bottom.subrange(q * width, (q + 1) * width);
    if k == 1 {
        assert(1 * width == width && 0 * width == 0);
        assert(part =~= bottom);
    } else {
        let h = k / 2;
        let half = h * width;
        assert(k * width == 2 * half && half >= width && 0 <= q * width && (q + 1) * width == q
            * width + width && (q + 1) * width <= k * width) by (nonlinear_arith)
            requires
                k == 2 * h,
                h >= 1,
                half == h * width,
                width >= 1,
                0 <= q < k,
        ;
        let nodes = subtree_digests::<F, H>(bottom);
        let left = bottom.take(half);
        let right = bottom.skip(half);
        lemma_subtree_len::<F, H>(left);
        lemma_subtree_len::<F, H>(right);
        assert(nodes.take(k * width - 2) =~= subtree_digests::<F, H>(left));
        assert(nodes.skip(k * width) =~= subtree_digests::<F, H>(right));
        if q < h {
            assert((q + 1) * width <= half) by (nonlinear_arith)
                requires
                    q + 1 <= h,
                    half == h * width,
                    width >= 1,
            ;
            lemma_path_begins::<F, H>(left, width, h, q, x);
            assert(left.subrange(q * width, (q + 1) * width) =~= part);
        } else {
            assert((q - h) * width == q * width - half && (q - h + 1) * width == (q + 1) * width
                - half && (q - h) * width >= 0) by (nonlinear_arith)
                requires
                    q >= h,
                    half == h * width,
                    width >= 1,
            ;
            lemma_path_begins::<F, H>(right, width, h, q - h, x);
            assert(right.subrange((q - h) * width, (q - h + 1) * width) =~= part);
        }
    }
}

/// A proof to a larger cap is the beginning of the proof to a smaller one, over the same leaves.
pub proof fn law_capped_proof_begins<F: RichField, H: Hasher<F>>(
    tree: MerkleTree<F, H>,
    capped: MerkleTree<F, H>,
    i: int,
    siblings: Seq<H::Hash>,
    capped_siblings: Seq<H::Hash>,
)
    requires
        tree.sized(),
        tree.hashed(),
        capped.sized(),
        capped.hashed(),
        capped.leaves@ == tree.leaves@,
        capped.leaf_size == tree.leaf_size,
        tree.cap.0@.len() <= capped.cap.0@.len(),
        0 <= i < tree.leaves_count(),
        siblings == path(
            subtree(tree.digests@, tree.width(), i / tree.width()),
            tree.width(),
            i % tree.width(),
        ),
        capped_siblings == path(
            subtree(capped.digests@, capped.width(), i / capped.width()),
            capped.width(),
            i % capped.width(),
        ),
    ensures
        capped_siblings.is_prefix_of(siblings),
{
    let leaf_size = tree.leaf_size as int;
    let wide = tree.width();
    let width = capped.width();
    lemma_sized(tree);
    lemma_sized(capped);
    lemma_place(tree.cap.0@.len() as int, wide, i);
    lemma_place(capped.cap.0@.len() as int, width, i);
    let n = lemma_exponent(wide);
    let m = lemma_exponent(width);
    assert(width <= wide) by (nonlinear_arith)
        requires
            tree.cap.0@.len() * wide == capped.cap.0@.len() * width,
            0 < tree.cap.0@.len() <= capped.cap.0@.len(),
            wide >= 1,
            width >= 1,
    ;
    lemma_pow2_ordered(m, n);
    lemma_pow2_split(n, m);
    lemma_pow2_is_pow2((n - m) as nat);
    let k = pow2((n - m) as nat) as int;
    let s = i / wide;
    let r = i % wide;
    assert(k * width == wide) by (nonlinear_arith)
        requires
            wide == width * k,
    ;
    lemma_place(k, width, r);
    let q = r / width;
    let x = r % width;
    assert(s * wide + q * width == (s * k + q) * width) by (nonlinear_arith)
        requires
            wide == k * width,
    ;
    assert((s * k + q) * width + x == i);
    assert(subtree_ok::<F, H>(
        tree.leaves@,
        leaf_size,
        tree.digests@,
        tree.cap.0@,
        wide,
        s,
    ));
    assert(subtree_ok::<F, H>(
        capped.leaves@,
        leaf_size,
        capped.digests@,
        capped.cap.0@,
        width,
        i / width,
    ));
    let bottom = leaf_digests::<F, H>(tree.leaves@, leaf_size, s * wide, wide);
    lemma_path_begins::<F, H>(bottom, width, k, q, x);
    assert(0 <= q * width && (q + 1) * width == q * width + width && (q + 1) * width <= k * width)
        by (nonlinear_arith)
        requires
            0 <= q < k,
            width >= 1,
    ;
    assert(bottom.subrange(q * width, (q + 1) * width) =~= leaf_digests::<F, H>(
        tree.leaves@,
        leaf_size,
        (i / width) * width,
        width,
    ));
}

/// A change that puts the leaves back to what they were puts the whole tree back.
pub proof fn law_change_and_back<F: RichField, H: Hasher<F>>(
    before: MerkleTree<F, H>,
    between: MerkleTree<F, H>,
    after: MerkleTree<F, H>,
    start: int,
    rows: Seq<Seq<F>>,
    rows_before: Seq<Seq<F>>,
)
    requires
        before.sized(),
        before.hashed(),
        0 <= start,
        start + rows.len() <= before.leaves_count(),
        rows_before.len() == rows.len(),
        forall|j: int| 0 <= j < rows.len() ==> (#[trigger] rows[j]).len() == before.leaf_size,
        forall|j: int|
            0 <= j < rows_before.len() ==> #[trigger] rows_before[j] == leaf_at(
                before.leaves@,
                before.leaf_size as int,
                start + j,
            ),
        between.follows(&before, start, rows),
        after.follows(&between, start, rows_before),
    ensures
        after.leaves@ == before.leaves@,
        after.leaf_size == before.leaf_size,
        after.digests@ == before.digests@,
        after.cap.0@ == before.cap.0@,
{
    let leaf_size = before.leaf_size as int;
    let len = before.leaves@.len() as int;
    lemma_sized(before);
    law_changes_keep_sizes(before, between, start, rows);
    law_changes_keep_hashes::<F, H>(
        before.leaves@,
        leaf_size,
        before.digests@,
        before.cap.0@,
        between.digests@,
        between.cap.0@,
        before.width(),
        start,
        rows,
    );
    assert forall|j: int| 0 <= j < rows_before.len() implies (#[trigger] rows_before[j]).len()
        == leaf_size by {
        lemma_leaf_fits(len, leaf_size, start + j);
    }
    let restored = with_rows(between.leaves@, leaf_size, start, rows_before);
    assert forall|k: int| 0 <= k < len implies #[trigger] restored[k] == before.leaves@[k] by {
        let i = k / leaf_size;
        lemma_element_place(k, leaf_size, i);
        if start <= i < start + rows.len() {
            lemma_leaf_fits(len, leaf_size, i);
            assert(rows_before[i - start] == leaf_at(before.leaves@, leaf_size, i));
        }
    }
    assert(restored =~= before.leaves@);
    law_change_is_rebuild(between, after, before, start, rows_before);
}

/// Rows of the same length come back from a tree as they went in, and an empty row as a leaf of
/// zeros.
pub proof fn law_rows_come_back<F: RichField>(rows: Seq<Vec<F>>, i: int)
    requires
        0 <= i < rows.len(),
        rows[0]@.len() > 0,
        forall|j: int|
            0 <= j < rows.len() ==> (#[trigger] rows[j])@.len() == 0 || rows[j]@.len()
                == rows[0]@.len(),
    ensures
        padded_rows(rows).flatten().len() == rows.len() * rows[0]@.len(),
        leaf_at(padded_rows(rows).flatten(), rows[0]@.len() as int, i) == if rows[i]@.len() == 0 {
            Seq::new(rows[0]@.len(), |j: int| F::spec_from_canonical_u64(0))
        } else {
            rows[i]@
        },
{
    let size = rows[0]@.len() as int;
    let padded = padded_rows(rows);
    assert forall|j: int| 0 <= j < padded.len() implies (#[trigger] padded[j]).len() == size by {
        assert(rows[j]@.len() == 0 || rows[j]@.len() == size);
    }
    lemma_flatten_rows(padded, size, i);
}

#[verifier::spinoff_prover]
proof fn lemma_flatten_rows<F>(rows: Seq<Seq<F>>, size: int, i: int)
    requires
        0 <= i < rows.len(),
        size > 0,
        forall|j: int| 0 <= j < rows.len() ==> (#[trigger] rows[j]).len() == size,
    ensures
        rows.flatten().len() == rows.len() * size,
        leaf_at(rows.flatten(), size, i) == rows[i],
    decreases rows.len(),
{
    let head = rows.drop_last();
    let last = rows.last();
    assert(head.push(last) =~= rows);
    head.lemma_flatten_push(last);
    if head.len() == 0 {
        assert(head =~= Seq::<Seq<F>>::empty());
    } else {
        assert forall|j: int| 0 <= j < head.len() implies (#[trigger] head[j]).len() == size by {
            assert(head[j] == rows[j]);
        }
        lemma_flatten_rows(head, size, if i < head.len() {
            i
        } else {
            0
        });
    }
    let count = rows.len() as int;
    assert(count * size == (count - 1) * size + size) by (nonlinear_arith);
    assert(0 <= i * size && (i + 1) * size == i * size + size && (i + 1) * size <= count * size)
        by (nonlinear_arith)
        requires
            0 <= i < count,
            size > 0,
    ;
    if i < head.len() {
        assert((i + 1) * size <= (count - 1) * size) by (nonlinear_arith)
            requires
                i + 1 <= count - 1,
                size > 0,
        ;
        assert(leaf_at(rows.flatten(), size, i) =~= leaf_at(head.flatten(), size, i));
    } else {
        assert(leaf_at(rows.flatten(), size, i) =~= last);
    }
}

/// Digests and a cap that a device hands back make the tree that the host would have built, where
/// they are the hashes of the leaves: level by level within each subtree.
pub proof fn law_device_tree_is_hashed<F: RichField, H: Hasher<F>>(
    tree: MerkleTree<F, H>,
    levels: Seq<H::Hash>,
)
    requires
        tree.sized(),
        levels.len() == tree.digests@.len(),
        forall|s: int|
            0 <= s < tree.cap.0@.len() ==> #[trigger] subtree(tree.digests@, tree.width(), s)
                == regrouped(subtree(levels, tree.width(), s), 1, tree.width(), 0),
        forall|s: int|
            0 <= s < tree.cap.0@.len() ==> levels_hashed::<F, H>(
                #[trigger] subtree(levels, tree.width(), s),
                leaf_digests::<F, H>(
                    tree.leaves@,
                    tree.leaf_size as int,
                    s * tree.width(),
                    tree.width(),
                ),
            ),
        forall|s: int|
            0 <= s < tree.cap.0@.len() ==> tree.cap.0@[s] == levels_root::<F, H>(
                #[trigger] subtree(levels, tree.width(), s),
                leaf_digests::<F, H>(
                    tree.leaves@,
                    tree.leaf_size as int,
                    s * tree.width(),
                    tree.width(),
                ),
            ),
    ensures
        tree.hashed(),
{
    let width = tree.width();
    lemma_sized(tree);
    assert forall|s: int| 0 <= s < tree.cap.0@.len() implies #[trigger] subtree_ok::<F, H>(
        tree.leaves@,
        tree.leaf_size as int,
        tree.digests@,
        tree.cap.0@,
        width,
        s,
    ) by {
        let nodes = subtree(levels, width, s);
        let bottom = leaf_digests::<F, H>(tree.leaves@, tree.leaf_size as int, s * width, width);
        assert(1 * width == width && 0 * width == 0);
        assert(subtree(tree.digests@, width, s) == regrouped(nodes, 1, width, 0));
        lemma_regrouped_is_hashed::<F, H>(nodes, bottom, 1, width, 0);
        assert(bottom.subrange(0, width) =~= bottom);
    }
}

/// The words of `host_digests` and `host_caps` are the hashes of `leaves`, in leaves of `leaf_size`
/// elements and with a cap over subtrees of `width` leaves: level by level within each subtree.
pub open spec fn words_hashed<F: RichField, H: Hasher<F>>(
    leaves: Seq<F>,
    leaf_size: int,
    host_digests: Seq<F>,
    host_caps: Seq<F>,
    order: ByteOrder,
    caps: int,
    width: int,
) -> bool {
    let levels = device_digests::<F, H>(host_digests, order, caps * (2 * width - 2));
    &&& forall|s: int|
        0 <= s < caps ==> levels_hashed::<F, H>(
            #[trigger] subtree(levels, width, s),
            leaf_digests::<F, H>(leaves, leaf_size, s * width, width),
        )
    &&& forall|s: int|
        0 <= s < caps ==> device_digest::<F, H>(host_caps, order, s) == levels_root::<F, H>(
            #[trigger] subtree(levels, width, s),
            leaf_digests::<F, H>(leaves, leaf_size, s * width, width),
        )
}

/// Where what a device hands back are the hashes of the leaves, in the byte order of the host, the
/// tree made of it is the one that the host builds over the same leaves with a cap of the same
/// height.
#[verifier::spinoff_prover]
pub proof fn law_device_tree_is_host_tree<F: RichField, H: Hasher<F>>(
    tree: MerkleTree<F, H>,
    host: MerkleTree<F, H>,
    host_digests: Seq<F>,
    host_caps: Seq<F>,
    order: ByteOrder,
    cap_height: nat,
)
    requires
        tree.sized(),
        from_device::<F, H>(
            tree.digests@,
            tree.cap.0@,
            host_digests,
            host_caps,
            order,
            tree.leaves_count(),
            cap_height as int,
        ),
        words_hashed::<F, H>(
            tree.leaves@,
            tree.leaf_size as int,
            host_digests,
            host_caps,
            order,
            tree.cap.0@.len() as int,
            tree.width(),
        ),
        host.hashed(),
        host.leaves@ == tree.leaves@,
        host.leaf_size == tree.leaf_size,
        host.cap.0@.len() == tree.cap.0@.len(),
    ensures
        tree.hashed(),
        tree.digests@ == host.digests@,
        tree.cap.0@ == host.cap.0@,
{
    let caps = tree.cap.0@.len() as int;
    let width = tree.width();
    lemma_sized(tree);
    lemma_pow2_pos(cap_height);
    let levels = device_digests::<F, H>(host_digests, order, caps * (2 * width - 2));
    assert(caps == pow2(cap_height));
    assert(levels == device_digests::<F, H>(
        host_digests,
        order,
        2 * (tree.leaves_count() - caps),
    ));
    assert forall|s: int| 0 <= s < caps implies tree.cap.0@[s] == levels_root::<F, H>(
        #[trigger] subtree(levels, width, s),
        leaf_digests::<F, H>(tree.leaves@, tree.leaf_size as int, s * width, width),
    ) by {
        assert(tree.cap.0@[s] == device_digest::<F, H>(host_caps, order, s));
    }
    law_device_tree_is_hashed(tree, levels);
    law_same_leaves_same_tree(tree, host);
}

} // verus!

//! Where each node stands in a tree, and what it is: the laws of building, changing and proving,
//! node by node.
//!
//! The nodes of a subtree of `2^n` leaves are told apart by their layer `t`, counted from the
//! leaves, and their number `j` on it, counted from the left. Below a node on layer `t` there are
//! `m = 2^t` leaves. Its digest stands at place `(j / 2) * (4 * m) + 2 * m - 2 + j % 2` of the
//! digests of the subtree, which has `2 * 2^n - 2` of them.

use crate::config::{Hasher, RichField};
use crate::fill::{filled_nodes, filled_root};
use crate::layout::{
    fresh, hashed, leaf_digest, leaf_digests, lemma_rehashed_len, lemma_subtree_len,
    lemma_subtree_within, none_fresh, rehashed_nodes, root_digest, row_digests,
    subtree, subtree_digests, subtree_ok, subtree_rehashed,
};
use crate::levels::{lemma_regrouped_len, regrouped};
use crate::merkle_proofs::{path, path_root};
use crate::merkle_tree::MerkleTree;
use crate::update::{lemma_element_place, lemma_place, lemma_sized};
use crate::util::{lemma_pow2_is_pow2, lemma_pow2_split, lemma_pow2_zero};
use vstd::arithmetic::div_mod::{
    lemma_div_by_multiple, lemma_div_denominator, lemma_fundamental_div_mod,
    lemma_fundamental_div_mod_converse,
};
use vstd::arithmetic::power2::{lemma_pow2_pos, lemma_pow2_unfold, pow2};
use vstd::prelude::*;

verus! {

/// The place of node `j` on the layer whose nodes have `m` leaves below them.
spec fn place(m: int, j: int) -> int {
    (j / 2) * (4 * m) + 2 * m - 2 + j % 2
}

/// The number of nodes on layer `t` of a subtree of `2^n` leaves.
proof fn lemma_layer_size(n: nat, t: nat)
    requires
        t < n,
    ensures
        pow2(n) == 2 * pow2((n - 1) as nat),
        pow2(t) >= 1,
        pow2((n - 1) as nat) >= 1,
        pow2((n - t) as nat) == 2 * pow2((n - 1 - t) as nat),
        pow2((n - 1 - t) as nat) >= 1,
        pow2((n - 1 - t) as nat) * pow2(t) == pow2((n - 1) as nat),
        pow2((n - t) as nat) * pow2(t) == pow2(n),
        t == n - 1 ==> pow2((n - 1 - t) as nat) == 1,
        t < n - 1 ==> pow2((n - 1 - t) as nat) % 2 == 0,
{
    lemma_pow2_zero();
    lemma_pow2_unfold(n);
    lemma_pow2_unfold((n - t) as nat);
    lemma_pow2_split((n - 1) as nat, t);
    lemma_pow2_split(n, t);
    lemma_pow2_pos((n - 1) as nat);
    let c = pow2((n - 1 - t) as nat) as int;
    let m = pow2(t) as int;
    assert(c * m == m * c && (2 * c) * m == m * (2 * c)) by (nonlinear_arith);
    if t < n - 1 {
        lemma_pow2_unfold((n - 1 - t) as nat);
    }
}

/// A node stands in the left half of its subtree, in the right one, or between them.
proof fn lemma_place_split(n: nat, t: nat, j: int)
    requires
        t < n,
        0 <= j < pow2((n - t) as nat),
    ensures
        ({
            let w = pow2(n) as int;
            let m = pow2(t) as int;
            let c = pow2((n - 1 - t) as nat) as int;
            &&& 0 <= place(m, j) < 2 * w - 2
            &&& t == n - 1 ==> place(m, j) == w - 2 + j && (j == 0 || j == 1) && 2 * m == w
            &&& t < n - 1 && j < c ==> 0 <= place(m, j) < w - 2
            &&& t < n - 1 && j >= c ==> place(m, j) == w + place(m, j - c) && 0 <= j - c < c && 0
                <= place(m, j - c) < w - 2
        }),
{
    lemma_layer_size(n, t);
    let w = pow2(n) as int;
    let m = pow2(t) as int;
    let c = pow2((n - 1 - t) as nat) as int;
    if t == n - 1 {
        assert(1 * m == m);
        assert(0 * (4 * m) == 0);
    } else {
        lemma_place_bound(m, c, j);
        if j >= c {
            lemma_place_bound(m, c, j - c);
            assert(j / 2 == (j - c) / 2 + c / 2 && j % 2 == (j - c) % 2);
            assert(((j - c) / 2 + c / 2) * (4 * m) == ((j - c) / 2) * (4 * m) + 2 * (c * m))
                by (nonlinear_arith)
                requires
                    c % 2 == 0,
            ;
        }
    }
}

/// Where the places of the first `c` nodes of a layer lie.
proof fn lemma_place_bound(m: int, c: int, j: int)
    requires
        m >= 1,
        c >= 2,
        c % 2 == 0,
        0 <= j,
    ensures
        0 <= place(m, j),
        j < c ==> place(m, j) < 2 * (c * m) - 2,
{
    assert(0 <= (j / 2) * (4 * m)) by (nonlinear_arith)
        requires
            m >= 1,
            j >= 0,
    ;
    if j < c {
        assert((j / 2) * (4 * m) + 4 * m <= 2 * (c * m)) by (nonlinear_arith)
            requires
                m >= 1,
                j / 2 + 1 <= c / 2,
                c % 2 == 0,
        ;
    }
}

/// The digest of a node stands at its place, and is the root over the leaves below it.
proof fn lemma_digest_at<F: RichField, H: Hasher<F>>(
    bottom: Seq<H::Hash>,
    n: nat,
    t: nat,
    j: int,
)
    requires
        bottom.len() == pow2(n),
        t < n,
        0 <= j < pow2((n - t) as nat),
    ensures
        0 <= j * pow2(t),
        (j + 1) * pow2(t) <= pow2(n),
        subtree_digests::<F, H>(bottom)[place(pow2(t) as int, j)] == root_digest::<F, H>(
            bottom.subrange(j * pow2(t), (j + 1) * pow2(t)),
        ),
    decreases n,
{
    lemma_layer_size(n, t);
    lemma_place_split(n, t, j);
    let w = pow2(n) as int;
    let m = pow2(t) as int;
    let c = pow2((n - 1 - t) as nat) as int;
    let half = w / 2;
    lemma_span(m, 2 * c, j);
    let left = bottom.take(half);
    let right = bottom.skip(half);
    lemma_subtree_len::<F, H>(left);
    lemma_subtree_len::<F, H>(right);
    let below = bottom.subrange(j * m, (j + 1) * m);
    if t == n - 1 {
        assert(1 * m == m && 0 * m == 0 && 2 * m == w);
        if j == 0 {
            assert(below =~= left);
        } else {
            assert(below =~= right);
        }
    } else if j < c {
        lemma_span(m, c, j);
        lemma_digest_at::<F, H>(left, (n - 1) as nat, t, j);
        assert(below =~= left.subrange(j * m, (j + 1) * m));
    } else {
        lemma_span(m, c, j - c);
        lemma_shift(m, c, j);
        lemma_digest_at::<F, H>(right, (n - 1) as nat, t, j - c);
        assert(below =~= right.subrange((j - c) * m, (j - c + 1) * m));
    }
}

/// The leaves below node `j` of `c`.
proof fn lemma_span(m: int, c: int, j: int)
    requires
        m >= 1,
        0 <= j < c,
    ensures
        0 <= j * m,
        (j + 1) * m == j * m + m,
        (j + 1) * m <= c * m,
{
    assert(0 <= j * m && (j + 1) * m == j * m + m && (j + 1) * m <= c * m) by (nonlinear_arith)
        requires
            m >= 1,
            0 <= j < c,
    ;
}

/// Node `j` is node `j - c` of the right half.
proof fn lemma_shift(m: int, c: int, j: int)
    ensures
        (j - c) * m == j * m - c * m,
        (j - c + 1) * m == (j + 1) * m - c * m,
        j * (2 * m) == (j - c) * (2 * m) + 2 * (c * m),
{
    assert((j - c) * m == j * m - c * m && (j - c + 1) * m == (j + 1) * m - c * m && j * (2 * m)
        == (j - c) * (2 * m) + 2 * (c * m)) by (nonlinear_arith);
}

/// `node` gives the nodes of the layers over `leaves`.
spec fn is_layers<F: RichField, H: Hasher<F>>(
    leaves: Seq<F>,
    leaf_size: int,
    node: spec_fn(nat, int) -> H::Hash,
) -> bool {
    &&& forall|i: int|
        0 <= i ==> #[trigger] node(0, i) == H::spec_hash_or_noop(
            leaves.subrange(i * leaf_size, (i + 1) * leaf_size),
        )
    &&& forall|u: nat, i: int|
        0 < u && 0 <= i ==> #[trigger] node(u, i) == H::spec_two_to_one(
            node((u - 1) as nat, 2 * i),
            node((u - 1) as nat, 2 * i + 1),
        )
}

/// The root over the leaves below a node is that node.
proof fn lemma_root_is_node<F: RichField, H: Hasher<F>>(
    leaves: Seq<F>,
    leaf_size: int,
    node: spec_fn(nat, int) -> H::Hash,
    t: nat,
    i: int,
)
    requires
        is_layers::<F, H>(leaves, leaf_size, node),
        0 <= i,
    ensures
        root_digest::<F, H>(
            leaf_digests::<F, H>(leaves, leaf_size, i * pow2(t), pow2(t) as int),
        ) == node(t, i),
    decreases t,
{
    let bottom = leaf_digests::<F, H>(leaves, leaf_size, i * pow2(t), pow2(t) as int);
    if t == 0 {
        lemma_pow2_zero();
        assert(i * 1 == i);
        assert(node(0, i) == leaf_digest::<F, H>(leaves, leaf_size, i));
    } else {
        let u = (t - 1) as nat;
        lemma_pow2_unfold(t);
        lemma_pow2_pos(u);
        let half = pow2(u) as int;
        assert((2 * i) * half == i * (2 * half) && (2 * i + 1) * half == i * (2 * half) + half)
            by (nonlinear_arith);
        lemma_root_is_node::<F, H>(leaves, leaf_size, node, u, 2 * i);
        lemma_root_is_node::<F, H>(leaves, leaf_size, node, u, 2 * i + 1);
        assert(bottom.take(half) =~= leaf_digests::<F, H>(
            leaves,
            leaf_size,
            (2 * i) * half,
            half,
        ));
        assert(bottom.skip(half) =~= leaf_digests::<F, H>(
            leaves,
            leaf_size,
            (2 * i + 1) * half,
            half,
        ));
        assert(node(t, i) == H::spec_two_to_one(node(u, 2 * i), node(u, 2 * i + 1)));
    }
}

/// The entries of a cap over subtrees of `2^n` leaves are the nodes of layer `n`: whatever gives
/// the nodes of all layers, the digests of the leaves on the lowest one and on each other one the
/// hashes of two neighbours below, gives the cap.
pub proof fn law_cap_entry<F: RichField, H: Hasher<F>>(
    leaves: Seq<F>,
    leaf_size: int,
    digests: Seq<H::Hash>,
    cap: Seq<H::Hash>,
    n: nat,
    node: spec_fn(nat, int) -> H::Hash,
    s: int,
)
    requires
        hashed::<F, H>(leaves, leaf_size, digests, cap, pow2(n) as int),
        forall|i: int|
            0 <= i ==> #[trigger] node(0, i) == H::spec_hash_or_noop(
                leaves.subrange(i * leaf_size, (i + 1) * leaf_size),
            ),
        forall|u: nat, i: int|
            0 < u && 0 <= i ==> #[trigger] node(u, i) == H::spec_two_to_one(
                node((u - 1) as nat, 2 * i),
                node((u - 1) as nat, 2 * i + 1),
            ),
        0 <= s < cap.len(),
    ensures
        cap[s] == node(n, s),
{
    assert(is_layers::<F, H>(leaves, leaf_size, node));
    assert(subtree_ok::<F, H>(leaves, leaf_size, digests, cap, pow2(n) as int, s));
    lemma_root_is_node::<F, H>(leaves, leaf_size, node, n, s);
}

/// In each subtree of `2^n` leaves, node `j` on layer `t` stands at its place, for every layer
/// below the root, and is the node of that layer over the leaves.
pub proof fn law_digest_place<F: RichField, H: Hasher<F>>(
    leaves: Seq<F>,
    leaf_size: int,
    digests: Seq<H::Hash>,
    cap: Seq<H::Hash>,
    n: nat,
    node: spec_fn(nat, int) -> H::Hash,
    s: int,
    t: nat,
    j: int,
)
    requires
        hashed::<F, H>(leaves, leaf_size, digests, cap, pow2(n) as int),
        forall|i: int|
            0 <= i ==> #[trigger] node(0, i) == H::spec_hash_or_noop(
                leaves.subrange(i * leaf_size, (i + 1) * leaf_size),
            ),
        forall|u: nat, i: int|
            0 < u && 0 <= i ==> #[trigger] node(u, i) == H::spec_two_to_one(
                node((u - 1) as nat, 2 * i),
                node((u - 1) as nat, 2 * i + 1),
            ),
        0 <= s < cap.len(),
        t < n,
        0 <= j < pow2((n - t) as nat),
    ensures
        digests.len() == cap.len() * (2 * pow2(n) - 2),
        ({
            let at = s * (2 * pow2(n) - 2) + ((j / 2) * (4 * pow2(t)) + 2 * pow2(t) - 2 + j % 2);
            &&& 0 <= at < digests.len()
            &&& digests[at] == node(t, s * pow2((n - t) as nat) + j)
        }),
{
    let w = pow2(n) as int;
    let m = pow2(t) as int;
    let c = pow2((n - t) as nat) as int;
    assert(is_layers::<F, H>(leaves, leaf_size, node));
    assert(subtree_ok::<F, H>(leaves, leaf_size, digests, cap, w, s));
    let bottom = leaf_digests::<F, H>(leaves, leaf_size, s * w, w);
    lemma_layer_size(n, t);
    lemma_subtree_within(cap.len() as int, w, s);
    lemma_place_split(n, t, j);
    lemma_digest_at::<F, H>(bottom, n, t, j);
    lemma_span(m, c, j);
    let i = s * c + j;
    assert(i * m == s * w + j * m && i >= 0) by (nonlinear_arith)
        requires
            i == s * c + j,
            c * m == w,
            s >= 0,
            j >= 0,
            c >= 0,
    ;
    assert(bottom.subrange(j * m, (j + 1) * m) =~= leaf_digests::<F, H>(
        leaves,
        leaf_size,
        i * m,
        m,
    ));
    lemma_root_is_node::<F, H>(leaves, leaf_size, node, t, i);
    assert(subtree(digests, w, s)[place(m, j)] == digests[s * (2 * w - 2) + place(m, j)]);
}

/// The cap and the digests of a tree are the nodes of the layers over its leaves: each entry of the
/// cap over `2^n` leaves is a node of layer `n`.
pub proof fn law_tree_cap_entry<F: RichField, H: Hasher<F>>(
    tree: MerkleTree<F, H>,
    n: nat,
    node: spec_fn(nat, int) -> H::Hash,
    s: int,
)
    requires
        tree.sized(),
        tree.hashed(),
        tree.cap.0@.len() * pow2(n) == tree.leaves@.len() as int / tree.leaf_size as int,
        forall|i: int|
            0 <= i ==> #[trigger] node(0, i) == H::spec_hash_or_noop(
                tree.leaves@.subrange(i * tree.leaf_size, (i + 1) * tree.leaf_size),
            ),
        forall|u: nat, i: int|
            0 < u && 0 <= i ==> #[trigger] node(u, i) == H::spec_two_to_one(
                node((u - 1) as nat, 2 * i),
                node((u - 1) as nat, 2 * i + 1),
            ),
        0 <= s < tree.cap.0@.len(),
    ensures
        tree.cap.0@[s] == node(n, s),
{
    lemma_width(tree, n);
    law_cap_entry::<F, H>(
        tree.leaves@,
        tree.leaf_size as int,
        tree.digests@,
        tree.cap.0@,
        n,
        node,
        s,
    );
}

/// Each digest of a tree is a node of a layer over its leaves, at its place: in subtree `s` of
/// `2^n` leaves, node `j` on layer `t`.
pub proof fn law_tree_digest<F: RichField, H: Hasher<F>>(
    tree: MerkleTree<F, H>,
    n: nat,
    node: spec_fn(nat, int) -> H::Hash,
    s: int,
    t: nat,
    j: int,
)
    requires
        tree.sized(),
        tree.hashed(),
        tree.cap.0@.len() * pow2(n) == tree.leaves@.len() as int / tree.leaf_size as int,
        forall|i: int|
            0 <= i ==> #[trigger] node(0, i) == H::spec_hash_or_noop(
                tree.leaves@.subrange(i * tree.leaf_size, (i + 1) * tree.leaf_size),
            ),
        forall|u: nat, i: int|
            0 < u && 0 <= i ==> #[trigger] node(u, i) == H::spec_two_to_one(
                node((u - 1) as nat, 2 * i),
                node((u - 1) as nat, 2 * i + 1),
            ),
        0 <= s < tree.cap.0@.len(),
        t < n,
        0 <= j < pow2((n - t) as nat),
    ensures
        tree.digests@.len() == tree.cap.0@.len() * (2 * pow2(n) - 2),
        ({
            let at = s * (2 * pow2(n) - 2) + ((j / 2) * (4 * pow2(t)) + 2 * pow2(t) - 2 + j % 2);
            &&& 0 <= at < tree.digests@.len()
            &&& tree.digests@[at] == node(t, s * pow2((n - t) as nat) + j)
        }),
{
    lemma_width(tree, n);
    law_digest_place::<F, H>(
        tree.leaves@,
        tree.leaf_size as int,
        tree.digests@,
        tree.cap.0@,
        n,
        node,
        s,
        t,
        j,
    );
}

/// What is filled over `2^n` leaves are the nodes of the layers over them: the root is the one
/// node of layer `n`, and node `j` on a layer `t` below it stands at its place. A single leaf's
/// digest, which is the root, is filled in too.
pub proof fn law_filled_subtree<F: RichField, H: Hasher<F>>(
    leaves: Seq<F>,
    leaf_size: int,
    n: nat,
    node: spec_fn(nat, int) -> H::Hash,
    t: nat,
    j: int,
)
    requires
        leaf_size > 0,
        leaves.len() == pow2(n) * leaf_size,
        forall|i: int|
            0 <= i ==> #[trigger] node(0, i) == H::spec_hash_or_noop(
                leaves.subrange(i * leaf_size, (i + 1) * leaf_size),
            ),
        forall|u: nat, i: int|
            0 < u && 0 <= i ==> #[trigger] node(u, i) == H::spec_two_to_one(
                node((u - 1) as nat, 2 * i),
                node((u - 1) as nat, 2 * i + 1),
            ),
    ensures
        filled_root::<F, H>(leaves, leaf_size) == node(n, 0),
        n == 0 ==> filled_nodes::<F, H>(leaves, leaf_size) == seq![node(0, 0)],
        n > 0 ==> filled_nodes::<F, H>(leaves, leaf_size).len() == 2 * pow2(n) - 2,
        t < n && 0 <= j < pow2((n - t) as nat) ==> filled_nodes::<F, H>(leaves, leaf_size)[(j / 2)
            * (4 * pow2(t)) + 2 * pow2(t) - 2 + j % 2] == node(t, j),
{
    let w = pow2(n) as int;
    lemma_pow2_pos(n);
    lemma_div_by_multiple(w, leaf_size);
    assert(is_layers::<F, H>(leaves, leaf_size, node));
    let bottom = leaf_digests::<F, H>(leaves, leaf_size, 0, w);
    lemma_root_is_node::<F, H>(leaves, leaf_size, node, n, 0);
    assert(0 * w == 0);
    lemma_subtree_len::<F, H>(bottom);
    if n == 0 {
        lemma_pow2_zero();
        assert(node(0, 0) == leaf_digest::<F, H>(leaves, leaf_size, 0));
        assert(filled_nodes::<F, H>(leaves, leaf_size) =~= seq![node(0, 0)]);
    } else {
        lemma_layer_size(n, 0);
        if t < n && 0 <= j < pow2((n - t) as nat) {
            let m = pow2(t) as int;
            lemma_layer_size(n, t);
            lemma_digest_at::<F, H>(bottom, n, t, j);
            lemma_span(m, pow2((n - t) as nat) as int, j);
            assert(bottom.subrange(j * m, (j + 1) * m) =~= leaf_digests::<F, H>(
                leaves,
                leaf_size,
                j * m,
                m,
            ));
            lemma_root_is_node::<F, H>(leaves, leaf_size, node, t, j);
        }
    }
}

/// What a change makes of the digest of a node.
proof fn lemma_rehashed_at<F: RichField, H: Hasher<F>>(
    nodes: Seq<H::Hash>,
    changed: Seq<Option<H::Hash>>,
    n: nat,
    t: nat,
    j: int,
)
    requires
        nodes.len() == 2 * pow2(n) - 2,
        changed.len() == pow2(n),
        t < n,
        0 <= j < pow2((n - t) as nat),
    ensures
        ({
            let m = pow2(t) as int;
            let at = place(m, j);
            let after = rehashed_nodes::<F, H>(nodes, changed);
            let below = changed.subrange(j * m, (j + 1) * m);
            let left = j * (2 * m) + m - 2;
            &&& t > 0 ==> 0 <= left && left + 1 < after.len()
            &&& none_fresh(below) ==> after[at] == nodes[at]
            &&& !none_fresh(below) && t == 0 ==> changed[j] is Some && after[at] == changed[j]->0
            &&& !none_fresh(below) && t > 0 ==> after[at] == H::spec_two_to_one(
                after[left],
                after[left + 1],
            )
        }),
    decreases n,
{
    lemma_layer_size(n, t);
    lemma_place_split(n, t, j);
    let w = pow2(n) as int;
    let m = pow2(t) as int;
    let c = pow2((n - 1 - t) as nat) as int;
    let half = w / 2;
    let after = rehashed_nodes::<F, H>(nodes, changed);
    let left_nodes = nodes.take(2 * half - 2);
    let right_nodes = nodes.skip(2 * half);
    let left_changed = changed.take(half);
    let right_changed = changed.skip(half);
    let left_after = rehashed_nodes::<F, H>(left_nodes, left_changed);
    let right_after = rehashed_nodes::<F, H>(right_nodes, right_changed);
    lemma_span(m, 2 * c, j);
    lemma_rehashed_len::<F, H>(nodes, changed);
    lemma_rehashed_len::<F, H>(left_nodes, left_changed);
    lemma_rehashed_len::<F, H>(right_nodes, right_changed);
    let below = changed.subrange(j * m, (j + 1) * m);
    assert(j * (2 * m) == 2 * (j * m)) by (nonlinear_arith);
    if t > 0 {
        lemma_pow2_unfold(t);
        lemma_pow2_pos((t - 1) as nat);
    } else {
        lemma_pow2_zero();
    }
    if t == n - 1 {
        assert(1 * m == m && 0 * m == 0 && 2 * m == w);
        if j == 0 {
            assert(below =~= left_changed);
        } else {
            assert(below =~= right_changed);
        }
        if !none_fresh(below) && t == 0 {
            let r = choose|r: int| 0 <= r < below.len() && !(#[trigger] below[r] is None);
            assert(r == 0);
            assert(below[0] == changed[j]);
        }
    } else if j < c {
        lemma_span(m, c, j);
        lemma_rehashed_at::<F, H>(left_nodes, left_changed, (n - 1) as nat, t, j);
        assert(below =~= left_changed.subrange(j * m, (j + 1) * m));
    } else {
        lemma_span(m, c, j - c);
        lemma_shift(m, c, j);
        lemma_rehashed_at::<F, H>(right_nodes, right_changed, (n - 1) as nat, t, j - c);
        assert((j - c) * (2 * m) == 2 * ((j - c) * m)) by (nonlinear_arith);
        assert(below =~= right_changed.subrange((j - c) * m, (j - c + 1) * m));
    }
}

/// Whether one of `count` leaves from leaf `first` on has a new digest.
proof fn lemma_fresh_span<T>(
    start: int,
    new: Seq<T>,
    first: int,
    width: int,
    from: int,
    count: int,
)
    requires
        0 <= from,
        1 <= count,
        from + count <= width,
    ensures
        none_fresh(fresh(start, new, first, width).subrange(from, from + count)) <==> (first + from
            + count <= start || start + new.len() <= first + from || new.len() == 0),
{
    let below = fresh(start, new, first, width).subrange(from, from + count);
    if new.len() > 0 && start < first + from + count && first + from < start + new.len() {
        let r: int = if start <= first + from {
            0
        } else {
            start - first - from
        };
        assert(below[r] is Some);
    }
}

/// A change of the leaves from `start` on into `rows` leaves each node as it is that none of these
/// leaves lies below. The node of a changed leaf becomes the digest of its row, and each node
/// above one the hash of its two children.
pub proof fn law_changed_node<F: RichField, H: Hasher<F>>(
    before: MerkleTree<F, H>,
    after: MerkleTree<F, H>,
    start: int,
    rows: Seq<Seq<F>>,
    n: nat,
    s: int,
    t: nat,
    j: int,
)
    requires
        before.sized(),
        before.cap.0@.len() * pow2(n) == before.leaves@.len() as int / before.leaf_size as int,
        after.follows(&before, start, rows),
        0 <= s < before.cap.0@.len(),
        t < n,
        0 <= j < pow2((n - t) as nat),
    ensures
        after.digests@.len() == before.digests@.len(),
        ({
            let base = s * (2 * pow2(n) - 2);
            let at = base + ((j / 2) * (4 * pow2(t)) + 2 * pow2(t) - 2 + j % 2);
            let left = base + (j * (2 * pow2(t)) + pow2(t) - 2);
            let first = s * pow2(n) + j * pow2(t);
            &&& 0 <= at < before.digests@.len()
            &&& t > 0 ==> 0 <= left && left + 1 < before.digests@.len()
            &&& if first + pow2(t) <= start || start + rows.len() <= first || rows.len() == 0 {
                after.digests@[at] == before.digests@[at]
            } else if t == 0 {
                after.digests@[at] == H::spec_hash_or_noop(rows[first - start])
            } else {
                after.digests@[at] == H::spec_two_to_one(
                    after.digests@[left],
                    after.digests@[left + 1],
                )
            }
        }),
{
    let w = pow2(n) as int;
    let m = pow2(t) as int;
    let caps = before.cap.0@.len() as int;
    let new = row_digests::<F, H>(rows);
    lemma_width(before, n);
    lemma_layer_size(n, t);
    lemma_subtree_within(caps, w, s);
    lemma_place_split(n, t, j);
    lemma_span(m, pow2((n - t) as nat) as int, j);
    assert(subtree_rehashed::<F, H>(
        before.digests@,
        before.cap.0@,
        after.digests@,
        after.cap.0@,
        w,
        s,
        start,
        new,
    ));
    let changed = fresh(start, new, s * w, w);
    let nodes = subtree(before.digests@, w, s);
    let nodes_after = subtree(after.digests@, w, s);
    lemma_rehashed_at::<F, H>(nodes, changed, n, t, j);
    lemma_fresh_span(start, new, s * w, w, j * m, m);
    lemma_rehashed_len::<F, H>(nodes, changed);
    let base = s * (2 * w - 2);
    let at = place(m, j);
    let left = j * (2 * m) + m - 2;
    assert(nodes[at] == before.digests@[base + at]);
    assert(nodes_after[at] == after.digests@[base + at]);
    if t > 0 {
        assert(nodes_after[left] == after.digests@[base + left]);
        assert(nodes_after[left + 1] == after.digests@[base + (left + 1)]);
    } else {
        lemma_pow2_zero();
        assert(j * 1 == j);
    }
}

/// The number of leaves under each entry of the cap.
proof fn lemma_width<F: RichField, H: Hasher<F>>(tree: MerkleTree<F, H>, n: nat)
    requires
        tree.sized(),
        tree.cap.0@.len() * pow2(n) == tree.leaves@.len() as int / tree.leaf_size as int,
    ensures
        tree.width() == pow2(n),
        tree.digests@.len() == tree.cap.0@.len() * (2 * pow2(n) - 2),
{
    lemma_sized(tree);
    assert(tree.cap.0@.len() * pow2(n) == pow2(n) * tree.cap.0@.len()) by (nonlinear_arith);
    lemma_fundamental_div_mod_converse(
        tree.leaves_count(),
        tree.cap.0@.len() as int,
        pow2(n) as int,
        0,
    );
}

/// A change leaves each entry of the cap as it is that no changed leaf lies below. In a tree that
/// is all cap, the entry of a changed leaf becomes the digest of its row, and otherwise the entry
/// above one becomes the hash of its two children.
pub proof fn law_changed_cap_entry<F: RichField, H: Hasher<F>>(
    before: MerkleTree<F, H>,
    after: MerkleTree<F, H>,
    start: int,
    rows: Seq<Seq<F>>,
    n: nat,
    s: int,
)
    requires
        before.sized(),
        before.cap.0@.len() * pow2(n) == before.leaves@.len() as int / before.leaf_size as int,
        after.follows(&before, start, rows),
        0 <= s < before.cap.0@.len(),
    ensures
        after.cap.0@.len() == before.cap.0@.len(),
        ({
            let first = s * pow2(n);
            let left = s * (2 * pow2(n) - 2) + (pow2(n) - 2);
            &&& n > 0 ==> 0 <= left && left + 1 < after.digests@.len()
            &&& if first + pow2(n) <= start || start + rows.len() <= first || rows.len() == 0 {
                after.cap.0@[s] == before.cap.0@[s]
            } else if n == 0 {
                after.cap.0@[s] == H::spec_hash_or_noop(rows[s - start])
            } else {
                after.cap.0@[s] == H::spec_two_to_one(
                    after.digests@[left],
                    after.digests@[left + 1],
                )
            }
        }),
{
    let w = pow2(n) as int;
    let caps = before.cap.0@.len() as int;
    let new = row_digests::<F, H>(rows);
    lemma_width(before, n);
    lemma_pow2_pos(n);
    lemma_subtree_within(caps, w, s);
    assert(subtree_rehashed::<F, H>(
        before.digests@,
        before.cap.0@,
        after.digests@,
        after.cap.0@,
        w,
        s,
        start,
        new,
    ));
    let changed = fresh(start, new, s * w, w);
    lemma_fresh_span(start, new, s * w, w, 0, w);
    assert(changed.subrange(0, w) =~= changed);
    lemma_rehashed_len::<F, H>(subtree(before.digests@, w, s), changed);
    if n == 0 {
        lemma_pow2_zero();
        assert(s * 1 == s);
    } else {
        lemma_pow2_unfold(n);
        lemma_pow2_pos((n - 1) as nat);
        let nodes = subtree(after.digests@, w, s);
        assert(nodes[w - 2] == after.digests@[s * (2 * w - 2) + (w - 2)]);
        assert(nodes[w - 1] == after.digests@[s * (2 * w - 2) + (w - 2) + 1]);
    }
}

/// A change puts the first elements of each row where its leaf stands, and changes no other
/// element, behind the last whole leaf neither.
pub proof fn law_changed_element<F: RichField, H: Hasher<F>>(
    before: MerkleTree<F, H>,
    after: MerkleTree<F, H>,
    start: int,
    rows: Seq<Seq<F>>,
    k: int,
)
    requires
        before.sized(),
        after.follows(&before, start, rows),
        0 <= k < before.leaves@.len(),
    ensures
        after.leaf_size == before.leaf_size,
        after.leaves@.len() == before.leaves@.len(),
        ({
            let size = before.leaf_size as int;
            &&& !(start * size <= k < (start + rows.len()) * size) ==> after.leaves@[k]
                == before.leaves@[k]
            &&& forall|r: int, c: int| #![trigger rows[r][c]]
                0 <= r < rows.len() && 0 <= c < size && k == (start + r) * size + c
                    ==> after.leaves@[k] == rows[r][c]
        }),
{
    let size = before.leaf_size as int;
    let i = k / size;
    lemma_element_place(k, size, i);
    if !(start * size <= k < (start + rows.len()) * size) {
        assert(!(start <= i < start + rows.len())) by (nonlinear_arith)
            requires
                i * size <= k < i * size + size,
                size > 0,
                !(start * size <= k < (start + rows.len()) * size),
        ;
    }
    assert forall|r: int, c: int| #![trigger rows[r][c]]
        0 <= r < rows.len() && 0 <= c < size && k == (start + r) * size + c implies after.leaves@[k]
        == rows[r][c] by {
        lemma_fundamental_div_mod_converse(k, size, start + r, c);
    }
}

/// The siblings on a path stand at their places.
proof fn lemma_path_at<T>(nodes: Seq<T>, n: nat, r: int, t: nat)
    requires
        nodes.len() == 2 * pow2(n) - 2,
        0 <= r < pow2(n),
        t <= n,
    ensures
        path(nodes, pow2(n) as int, r).len() == n,
        t < n ==> ({
            let m = pow2(t) as int;
            let j = r / m;
            &&& 0 <= j < pow2((n - t) as nat)
            &&& path(nodes, pow2(n) as int, r)[t as int] == nodes[place(m, j + 1 - 2 * (j % 2))]
        }),
    decreases n,
{
    if n == 0 {
        lemma_pow2_zero();
    } else {
        let w = pow2(n) as int;
        let half = w / 2;
        lemma_layer_size(n, 0);
        let u = (n - 1) as nat;
        let v: nat = if t < u {
            t
        } else {
            u
        };
        let left = nodes.take(w - 2);
        let right = nodes.skip(w);
        if r < half {
            lemma_path_at(left, u, r, v);
        } else {
            lemma_path_at(right, u, r - half, v);
        }
        if t < n {
            let m = pow2(t) as int;
            let c = pow2((n - 1 - t) as nat) as int;
            let j = r / m;
            lemma_layer_size(n, t);
            assert((2 * c) * m == w && c * m == half);
            lemma_place_of(2 * c, m, r);
            let other = j + 1 - 2 * (j % 2);
            assert(0 <= other < 2 * c);
            lemma_place_split(n, t, other);
            if t == n - 1 {
                assert(m == half);
                lemma_fundamental_div_mod(r, m);
                if r < half {
                    lemma_fundamental_div_mod_converse(r, m, 0, r);
                } else {
                    lemma_fundamental_div_mod_converse(r, m, 1, r - half);
                }
            } else if r < half {
                lemma_place_of(c, m, r);
                assert(0 <= other < c);
            } else {
                lemma_place_of(c, m, r - half);
                let q = (r - half) / m;
                assert((q + c) * m == q * m + c * m) by (nonlinear_arith);
                lemma_fundamental_div_mod(r - half, m);
                assert(m * q == q * m) by (nonlinear_arith);
                lemma_fundamental_div_mod_converse(r, m, q + c, (r - half) % m);
                assert(j == q + c);
            }
        }
    }
}

/// A leaf lies below one of `c` nodes with `m` leaves each.
proof fn lemma_place_of(c: int, m: int, r: int)
    requires
        m >= 1,
        0 <= r < c * m,
    ensures
        0 <= r / m < c,
{
    lemma_place(c, m, r);
}

/// Sibling `t` of a proof is, from the leaf on, the other child of the node above: it stands beside
/// the node of layer `t` that the leaf lies below.
pub proof fn law_sibling_place<F: RichField, H: Hasher<F>>(
    tree: MerkleTree<F, H>,
    i: int,
    siblings: Seq<H::Hash>,
    n: nat,
    t: nat,
)
    requires
        tree.sized(),
        tree.cap.0@.len() * pow2(n) == tree.leaves@.len() as int / tree.leaf_size as int,
        0 <= i < tree.leaves@.len() as int / tree.leaf_size as int,
        siblings == path(
            subtree(tree.digests@, tree.width(), i / tree.width()),
            tree.width(),
            i % tree.width(),
        ),
        t < n,
    ensures
        siblings.len() == n,
        ({
            let s = i / pow2(n) as int;
            let j = (i % pow2(n) as int) / pow2(t) as int;
            let pair = s * (2 * pow2(n) - 2) + ((j / 2) * (4 * pow2(t)) + 2 * pow2(t) - 2);
            &&& 0 <= pair && pair + 1 < tree.digests@.len()
            &&& siblings[t as int] == tree.digests@[pair + (1 - j % 2)]
        }),
{
    let w = pow2(n) as int;
    let m = pow2(t) as int;
    let caps = tree.cap.0@.len() as int;
    lemma_width(tree, n);
    lemma_sized(tree);
    lemma_layer_size(n, t);
    lemma_place(caps, w, i);
    let s = i / w;
    let r = i % w;
    let j = r / m;
    lemma_subtree_within(caps, w, s);
    let nodes = subtree(tree.digests@, w, s);
    lemma_path_at(nodes, n, r, t);
    let other = j + 1 - 2 * (j % 2);
    assert(pow2((n - t) as nat) % 2 == 0);
    lemma_place_split(n, t, j);
    lemma_place_split(n, t, other);
    assert(other / 2 == j / 2 && other % 2 == 1 - j % 2);
    assert(nodes[place(m, other)] == tree.digests@[s * (2 * w - 2) + place(m, other)]);
}

/// In a tree that is all cap a proof has no siblings.
pub proof fn law_no_siblings<F: RichField, H: Hasher<F>>(
    tree: MerkleTree<F, H>,
    i: int,
    siblings: Seq<H::Hash>,
)
    requires
        tree.sized(),
        tree.cap.0@.len() == tree.leaves@.len() as int / tree.leaf_size as int,
        siblings == path(
            subtree(tree.digests@, tree.width(), i / tree.width()),
            tree.width(),
            i % tree.width(),
        ),
    ensures
        siblings.len() == 0,
{
    lemma_pow2_zero();
    lemma_width(tree, 0);
}

/// Siblings lead upwards step by step: where `up` begins with a digest and goes on, for each
/// sibling, with the hash of the two, the node with the even number on its layer on the left, it
/// ends with what the siblings lead to.
pub proof fn law_way_up<F: RichField, H: Hasher<F>>(
    index: int,
    siblings: Seq<H::Hash>,
    up: Seq<H::Hash>,
)
    requires
        index >= 0,
        up.len() == siblings.len() + 1,
        forall|t: int| #![trigger siblings[t]]
            0 <= t < siblings.len() ==> up[t + 1] == if (index / pow2(t as nat) as int)
                % 2 == 1 {
                H::spec_two_to_one(siblings[t], up[t])
            } else {
                H::spec_two_to_one(up[t], siblings[t])
            },
    ensures
        path_root::<F, H>(up[0], index, siblings) == up[siblings.len() as int],
    decreases siblings.len(),
{
    if siblings.len() > 0 {
        let rest = siblings.drop_first();
        let up_rest = up.drop_first();
        lemma_pow2_zero();
        assert(index / pow2(0) as int == index);
        assert(up[1] == if index % 2 == 1 {
            H::spec_two_to_one(siblings[0], up[0])
        } else {
            H::spec_two_to_one(up[0], siblings[0])
        });
        assert forall|t: int| #![trigger rest[t]]
            0 <= t < rest.len() implies up_rest[t + 1] == if ((index
            / 2) / pow2(t as nat) as int) % 2 == 1 {
            H::spec_two_to_one(rest[t], up_rest[t])
        } else {
            H::spec_two_to_one(up_rest[t], rest[t])
        } by {
            lemma_pow2_unfold((t + 1) as nat);
            lemma_pow2_pos(t as nat);
            lemma_div_denominator(index, 2, pow2(t as nat) as int);
            assert(rest[t] == siblings[t + 1]);
        }
        law_way_up::<F, H>(index / 2, rest, up_rest);
    }
}

/// Where the digest of a node stands level by level.
proof fn lemma_regrouped_at<T>(nodes: Seq<T>, size: int, n: nat, q: int, t: nat, j: int)
    requires
        t < n,
        0 <= j < pow2((n - t) as nat),
    ensures
        regrouped(nodes, size, pow2(n) as int, q).len() == 2 * pow2(n) - 2,
        regrouped(nodes, size, pow2(n) as int, q)[place(pow2(t) as int, j)] == nodes[(size + q)
            * pow2((n - t) as nat) - 2 + j],
    decreases n,
{
    let w = pow2(n) as int;
    let half = w / 2;
    lemma_layer_size(n, t);
    lemma_place_split(n, t, j);
    lemma_pow2_is_pow2(n);
    lemma_pow2_is_pow2((n - 1) as nat);
    lemma_regrouped_len(nodes, size, w, q);
    lemma_regrouped_len(nodes, 2 * size, half, 2 * q);
    lemma_regrouped_len(nodes, 2 * size, half, 2 * q + 1);
    let c = pow2((n - 1 - t) as nat) as int;
    assert((size + q) * (2 * c) == (2 * size + 2 * q) * c && (2 * size + (2 * q + 1)) * c == (2
        * size + 2 * q) * c + c) by (nonlinear_arith);
    if t == n - 1 {
        assert((size + q) * 2 == 2 * size + 2 * q);
    } else if j < c {
        lemma_regrouped_at(nodes, 2 * size, (n - 1) as nat, 2 * q, t, j);
    } else {
        lemma_regrouped_at(nodes, 2 * size, (n - 1) as nat, 2 * q + 1, t, j - c);
    }
}

/// Digests that come level by level are put at their places: node `j` on layer `t` of a subtree of
/// `2^n` leaves comes as number `j` of the `2^(n - t)` nodes of its layer, which follow the
/// `2^(n - t) - 2` nodes of the layers above.
pub proof fn law_level_place<T>(levels: Seq<T>, n: nat, t: nat, j: int)
    requires
        levels.len() == 2 * pow2(n) - 2,
        t < n,
        0 <= j < pow2((n - t) as nat),
    ensures
        regrouped(levels, 1, pow2(n) as int, 0).len() == levels.len(),
        ({
            let at = (j / 2) * (4 * pow2(t)) + 2 * pow2(t) - 2 + j % 2;
            &&& 0 <= at < levels.len()
            &&& regrouped(levels, 1, pow2(n) as int, 0)[at] == levels[pow2((n - t) as nat) - 2
                + j]
        }),
{
    lemma_place_split(n, t, j);
    lemma_regrouped_at(levels, 1, n, 0, t, j);
    assert((1 + 0) * pow2((n - t) as nat) == pow2((n - t) as nat)) by (nonlinear_arith);
}

} // verus!

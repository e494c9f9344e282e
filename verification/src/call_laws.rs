//! What calls give, alone and one after the other.

use crate::config::{GenericHashOut, Hasher, HasherType, RichField};
use crate::device::{
    device_buffer_len, digests_from_device, from_device, hashes_on_host, is_host_order, next_gpu,
    plan_device, ByteOrder, DevicePlan,
};
use crate::device_laws::{
    law_buffer_len, law_device_buildable, law_device_cap_entry, law_device_digest_place,
};
use crate::fill::{fill_digests_buf, fill_digests_buf_meta, fillable, lemma_leaf_fits};
use crate::laws::{
    law_filled_alike, law_leaf_elements, law_proofs_verify, law_rows_come_back,
    law_same_leaves_same_tree, law_what_can_be_built,
};
use crate::layout::leaf_at;
use crate::merkle_proofs::{verify_merkle_proof_to_cap, MerkleProof, MerkleProofError};
use crate::merkle_tree::{MerkleCap, MerkleTree};
use crate::places::{law_sibling_place, law_tree_cap_entry, law_tree_digest, law_way_up};
use crate::update::lemma_sized;
use crate::util::{lemma_pow2_ordered, log2_strict, shl_one};
use vstd::arithmetic::div_mod::{lemma_div_by_multiple, lemma_div_by_self};
use vstd::arithmetic::power2::{lemma_pow2_pos, pow2};
use vstd::prelude::*;

verus! {

/// The GPUs take turns: after the last one comes the first, and no other is left out.
pub proof fn law_gpus_take_turns(gpu_id: u64, num_gpus: usize, next: u64)
    requires
        call_ensures(next_gpu, (gpu_id, num_gpus), next),
    ensures
        gpu_id + 1 < num_gpus ==> next == gpu_id + 1,
        gpu_id + 1 >= num_gpus ==> next == 0,
{
}

/// The hashing is done on the host for Keccak, and where a leaf has no more bytes than a digest:
/// eight for each element.
pub proof fn law_hashing_on_host<F: RichField, H: Hasher<F>>(leaf_size: usize, on_host: bool)
    requires
        call_ensures(hashes_on_host::<F, H>, (leaf_size,), on_host),
    ensures
        on_host <==> 8 * leaf_size <= H::HASH_SIZE || H::HASHER_TYPE == HasherType::Keccak,
{
}

/// A device is told the leaves, the entries of the cap and the digests, which are two for each leaf
/// but for each leaf that an entry stands for; and it gets four words of room for each digest.
pub proof fn law_plan<F: RichField, H: Hasher<F>>(
    leaves_len: usize,
    leaf_len: usize,
    cap_height: usize,
    num_gpus: usize,
    plan: DevicePlan,
)
    requires
        call_ensures(plan_device::<F, H>, (leaves_len, leaf_len, cap_height, num_gpus), plan),
    ensures
        plan.leaves_count == leaves_len,
        plan.leaf_size == leaf_len,
        plan.cap_height == cap_height,
        plan.caps_count == pow2(cap_height as nat),
        plan.digests_count + 2 * plan.caps_count == 2 * plan.leaves_count,
        plan.digests_count > 0 ==> plan.digests_size == 4 * plan.digests_count,
        plan.digests_count == 0 ==> plan.digests_size == 4,
        plan.caps_size == 4 * plan.caps_count,
        !plan.multi_gpu,
{
}

/// A buffer has four elements for each digest, and four for none.
pub proof fn law_buffer(count: usize, len: usize)
    requires
        call_ensures(device_buffer_len, (count,), len),
    ensures
        count > 0 ==> len == 4 * count,
        count == 0 ==> len == 4,
{
}

/// Digest `i` that is taken from a buffer is made of elements `4 * i` to `4 * i + 3`, byte after
/// byte in the given order, and there are as many digests as asked for.
pub proof fn law_digests_taken<F: RichField, H: Hasher<F>>(
    elements: &[F],
    order: ByteOrder,
    count: usize,
    digests: Vec<H::Hash>,
    i: int,
    bytes: Seq<u8>,
)
    requires
        call_ensures(digests_from_device::<F, H>, (elements, order, count), digests),
        0 <= i < count,
        bytes.len() == H::HASH_SIZE,
        forall|b: int|
            0 <= b < bytes.len() ==> #[trigger] bytes[b] as int == (elements@[4 * i + b
                / 8].spec_to_canonical_u64() as int / pow2(
                (8 * match order {
                    ByteOrder::LowestFirst => b % 8,
                    ByteOrder::HighestFirst => 7 - b % 8,
                }) as nat,
            ) as int) % 256,
    ensures
        digests@.len() == count,
        digests@[i] == <H::Hash as GenericHashOut<F>>::spec_from_bytes(bytes),
{
}

/// A tree can be built wherever there are `2^k` whole leaves and the cap is not higher than `k`;
/// and nowhere else.
pub proof fn law_can_build<F: RichField, H: Hasher<F>>(
    len: usize,
    leaf_size: usize,
    cap_height: usize,
    b: bool,
)
    requires
        call_ensures(MerkleTree::<F, H>::can_build, (len, leaf_size, cap_height), b),
    ensures
        b <==> leaf_size > 0 && (exists|k: nat|
            len as int / leaf_size as int == #[trigger] pow2(k) && cap_height <= k),
{
}

/// Where a tree can be built, it may be.
pub proof fn law_can_build_is_enough<F: RichField, H: Hasher<F>>(
    leaves_1d: Vec<F>,
    leaf_size: usize,
    cap_height: usize,
)
    requires
        call_ensures(
            MerkleTree::<F, H>::can_build,
            (leaves_1d.len(), leaf_size, cap_height),
            true,
        ),
    ensures
        call_requires(MerkleTree::<F, H>::new_from_1d, (leaves_1d, leaf_size, cap_height)),
{
}

/// A tree that is built keeps its leaves, has `2^cap_height` entries in its cap, and each entry is
/// the node over its leaves.
pub proof fn law_built_cap<F: RichField, H: Hasher<F>>(
    leaves_1d: Vec<F>,
    leaf_size: usize,
    cap_height: usize,
    tree: MerkleTree<F, H>,
    n: nat,
    node: spec_fn(nat, int) -> H::Hash,
    s: int,
)
    requires
        call_ensures(
            MerkleTree::<F, H>::new_from_1d,
            (leaves_1d, leaf_size, cap_height),
            tree,
        ),
        pow2(cap_height as nat) * pow2(n) == leaves_1d@.len() as int / leaf_size as int,
        forall|i: int|
            0 <= i ==> #[trigger] node(0, i) == H::spec_hash_or_noop(
                leaves_1d@.subrange(i * leaf_size, (i + 1) * leaf_size),
            ),
        forall|u: nat, i: int|
            0 < u && 0 <= i ==> #[trigger] node(u, i) == H::spec_two_to_one(
                node((u - 1) as nat, 2 * i),
                node((u - 1) as nat, 2 * i + 1),
            ),
        0 <= s < pow2(cap_height as nat),
    ensures
        tree.leaves@ == leaves_1d@,
        tree.leaf_size == leaf_size,
        tree.cap.0@.len() == pow2(cap_height as nat),
        tree.cap.0@[s] == node(n, s),
{
    law_tree_cap_entry(tree, n, node, s);
}

/// Each digest of a tree that is built stands at its place and is the node over its leaves.
pub proof fn law_built_digest<F: RichField, H: Hasher<F>>(
    leaves_1d: Vec<F>,
    leaf_size: usize,
    cap_height: usize,
    tree: MerkleTree<F, H>,
    n: nat,
    node: spec_fn(nat, int) -> H::Hash,
    s: int,
    t: nat,
    j: int,
)
    requires
        call_ensures(
            MerkleTree::<F, H>::new_from_1d,
            (leaves_1d, leaf_size, cap_height),
            tree,
        ),
        pow2(cap_height as nat) * pow2(n) == leaves_1d@.len() as int / leaf_size as int,
        forall|i: int|
            0 <= i ==> #[trigger] node(0, i) == H::spec_hash_or_noop(
                leaves_1d@.subrange(i * leaf_size, (i + 1) * leaf_size),
            ),
        forall|u: nat, i: int|
            0 < u && 0 <= i ==> #[trigger] node(u, i) == H::spec_two_to_one(
                node((u - 1) as nat, 2 * i),
                node((u - 1) as nat, 2 * i + 1),
            ),
        0 <= s < pow2(cap_height as nat),
        t < n,
        0 <= j < pow2((n - t) as nat),
    ensures
        tree.digests@.len() == pow2(cap_height as nat) * (2 * pow2(n) - 2),
        tree.digests@[s * (2 * pow2(n) - 2) + ((j / 2) * (4 * pow2(t)) + 2 * pow2(t) - 2 + j % 2)]
            == node(t, s * pow2((n - t) as nat) + j),
{
    law_tree_digest(tree, n, node, s, t, j);
}

/// Rows of the same length come back, each under its number, from the tree that is built over
/// them.
pub proof fn law_built_row<F: RichField, H: Hasher<F>>(
    leaves_2d: Vec<Vec<F>>,
    cap_height: usize,
    tree: MerkleTree<F, H>,
    i: usize,
    leaf: &[F],
)
    requires
        call_ensures(MerkleTree::<F, H>::new_from_2d, (leaves_2d, cap_height), tree),
        call_ensures(MerkleTree::<F, H>::get, (&tree, i), leaf),
        i < leaves_2d@.len(),
        leaves_2d@[0]@.len() > 0,
        forall|j: int|
            0 <= j < leaves_2d@.len() ==> (#[trigger] leaves_2d@[j])@.len()
                == leaves_2d@[0]@.len(),
    ensures
        leaf@ == leaves_2d@[i as int]@,
{
    law_rows_come_back(leaves_2d@, i as int);
}

/// Two trees that are built over the same leaves with the same cap are the same.
pub proof fn law_built_alike<F: RichField, H: Hasher<F>>(
    leaves_1d: Vec<F>,
    leaf_size: usize,
    cap_height: usize,
    a: MerkleTree<F, H>,
    b: MerkleTree<F, H>,
)
    requires
        call_ensures(MerkleTree::<F, H>::new_from_1d, (leaves_1d, leaf_size, cap_height), a),
        call_ensures(MerkleTree::<F, H>::new_from_1d, (leaves_1d, leaf_size, cap_height), b),
    ensures
        a.leaves@ == b.leaves@,
        a.leaf_size == b.leaf_size,
        a.digests@ == b.digests@,
        a.cap.0@ == b.cap.0@,
{
    law_same_leaves_same_tree(a, b);
}

/// The proof that a tree gives for a leaf is accepted for that leaf, against the cap of the tree.
pub proof fn law_proof_is_accepted<F: RichField, H: Hasher<F>>(
    tree: MerkleTree<F, H>,
    i: usize,
    proof_of: MerkleProof<F, H>,
    leaf: Vec<F>,
    result: Result<(), MerkleProofError>,
)
    requires
        tree.sized(),
        tree.hashed(),
        i < tree.leaves@.len() as int / tree.leaf_size as int,
        call_ensures(MerkleTree::<F, H>::prove, (&tree, i), proof_of),
        leaf@ == tree.leaves@.subrange(i * tree.leaf_size, (i + 1) * tree.leaf_size),
        call_ensures(
            verify_merkle_proof_to_cap::<F, H>,
            (leaf, i, &tree.cap, &proof_of),
            result,
        ),
    ensures
        result == Ok::<(), MerkleProofError>(()),
{
    lemma_sized(tree);
    law_proofs_verify(tree, i as int, proof_of.siblings@);
}

/// A proof is accepted where the way up from the leaf, step by step with its siblings, ends at the
/// entry of the cap that it leads to, and refused where it does not.
pub proof fn law_proof_is_checked<F: RichField, H: Hasher<F>>(
    leaf: Vec<F>,
    i: usize,
    cap: MerkleCap<F, H>,
    proof_of: MerkleProof<F, H>,
    up: Seq<H::Hash>,
    result: Result<(), MerkleProofError>,
)
    requires
        call_ensures(verify_merkle_proof_to_cap::<F, H>, (leaf, i, &cap, &proof_of), result),
        up.len() == proof_of.siblings@.len() + 1,
        up[0] == H::spec_hash_or_noop(leaf@),
        forall|t: int| #![trigger proof_of.siblings@[t]]
            0 <= t < proof_of.siblings@.len() ==> up[t + 1] == if (i as int / pow2(
                t as nat,
            ) as int) % 2 == 1 {
                H::spec_two_to_one(proof_of.siblings@[t], up[t])
            } else {
                H::spec_two_to_one(up[t], proof_of.siblings@[t])
            },
    ensures
        ({
            let n = proof_of.siblings@.len();
            &&& result is Ok <==> up[n as int] == cap.0@[i as int / pow2(n) as int]
            &&& result is Err ==> result == Err::<(), MerkleProofError>(
                MerkleProofError::InvalidMerkleProof,
            )
        }),
{
    law_way_up::<F, H>(i as int, proof_of.siblings@, up);
    lemma_pow2_pos(proof_of.siblings@.len());
}

/// Sibling `t` of the proof that a tree gives for a leaf stands beside the node of layer `t` that
/// the leaf lies below, and there are as many siblings as layers below the cap.
pub proof fn law_proved_sibling<F: RichField, H: Hasher<F>>(
    tree: MerkleTree<F, H>,
    i: usize,
    proof_of: MerkleProof<F, H>,
    n: nat,
    t: nat,
)
    requires
        tree.sized(),
        tree.cap.0@.len() * pow2(n) == tree.leaves@.len() as int / tree.leaf_size as int,
        i < tree.leaves@.len() as int / tree.leaf_size as int,
        call_ensures(MerkleTree::<F, H>::prove, (&tree, i), proof_of),
        t < n,
    ensures
        proof_of.siblings@.len() == n,
        ({
            let s = i as int / pow2(n) as int;
            let j = (i as int % pow2(n) as int) / pow2(t) as int;
            let pair = s * (2 * pow2(n) - 2) + ((j / 2) * (4 * pow2(t)) + 2 * pow2(t) - 2);
            proof_of.siblings@[t as int] == tree.digests@[pair + (1 - j % 2)]
        }),
{
    law_sibling_place(tree, i as int, proof_of.siblings@, n, t);
}

/// The logarithm and the shift undo one another.
pub proof fn law_log_and_shift(k: usize, n: usize, log: usize)
    requires
        call_ensures(shl_one, (k,), n),
        call_ensures(log2_strict, (n,), log),
    ensures
        n == pow2(k as nat),
        log == k,
{
    lemma_pow2_ordered(log as nat, k as nat);
    lemma_pow2_ordered(k as nat, log as nat);
}

/// The height of a cap is the number of times that its entries can be halved.
pub proof fn law_cap_height<F: RichField, H: Hasher<F>>(cap: MerkleCap<F, H>, h: usize, len: usize)
    requires
        call_ensures(MerkleCap::<F, H>::height, (&cap,), h),
        call_ensures(MerkleCap::<F, H>::len, (&cap,), len),
    ensures
        len == cap.0@.len(),
        len == pow2(h as nat),
{
}

/// The tree that is made of what a GPU handed back keeps the leaves, and entry `c` of its cap is
/// made of words `4 * c` to `4 * c + 3` of what came for the cap, byte after byte in the order of
/// this host.
pub proof fn law_gpu_cap_entry<F: RichField, H: Hasher<F>>(
    host_leaves: Vec<F>,
    host_digests: &[F],
    host_caps: &[F],
    leaves_len: usize,
    leaf_len: usize,
    cap_height: usize,
    tree: MerkleTree<F, H>,
    c: int,
)
    requires
        call_ensures(
            MerkleTree::<F, H>::new_from_gpu_leaves,
            (host_leaves, host_digests, host_caps, leaves_len, leaf_len, cap_height),
            tree,
        ),
        H::HASH_SIZE <= 32,
        host_caps@.len() == 4 * pow2(cap_height as nat),
        0 <= c < pow2(cap_height as nat),
    ensures
        tree.leaves@ == host_leaves@,
        tree.leaf_size == leaf_len,
        tree.cap.0@.len() == pow2(cap_height as nat),
        exists|order: ByteOrder| #[trigger]
            is_host_order(order) && forall|bytes: Seq<u8>|
                bytes.len() == H::HASH_SIZE && (forall|b: int|
                    0 <= b < bytes.len() ==> #[trigger] bytes[b] as int == (host_caps@[4 * c + b
                        / 8].spec_to_canonical_u64() as int / pow2(
                        (8 * match order {
                            ByteOrder::LowestFirst => b % 8,
                            ByteOrder::HighestFirst => 7 - b % 8,
                        }) as nat,
                    ) as int) % 256) ==> tree.cap.0@[c]
                    == #[trigger] <H::Hash as GenericHashOut<F>>::spec_from_bytes(bytes),
{
    let order = choose|order: ByteOrder| #[trigger]
        is_host_order(order) && from_device::<F, H>(
            tree.digests@,
            tree.cap.0@,
            host_digests@,
            host_caps@,
            order,
            leaves_len as int,
            cap_height as int,
        );
    assert forall|bytes: Seq<u8>|
        bytes.len() == H::HASH_SIZE && (forall|b: int|
            0 <= b < bytes.len() ==> #[trigger] bytes[b] as int == (host_caps@[4 * c + b
                / 8].spec_to_canonical_u64() as int / pow2(
                (8 * match order {
                    ByteOrder::LowestFirst => b % 8,
                    ByteOrder::HighestFirst => 7 - b % 8,
                }) as nat,
            ) as int) % 256) implies tree.cap.0@[c] == #[trigger] <H::Hash as GenericHashOut<
        F,
    >>::spec_from_bytes(bytes) by {
        law_device_cap_entry::<F, H>(
            tree.digests@,
            tree.cap.0@,
            host_digests@,
            host_caps@,
            order,
            leaves_len as int,
            cap_height as nat,
            c,
            bytes,
        );
    }
}

/// In subtree `s` of the tree that is made of what a GPU handed back, node `j` on layer `t` stands
/// at its place, and is made of the four words that came for it, byte after byte in the order of
/// this host: those of number `j` of its layer, which follows the layers above.
pub proof fn law_gpu_digest<F: RichField, H: Hasher<F>>(
    host_leaves: Vec<F>,
    host_digests: &[F],
    host_caps: &[F],
    leaves_len: usize,
    leaf_len: usize,
    cap_height: usize,
    tree: MerkleTree<F, H>,
    n: nat,
    s: int,
    t: nat,
    j: int,
)
    requires
        call_ensures(
            MerkleTree::<F, H>::new_from_gpu_leaves,
            (host_leaves, host_digests, host_caps, leaves_len, leaf_len, cap_height),
            tree,
        ),
        H::HASH_SIZE <= 32,
        leaves_len == pow2(cap_height as nat) * pow2(n),
        host_digests@.len() == 4 * (pow2(cap_height as nat) * (2 * pow2(n) - 2)),
        0 <= s < pow2(cap_height as nat),
        t < n,
        0 <= j < pow2((n - t) as nat),
    ensures
        tree.digests@.len() == pow2(cap_height as nat) * (2 * pow2(n) - 2),
        ({
            let q = s * (2 * pow2(n) - 2) + (pow2((n - t) as nat) - 2 + j);
            let at = s * (2 * pow2(n) - 2) + ((j / 2) * (4 * pow2(t)) + 2 * pow2(t) - 2 + j % 2);
            exists|order: ByteOrder| #[trigger]
                is_host_order(order) && forall|bytes: Seq<u8>|
                    bytes.len() == H::HASH_SIZE && (forall|b: int|
                        0 <= b < bytes.len() ==> #[trigger] bytes[b] as int == (host_digests@[4 * q
                            + b / 8].spec_to_canonical_u64() as int / pow2(
                            (8 * match order {
                                ByteOrder::LowestFirst => b % 8,
                                ByteOrder::HighestFirst => 7 - b % 8,
                            }) as nat,
                        ) as int) % 256) ==> tree.digests@[at]
                        == #[trigger] <H::Hash as GenericHashOut<F>>::spec_from_bytes(bytes)
        }),
{
    let q = s * (2 * pow2(n) - 2) + (pow2((n - t) as nat) - 2 + j);
    let at = s * (2 * pow2(n) - 2) + ((j / 2) * (4 * pow2(t)) + 2 * pow2(t) - 2 + j % 2);
    let order = choose|order: ByteOrder| #[trigger]
        is_host_order(order) && from_device::<F, H>(
            tree.digests@,
            tree.cap.0@,
            host_digests@,
            host_caps@,
            order,
            leaves_len as int,
            cap_height as int,
        );
    assert(2 * (leaves_len - pow2(cap_height as nat)) == pow2(cap_height as nat) * (2 * pow2(n)
        - 2)) by (nonlinear_arith)
        requires
            leaves_len == pow2(cap_height as nat) * pow2(n),
    ;
    assert forall|bytes: Seq<u8>|
        bytes.len() == H::HASH_SIZE && (forall|b: int|
            0 <= b < bytes.len() ==> #[trigger] bytes[b] as int == (host_digests@[4 * q + b
                / 8].spec_to_canonical_u64() as int / pow2(
                (8 * match order {
                    ByteOrder::LowestFirst => b % 8,
                    ByteOrder::HighestFirst => 7 - b % 8,
                }) as nat,
            ) as int) % 256) implies tree.digests@[at] == #[trigger] <H::Hash as GenericHashOut<
        F,
    >>::spec_from_bytes(bytes) by {
        law_device_digest_place::<F, H>(
            tree.digests@,
            tree.cap.0@,
            host_digests@,
            host_caps@,
            order,
            n,
            cap_height as nat,
            s,
            t,
            j,
            bytes,
        );
    }
}

/// `fill_digests_buf_meta` gives exactly what `fill_digests_buf` gives, wherever they can be
/// called.
pub proof fn law_fill_meta_is_fill<F: RichField, H: Hasher<F>>(
    digests_len: usize,
    cap_len: usize,
    leaves: Vec<F>,
    leaf_size: usize,
    cap_height: usize,
    a: (Vec<H::Hash>, Vec<H::Hash>),
    b: (Vec<H::Hash>, Vec<H::Hash>),
)
    requires
        fillable(
            leaves@.len() as int,
            leaf_size as int,
            digests_len as int,
            cap_len as int,
            cap_height as int,
        ),
        call_ensures(
            fill_digests_buf::<F, H>,
            (digests_len, cap_len, &leaves, leaf_size, cap_height),
            a,
        ),
        call_ensures(
            fill_digests_buf_meta::<F, H>,
            (digests_len, cap_len, &leaves, leaf_size, cap_height),
            b,
        ),
    ensures
        a.0@ == b.0@,
        a.1@ == b.1@,
{
    law_filled_alike::<F, H>(
        digests_len,
        cap_len,
        leaves,
        leaf_size,
        cap_height,
        (a.0@, a.1@),
        (b.0@, b.1@),
    );
}

/// The leaves that a tree gives row by row are its elements, in leaves of the same size, and what
/// it counts are these rows.
pub proof fn law_leaves_row_by_row<F: RichField, H: Hasher<F>>(
    tree: MerkleTree<F, H>,
    rows: Vec<Vec<F>>,
    count: usize,
    i: int,
    c: int,
)
    requires
        tree.leaf_size > 0,
        call_ensures(MerkleTree::<F, H>::get_leaves_2d, (&tree,), rows),
        call_ensures(MerkleTree::<F, H>::get_leaves_count, (&tree,), count),
        0 <= i < count,
        0 <= c < tree.leaf_size,
    ensures
        count == tree.leaves@.len() as int / tree.leaf_size as int,
        rows@.len() == count,
        rows@[i]@.len() == tree.leaf_size,
        rows@[i]@[c] == tree.leaves@[i * tree.leaf_size + c],
{
    let leaf_size = tree.leaf_size as int;
    lemma_leaf_fits(tree.leaves@.len() as int, leaf_size, i);
    law_leaf_elements(tree.leaves@, leaf_size, i, c);
    assert(rows@[i]@ == leaf_at(tree.leaves@, leaf_size, i));
}

/// A leaf of a tree can be proved, and in a tree that is all cap any number can. Where the siblings
/// of a proof lead to an entry of the cap, it can be checked.
pub proof fn law_may_prove_and_check<F: RichField, H: Hasher<F>>(
    tree: MerkleTree<F, H>,
    leaf: Vec<F>,
    i: usize,
    proof_of: MerkleProof<F, H>,
)
    requires
        tree.sized(),
    ensures
        i < tree.leaves@.len() as int / tree.leaf_size as int || tree.cap.0@.len()
            == tree.leaves@.len() as int / tree.leaf_size as int ==> call_requires(
            MerkleTree::<F, H>::prove,
            (&tree, i),
        ),
        (i as int / pow2(proof_of.siblings@.len()) as int) < tree.cap.0@.len() ==> call_requires(
            verify_merkle_proof_to_cap::<F, H>,
            (leaf, i, &tree.cap, &proof_of),
        ),
{
    lemma_sized(tree);
    if tree.cap.0@.len() == tree.leaves@.len() as int / tree.leaf_size as int {
        lemma_div_by_self(tree.cap.0@.len() as int);
    }
    lemma_pow2_pos(proof_of.siblings@.len());
}

/// Rows of the same length, `2^k` of them, can be built into a tree with a cap of any height up to
/// `k`.
pub proof fn law_may_build_rows<F: RichField, H: Hasher<F>>(
    leaves_2d: Vec<Vec<F>>,
    cap_height: usize,
    k: nat,
)
    requires
        leaves_2d@.len() == pow2(k),
        cap_height <= k,
        leaves_2d@[0]@.len() > 0,
        forall|j: int|
            0 <= j < leaves_2d@.len() ==> (#[trigger] leaves_2d@[j])@.len() == 0
                || leaves_2d@[j]@.len() == leaves_2d@[0]@.len(),
    ensures
        call_requires(MerkleTree::<F, H>::new_from_2d, (leaves_2d, cap_height)),
{
    let size = leaves_2d@[0]@.len() as int;
    lemma_pow2_pos(k);
    law_rows_come_back(leaves_2d@, 0);
    lemma_div_by_multiple(pow2(k) as int, size);
    law_what_can_be_built((pow2(k) * size) as int, size, cap_height as int);
    assert((pow2(k) * size) as int / size == pow2(k));
}

/// What a GPU hands back for `2^k` leaves and a cap of any height up to `k` can be made into a
/// tree, where a digest has no more than 32 bytes and there is room for four words of each.
pub proof fn law_may_build_from_gpu<F: RichField, H: Hasher<F>>(
    host_leaves: Vec<F>,
    host_digests: &[F],
    host_caps: &[F],
    leaves_len: usize,
    leaf_len: usize,
    cap_height: usize,
    k: nat,
)
    requires
        H::HASH_SIZE <= 32,
        leaves_len == pow2(k),
        cap_height <= k,
        8 * leaves_len <= usize::MAX,
        host_digests@.len() == if leaves_len == pow2(cap_height as nat) {
            4
        } else {
            8 * (leaves_len - pow2(cap_height as nat))
        },
        host_caps@.len() == 4 * pow2(cap_height as nat),
    ensures
        call_requires(
            MerkleTree::<F, H>::new_from_gpu_leaves,
            (host_leaves, host_digests, host_caps, leaves_len, leaf_len, cap_height),
        ),
        call_requires(plan_device::<F, H>, (leaves_len, leaf_len, cap_height, 1usize)),
{
    lemma_pow2_ordered(cap_height as nat, k);
    lemma_pow2_pos(cap_height as nat);
    law_device_buildable(leaves_len as int, cap_height as int);
    assert(leaves_len == pow2(k));
    law_buffer_len(2 * (leaves_len - pow2(cap_height as nat)), pow2(cap_height as nat) as int);
    law_buffer_len(pow2(cap_height as nat) as int, 0);
}

} // verus!

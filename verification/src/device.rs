//! Building a tree with the help of GPUs: which work goes to them, how large the buffers are,
//! and how what comes back becomes a tree.

use crate::config::{GenericHashOut, Hasher, HasherType, RichField};
use crate::device_laws::law_digest_of_words;
use crate::layout::{lemma_buildable, lemma_cap_fits, subtree};
use crate::levels::{from_levels, regrouped};
use crate::merkle_tree::{MerkleCap, MerkleTree};
use crate::util::shl_one;
use vstd::arithmetic::div_mod::{lemma_mod_self_0, lemma_small_mod};
use vstd::arithmetic::power2::{is_pow2, pow2};
use vstd::prelude::*;
use vstd::slice::slice_subrange;

verus! {

/// The number of field elements in which a device hands back one digest.
pub const NUM_HASH_OUT_ELTS: usize = 4;

/// Whether a tree is always built on a single GPU.
pub const FORCE_SINGLE_GPU: bool = true;

/// The number of leaves from which on more than one GPU is worth it.
pub const MULTI_GPU_LEAVES: u64 = 4096;

/// Whether the hashing is done on the host: small leaves do not pay the way to a device, and
/// Keccak is not computed there.
pub fn hashes_on_host<F: RichField, H: Hasher<F>>(leaf_size: usize) -> (on_host: bool)
    ensures
        on_host == (leaf_size <= H::HASH_SIZE / 8 || H::HASHER_TYPE == HasherType::Keccak),
{
    leaf_size <= H::HASH_SIZE / 8 || H::HASHER_TYPE == HasherType::Keccak
}

/// The GPU that takes the next tree after GPU `gpu_id`: the GPUs take turns.
pub fn next_gpu(gpu_id: u64, num_gpus: usize) -> (next: u64)
    requires
        gpu_id < u64::MAX,
    ensures
        next == if gpu_id + 1 >= num_gpus {
            0
        } else {
            gpu_id + 1
        },
        gpu_id < num_gpus ==> next == (gpu_id + 1) % num_gpus as int,
{
    let next: u64 = gpu_id + 1;
    proof {
        if gpu_id + 1 == num_gpus {
            lemma_mod_self_0(num_gpus as int);
        } else if gpu_id + 1 < num_gpus {
            lemma_small_mod((gpu_id + 1) as nat, num_gpus as nat);
        }
    }
    if next >= num_gpus as u64 {
        0
    } else {
        next
    }
}

/// The number of field elements of a device's buffer for `count` digests. An empty buffer cannot
/// be allocated there, so no digests take as much as one.
pub open spec fn device_len(count: int) -> int {
    if count == 0 {
        NUM_HASH_OUT_ELTS as int
    } else {
        count * NUM_HASH_OUT_ELTS
    }
}

/// The number of field elements of a device's buffer for `count` digests.
pub fn device_buffer_len(count: usize) -> (len: usize)
    requires
        device_len(count as int) <= usize::MAX,
    ensures
        len == device_len(count as int),
        len == if count == 0 {
            4
        } else {
            4 * count as int
        },
{
    if count == 0 {
        NUM_HASH_OUT_ELTS
    } else {
        count * NUM_HASH_OUT_ELTS
    }
}

/// What a device is told to build a tree, and the sizes of its buffers.
#[derive(Clone, Copy, Debug, Eq, PartialEq)]
pub struct DevicePlan {
    pub digests_count: u64,
    pub caps_count: u64,
    pub leaves_count: u64,
    pub leaf_size: u64,
    pub cap_height: u64,
    /// The number of field elements of the buffer for the digests.
    pub digests_size: usize,
    /// The number of field elements of the buffer for the cap.
    pub caps_size: usize,
    /// Whether all GPUs share the work.
    pub multi_gpu: bool,
}

/// A tree of `leaves_len` leaves with a cap of height `cap_height` can be built on a device.
pub open spec fn device_buildable(leaves_len: int, cap_height: int) -> bool {
    &&& cap_height >= 0
    &&& is_pow2(leaves_len)
    &&& pow2(cap_height as nat) <= leaves_len
    &&& device_len(2 * (leaves_len - pow2(cap_height as nat))) <= usize::MAX
    &&& device_len(pow2(cap_height as nat) as int) <= usize::MAX
}

/// What a device is told to build the tree over `leaves_len` leaves of `leaf_len` elements.
pub fn plan_device<F: RichField, H: Hasher<F>>(
    leaves_len: usize,
    leaf_len: usize,
    cap_height: usize,
    num_gpus: usize,
) -> (plan: DevicePlan)
    requires
        device_buildable(leaves_len as int, cap_height as int),
    ensures
        plan.caps_count == pow2(cap_height as nat),
        plan.digests_count == 2 * (leaves_len - pow2(cap_height as nat)),
        plan.leaves_count == leaves_len,
        plan.leaf_size == leaf_len,
        plan.cap_height == cap_height,
        plan.digests_size == device_len(plan.digests_count as int),
        plan.caps_size == device_len(plan.caps_count as int),
        plan.digests_size == if plan.digests_count == 0 {
            4
        } else {
            4 * plan.digests_count as int
        },
        plan.caps_size == 4 * plan.caps_count,
        !plan.multi_gpu,
        plan.multi_gpu == (!FORCE_SINGLE_GPU && leaves_len >= MULTI_GPU_LEAVES && cap_height > 0
            && num_gpus > 1 && H::HASHER_TYPE == HasherType::PoseidonBN128),
{
    proof {
        lemma_cap_fits(leaves_len, cap_height);
    }
    let len_cap: usize = shl_one(cap_height);
    let num_digests: usize = 2 * (leaves_len - len_cap);
    let leaves_count: u64 = leaves_len as u64;
    DevicePlan {
        digests_count: num_digests as u64,
        caps_count: len_cap as u64,
        leaves_count,
        leaf_size: leaf_len as u64,
        cap_height: cap_height as u64,
        digests_size: device_buffer_len(num_digests),
        caps_size: device_buffer_len(len_cap),
        multi_gpu: !FORCE_SINGLE_GPU && leaves_count >= MULTI_GPU_LEAVES && cap_height > 0
            && num_gpus > 1 && H::HASHER_TYPE == HasherType::PoseidonBN128,
    }
}

/// How the bytes of a word follow one another in memory.
#[derive(Clone, Copy, Debug, Eq, PartialEq, Structural)]
pub enum ByteOrder {
    /// As on a little-endian host.
    LowestFirst,
    /// As on a big-endian host.
    HighestFirst,
}

/// Byte `k` of `word` as it lies in memory.
pub open spec fn byte_of(word: u64, order: ByteOrder, k: int) -> u8 {
    let place = match order {
        ByteOrder::LowestFirst => k,
        ByteOrder::HighestFirst => 7 - k,
    };
    ((word >> ((8 * place) as u64)) & 0xff) as u8
}

/// The bytes of `word` as they lie in memory.
pub open spec fn word_bytes(word: u64, order: ByteOrder) -> Seq<u8> {
    Seq::new(8, |k: int| byte_of(word, order, k))
}

/// The bytes of the canonical words of `elements` as they lie in memory.
pub open spec fn words_as_bytes<F: RichField>(elements: Seq<F>, order: ByteOrder) -> Seq<u8> {
    Seq::new(
        8 * elements.len(),
        |b: int| byte_of(elements[b / 8].spec_to_canonical_u64(), order, b % 8),
    )
}

/// The digest that stands in `elements` from element `NUM_HASH_OUT_ELTS * i` on.
pub open spec fn device_digest<F: RichField, H: Hasher<F>>(
    elements: Seq<F>,
    order: ByteOrder,
    i: int,
) -> H::Hash {
    <H::Hash as GenericHashOut<F>>::spec_from_bytes(
        words_as_bytes(
            elements.subrange(NUM_HASH_OUT_ELTS * i, NUM_HASH_OUT_ELTS * (i + 1)),
            order,
        ).take(H::HASH_SIZE as int),
    )
}

/// The first `count` digests that stand in `elements`.
pub open spec fn device_digests<F: RichField, H: Hasher<F>>(
    elements: Seq<F>,
    order: ByteOrder,
    count: int,
) -> Seq<H::Hash> {
    Seq::new(count as nat, |i: int| device_digest::<F, H>(elements, order, i))
}

/// The bytes of `word` as they lie in the memory of this host.
///
/// This is `u64::to_ne_bytes`. Claimed of it: the bytes are those of the word, in one of the two
/// orders. Which one it is depends on the host and is left unsaid.
#[verifier::external_body]
pub(crate) fn native_bytes(word: u64) -> (bytes: [u8; 8])
    ensures
        bytes@ == word_bytes(word, ByteOrder::LowestFirst) || bytes@ == word_bytes(
            word,
            ByteOrder::HighestFirst,
        ),
{
    word.to_ne_bytes()
}

/// The order in which the bytes of the word 1 stand in `bytes`.
pub fn byte_order_of_one(bytes: &[u8; 8]) -> (order: ByteOrder)
    requires
        bytes@ == word_bytes(1, ByteOrder::LowestFirst) || bytes@ == word_bytes(
            1,
            ByteOrder::HighestFirst,
        ),
    ensures
        bytes@ == word_bytes(1, order),
{
    proof {
        assert((1u64 >> 0u64) & 0xff == 1) by (bit_vector);
        assert((1u64 >> 56u64) & 0xff == 0) by (bit_vector);
        assert(byte_of(1, ByteOrder::LowestFirst, 0) == 1);
        assert(byte_of(1, ByteOrder::HighestFirst, 0) == 0);
    }
    if bytes[0] == 1 {
        ByteOrder::LowestFirst
    } else {
        ByteOrder::HighestFirst
    }
}

/// `order` is the order in which a call of `native_bytes` gave the bytes of the word 1: the order
/// of this host.
pub closed spec fn is_host_order(order: ByteOrder) -> bool {
    exists|bytes: [u8; 8]| #[trigger]
        call_ensures(native_bytes, (1u64,), bytes) && bytes@ == word_bytes(1, order)
}

/// The bytes in which the order of this host has shown.
pub(crate) proof fn lemma_host_bytes(order: ByteOrder) -> (bytes: [u8; 8])
    requires
        is_host_order(order),
    ensures
        call_ensures(native_bytes, (1u64,), bytes),
        bytes@ == word_bytes(1, order),
{
    choose|bytes: [u8; 8]| #[trigger]
        call_ensures(native_bytes, (1u64,), bytes) && bytes@ == word_bytes(1, order)
}

/// Calls `f` on `word`.
fn call<M: Fn(u64) -> [u8; 8]>(f: M, word: u64) -> (bytes: [u8; 8])
    requires
        call_requires(f, (word,)),
    ensures
        call_ensures(f, (word,), bytes),
{
    f(word)
}

/// The order in which the bytes of a word lie in the memory of this host.
pub fn host_byte_order() -> (order: ByteOrder)
    ensures
        is_host_order(order),
{
    let bytes: [u8; 8] = call(native_bytes, 1);
    let order: ByteOrder = byte_order_of_one(&bytes);
    assert(call_ensures(native_bytes, (1u64,), bytes) && bytes@ == word_bytes(1, order));
    order
}

/// The bytes of the canonical words of `elements` as they lie in memory.
fn to_bytes<F: RichField>(elements: &[F], order: ByteOrder) -> (bytes: Vec<u8>)
    ensures
        bytes@ == words_as_bytes(elements@, order),
{
    let mut bytes: Vec<u8> = Vec::new();
    let mut i: usize = 0;
    while i < elements.len()
        invariant
            i <= elements@.len(),
            bytes@.len() == 8 * i,
            forall|b: int| #![trigger bytes@[b]]
                0 <= b < bytes@.len() ==> bytes@[b] == words_as_bytes(elements@, order)[b],
        decreases elements@.len() - i,
    {
        let word: u64 = elements[i].to_canonical_u64();
        let mut k: u64 = 0;
        while k < 8
            invariant
                i < elements@.len(),
                word == elements@[i as int].spec_to_canonical_u64(),
                k <= 8,
                bytes@.len() == 8 * i + k,
                forall|b: int| #![trigger bytes@[b]]
                    0 <= b < bytes@.len() ==> bytes@[b] == words_as_bytes(elements@, order)[b],
            decreases 8 - k,
        {
            assert((8 * i + k) / 8 == i && (8 * i + k) % 8 == k);
            let place: u64 = match order {
                ByteOrder::LowestFirst => k,
                ByteOrder::HighestFirst => 7 - k,
            };
            bytes.push(((word >> (8 * place)) & 0xff) as u8);
            k = k + 1;
        }
        i = i + 1;
    }
    assert(bytes@ =~= words_as_bytes(elements@, order));
    bytes
}

/// The `count` digests that stand in the buffer of a device, where the bytes of a word lie in
/// memory in the given order.
pub fn digests_from_device<F: RichField, H: Hasher<F>>(
    elements: &[F],
    order: ByteOrder,
    count: usize,
) -> (digests: Vec<H::Hash>)
    requires
        H::HASH_SIZE <= 8 * NUM_HASH_OUT_ELTS,
        elements@.len() == device_len(count as int),
    ensures
        digests@ == device_digests::<F, H>(elements@, order, count as int),
        digests@.len() == count,
        forall|i: int, bytes: Seq<u8>|
            #![trigger digests@[i], <H::Hash as GenericHashOut<F>>::spec_from_bytes(bytes)]
            0 <= i < count && bytes.len() == H::HASH_SIZE && (forall|b: int|
                0 <= b < bytes.len() ==> #[trigger] bytes[b] as int == (elements@[4 * i + b
                    / 8].spec_to_canonical_u64() as int / pow2(
                    (8 * match order {
                        ByteOrder::LowestFirst => b % 8,
                        ByteOrder::HighestFirst => 7 - b % 8,
                    }) as nat,
                ) as int) % 256) ==> digests@[i]
                == <H::Hash as GenericHashOut<F>>::spec_from_bytes(bytes),
{
    assert(elements@.len() == elements.len());
    let mut digests: Vec<H::Hash> = Vec::with_capacity(count);
    let mut i: usize = 0;
    while i < count
        invariant
            H::HASH_SIZE <= 8 * NUM_HASH_OUT_ELTS,
            i <= count,
            elements@.len() == device_len(count as int),
            elements@.len() <= usize::MAX,
            digests@.len() == i,
            forall|j: int|
                0 <= j < i ==> #[trigger] digests@[j] == device_digest::<F, H>(
                    elements@,
                    order,
                    j,
                ),
        decreases count - i,
    {
        let chunk: &[F] = slice_subrange(
            elements,
            NUM_HASH_OUT_ELTS * i,
            NUM_HASH_OUT_ELTS * (i + 1),
        );
        let bytes: Vec<u8> = to_bytes(chunk, order);
        let (hash_bytes, _) = bytes.as_slice().split_at(H::HASH_SIZE);
        assert(hash_bytes@ =~= words_as_bytes(chunk@, order).take(H::HASH_SIZE as int));
        digests.push(<H::Hash as GenericHashOut<F>>::from_bytes(hash_bytes));
        i = i + 1;
    }
    proof {
        assert(digests@ =~= device_digests::<F, H>(elements@, order, count as int));
        assert forall|i: int, bytes: Seq<u8>|
            #![trigger digests@[i], <H::Hash as GenericHashOut<F>>::spec_from_bytes(bytes)]
            0 <= i < count && bytes.len() == H::HASH_SIZE && (forall|b: int|
                0 <= b < bytes.len() ==> #[trigger] bytes[b] as int == (elements@[4 * i + b
                    / 8].spec_to_canonical_u64() as int / pow2(
                    (8 * match order {
                        ByteOrder::LowestFirst => b % 8,
                        ByteOrder::HighestFirst => 7 - b % 8,
                    }) as nat,
                ) as int) % 256) implies digests@[i] == <H::Hash as GenericHashOut<
            F,
        >>::spec_from_bytes(bytes) by {
            law_digest_of_words::<F, H>(elements@, order, i, bytes);
        }
    }
    digests
}

/// `digests` and `cap` are what a device handed back in `host_digests` and `host_caps` for
/// `leaves_len` leaves: the entries of the cap as they came, and the digests of each subtree,
/// which came level by level, in the order of a tree.
pub open spec fn from_device<F: RichField, H: Hasher<F>>(
    digests: Seq<H::Hash>,
    cap: Seq<H::Hash>,
    host_digests: Seq<F>,
    host_caps: Seq<F>,
    order: ByteOrder,
    leaves_len: int,
    cap_height: int,
) -> bool {
    let caps = pow2(cap_height as nat) as int;
    let width = leaves_len / caps;
    let levels = device_digests::<F, H>(host_digests, order, 2 * (leaves_len - caps));
    &&& cap == device_digests::<F, H>(host_caps, order, caps)
    &&& digests.len() == levels.len()
    &&& forall|s: int|
        0 <= s < caps ==> #[trigger] subtree(digests, width, s) == regrouped(
            subtree(levels, width, s),
            1,
            width,
            0,
        )
}

impl<F: RichField, H: Hasher<F>> MerkleTree<F, H> {
    /// The tree over `leaves_len` leaves of `leaf_len` elements that a device has hashed:
    /// `host_leaves` are the leaves, and `host_digests` and `host_caps` are what the device
    /// handed back. The bytes of a digest are those of its words as they lie in the memory of
    /// this host.
    ///
    /// The device is taken to hand back the digests of one subtree after the other, and those of
    /// each level by level; they are put into the order of a tree here. That this is the device's
    /// order, and that the digests are the hashes of the leaves, is up to the device.
    pub fn new_from_gpu_leaves(
        host_leaves: Vec<F>,
        host_digests: &[F],
        host_caps: &[F],
        leaves_len: usize,
        leaf_len: usize,
        cap_height: usize,
    ) -> (tree: Self)
        requires
            H::HASH_SIZE <= 8 * NUM_HASH_OUT_ELTS,
            device_buildable(leaves_len as int, cap_height as int),
            host_digests@.len() == device_len(2 * (leaves_len - pow2(cap_height as nat))),
            host_caps@.len() == device_len(pow2(cap_height as nat) as int),
        ensures
            tree.leaves@ == host_leaves@,
            tree.leaf_size == leaf_len,
            tree.digests@.len() == 2 * (leaves_len - pow2(cap_height as nat)),
            tree.cap.0@.len() == pow2(cap_height as nat),
            exists|order: ByteOrder| #[trigger]
                is_host_order(order) && from_device::<F, H>(
                    tree.digests@,
                    tree.cap.0@,
                    host_digests@,
                    host_caps@,
                    order,
                    leaves_len as int,
                    cap_height as int,
                ),
            leaf_len > 0 && host_leaves@.len() as int / leaf_len as int == leaves_len
                ==> tree.sized(),
    {
        let order: ByteOrder = host_byte_order();
        Self::new_from_device_words(
            host_leaves,
            host_digests,
            host_caps,
            order,
            leaves_len,
            leaf_len,
            cap_height,
        )
    }

    /// The tree that a device has hashed, as `new_from_gpu_leaves` makes it on a host where the
    /// bytes of a word lie in memory in the given order.
    pub fn new_from_device_words(
        host_leaves: Vec<F>,
        host_digests: &[F],
        host_caps: &[F],
        order: ByteOrder,
        leaves_len: usize,
        leaf_len: usize,
        cap_height: usize,
    ) -> (tree: Self)
        requires
            H::HASH_SIZE <= 8 * NUM_HASH_OUT_ELTS,
            device_buildable(leaves_len as int, cap_height as int),
            host_digests@.len() == device_len(2 * (leaves_len - pow2(cap_height as nat))),
            host_caps@.len() == device_len(pow2(cap_height as nat) as int),
        ensures
            tree.leaves@ == host_leaves@,
            tree.leaf_size == leaf_len,
            from_device::<F, H>(
                tree.digests@,
                tree.cap.0@,
                host_digests@,
                host_caps@,
                order,
                leaves_len as int,
                cap_height as int,
            ),
            leaf_len > 0 && host_leaves@.len() as int / leaf_len as int == leaves_len
                ==> tree.sized(),
    {
        proof {
            assert(leaves_len as int / 1 == leaves_len);
            lemma_buildable(leaves_len, 1, cap_height);
            lemma_cap_fits(leaves_len, cap_height);
        }
        let len_cap: usize = shl_one(cap_height);
        let num_digests: usize = 2 * (leaves_len - len_cap);
        let levels: Vec<H::Hash> = digests_from_device::<F, H>(host_digests, order, num_digests);
        let cap: Vec<H::Hash> = digests_from_device::<F, H>(host_caps, order, len_cap);
        let digests: Vec<H::Hash> = from_levels(&levels, len_cap, leaves_len / len_cap);
        MerkleTree { leaves: host_leaves, leaf_size: leaf_len, digests, cap: MerkleCap(cap) }
    }
}

} // verus!

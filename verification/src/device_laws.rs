//! What devices are told, and what becomes of what they hand back.

use crate::config::{GenericHashOut, Hasher, RichField};
use crate::device::{
    byte_of, device_buildable, device_digest, device_digests, device_len, from_device,
    is_host_order, lemma_host_bytes, native_bytes, word_bytes, words_as_bytes, ByteOrder,
    FORCE_SINGLE_GPU, MULTI_GPU_LEAVES, NUM_HASH_OUT_ELTS,
};
use crate::layout::{lemma_subtree_within, subtree};
use crate::levels::regrouped;
use crate::places::law_level_place;
use crate::util::{lemma_exponent, lemma_pow2_is_pow2, lemma_pow2_ordered, lemma_pow2_split};
use vstd::arithmetic::div_mod::lemma_fundamental_div_mod_converse;
use vstd::arithmetic::power2::{lemma2_to64, lemma_pow2_pos, pow2};
use vstd::bits::lemma_u64_shr_is_div;
use vstd::prelude::*;

verus! {

/// The sizes and the choice that are fixed: a digest has four words, and trees are built on one
/// GPU.
pub proof fn law_fixed_sizes()
    ensures
        NUM_HASH_OUT_ELTS == 4,
        MULTI_GPU_LEAVES == 4096,
        FORCE_SINGLE_GPU,
{
}

/// A buffer has four elements for each digest, and for none as many as for one. So two buffers for
/// some digests are together as long as one for all of them, and a longer one is for more digests.
pub proof fn law_buffer_len(a: int, b: int)
    requires
        a >= 0,
        b >= 0,
    ensures
        device_len(0) == 4,
        a > 0 ==> device_len(a) == 4 * a,
        a > 0 && b > 0 ==> device_len(a + b) == device_len(a) + device_len(b),
        a > 0 && b > 0 ==> (device_len(a) < device_len(b) <==> a < b),
{
}

/// A device can build a tree over any power of two of leaves, with a cap of any height up to that
/// of the tree, as long as there is room for the words of its digests and of its cap; and no
/// other.
pub proof fn law_device_buildable(leaves_len: int, cap_height: int)
    requires
        leaves_len >= 0,
    ensures
        device_buildable(leaves_len, cap_height) <==> (exists|k: nat|
            leaves_len == #[trigger] pow2(k) && 0 <= cap_height <= k && 8 * (leaves_len - pow2(
                cap_height as nat,
            )) <= usize::MAX && 4 * pow2(cap_height as nat) <= usize::MAX),
{
    if device_buildable(leaves_len, cap_height) {
        let k = lemma_exponent(leaves_len);
        lemma_pow2_ordered(cap_height as nat, k);
        lemma_pow2_pos(cap_height as nat);
        assert(leaves_len == pow2(k));
    }
    if exists|k: nat|
        leaves_len == #[trigger] pow2(k) && 0 <= cap_height <= k && 8 * (leaves_len - pow2(
            cap_height as nat,
        )) <= usize::MAX && 4 * pow2(cap_height as nat) <= usize::MAX {
        let k = choose|k: nat|
            leaves_len == #[trigger] pow2(k) && 0 <= cap_height <= k && 8 * (leaves_len - pow2(
                cap_height as nat,
            )) <= usize::MAX && 4 * pow2(cap_height as nat) <= usize::MAX;
        lemma_pow2_is_pow2(k);
        lemma_pow2_ordered(cap_height as nat, k);
        lemma_pow2_pos(cap_height as nat);
    }
}

/// The order of this host is the one in which `native_bytes` gives the bytes of the word 1: the
/// lowest byte, which is 1, comes first or last.
pub(crate) proof fn law_host_order(order: ByteOrder)
    requires
        is_host_order(order),
    ensures
        exists|bytes: [u8; 8]| #[trigger]
            call_ensures(native_bytes, (1u64,), bytes) && bytes@.len() == 8 && match order {
                ByteOrder::LowestFirst => bytes@[0] == 1 && bytes@[7] == 0,
                ByteOrder::HighestFirst => bytes@[0] == 0 && bytes@[7] == 1,
            },
{
    let bytes = lemma_host_bytes(order);
    assert((1u64 >> 0u64) & 0xff == 1) by (bit_vector);
    assert((1u64 >> 56u64) & 0xff == 0) by (bit_vector);
    assert(bytes@[0] == byte_of(1, order, 0));
    assert(bytes@[7] == byte_of(1, order, 7));
}

/// A byte of a word, counted from the lowest one, is a digit of it in base 256.
proof fn lemma_byte(word: u64, order: ByteOrder, k: int)
    requires
        0 <= k < 8,
    ensures
        byte_of(word, order, k) as int == (word as int / pow2(
            (8 * match order {
                ByteOrder::LowestFirst => k,
                ByteOrder::HighestFirst => 7 - k,
            }) as nat,
        ) as int) % 256,
{
    let place = match order {
        ByteOrder::LowestFirst => k,
        ByteOrder::HighestFirst => 7 - k,
    };
    let shift = (8 * place) as u64;
    lemma_u64_shr_is_div(word, shift);
    let v = word >> shift;
    assert(v & 0xff == v % 256 && (v & 0xff) < 256) by (bit_vector);
    lemma_pow2_pos(shift as nat);
}

/// The bytes of a word give it back, in either order, and there are eight of them.
pub proof fn law_bytes_give_word(word: u64, order: ByteOrder)
    ensures
        ({
            let bytes = word_bytes(word, order);
            let low = match order {
                ByteOrder::LowestFirst => bytes,
                ByteOrder::HighestFirst => bytes.reverse(),
            };
            &&& bytes.len() == 8
            &&& word == low[0] + 0x100 * low[1] + 0x1_0000 * low[2] + 0x100_0000 * low[3]
                + 0x1_0000_0000 * low[4] + 0x100_0000_0000 * low[5] + 0x1_0000_0000_0000 * low[6]
                + 0x100_0000_0000_0000 * low[7]
        }),
{
    let bytes = word_bytes(word, order);
    let low = match order {
        ByteOrder::LowestFirst => bytes,
        ByteOrder::HighestFirst => bytes.reverse(),
    };
    let w = word;
    assert(low[0] == ((w >> 0u64) & 0xff) as u8);
    assert(low[1] == ((w >> 8u64) & 0xff) as u8);
    assert(low[2] == ((w >> 16u64) & 0xff) as u8);
    assert(low[3] == ((w >> 24u64) & 0xff) as u8);
    assert(low[4] == ((w >> 32u64) & 0xff) as u8);
    assert(low[5] == ((w >> 40u64) & 0xff) as u8);
    assert(low[6] == ((w >> 48u64) & 0xff) as u8);
    assert(low[7] == ((w >> 56u64) & 0xff) as u8);
    assert(w == ((w >> 0u64) & 0xff) as u8 + 0x100 * (((w >> 8u64) & 0xff) as u8) + 0x1_0000 * (((w
        >> 16u64) & 0xff) as u8) + 0x100_0000 * (((w >> 24u64) & 0xff) as u8) + 0x1_0000_0000 * (((w
        >> 32u64) & 0xff) as u8) + 0x100_0000_0000 * (((w >> 40u64) & 0xff) as u8)
        + 0x1_0000_0000_0000 * (((w >> 48u64) & 0xff) as u8) + 0x100_0000_0000_0000 * (((w
        >> 56u64) & 0xff) as u8)) by (bit_vector);
}

/// Digest `i` of a buffer is made of its elements from `4 * i` on: byte `b` of what it is made
/// from is byte `b % 8`, in the given order, of the word of element `4 * i + b / 8`.
pub proof fn law_digest_of_words<F: RichField, H: Hasher<F>>(
    elements: Seq<F>,
    order: ByteOrder,
    i: int,
    bytes: Seq<u8>,
)
    requires
        0 <= i,
        4 * i + 4 <= elements.len(),
        H::HASH_SIZE <= 32,
        bytes.len() == H::HASH_SIZE,
        forall|b: int|
            0 <= b < bytes.len() ==> #[trigger] bytes[b] as int == (elements[4 * i + b
                / 8].spec_to_canonical_u64() as int / pow2(
                (8 * match order {
                    ByteOrder::LowestFirst => b % 8,
                    ByteOrder::HighestFirst => 7 - b % 8,
                }) as nat,
            ) as int) % 256,
    ensures
        device_digest::<F, H>(elements, order, i)
            == <H::Hash as GenericHashOut<F>>::spec_from_bytes(bytes),
{
    let words = elements.subrange(4 * i, 4 * (i + 1));
    let all = words_as_bytes(words, order);
    assert forall|b: int| 0 <= b < bytes.len() implies bytes[b] == all[b] by {
        assert(words[b / 8] == elements[4 * i + b / 8]);
        lemma_byte(elements[4 * i + b / 8].spec_to_canonical_u64(), order, b % 8);
    }
    assert(bytes =~= all.take(H::HASH_SIZE as int));
}

/// Digests that are taken from a buffer are as many as asked for, and each is made of its own four
/// elements: where two buffers agree on these, the digests agree.
pub proof fn law_digests_from_buffer<F: RichField, H: Hasher<F>>(
    elements: Seq<F>,
    others: Seq<F>,
    order: ByteOrder,
    count: int,
    count_others: int,
    i: int,
    k: int,
)
    requires
        0 <= i < count,
        0 <= k < count_others,
        4 * i + 4 <= elements.len(),
        4 * k + 4 <= others.len(),
        H::HASH_SIZE <= 32,
        elements[4 * i] == others[4 * k],
        elements[4 * i + 1] == others[4 * k + 1],
        elements[4 * i + 2] == others[4 * k + 2],
        elements[4 * i + 3] == others[4 * k + 3],
    ensures
        device_digests::<F, H>(elements, order, count).len() == count,
        device_digests::<F, H>(elements, order, count)[i] == device_digests::<F, H>(
            others,
            order,
            count_others,
        )[k],
{
    assert(elements.subrange(4 * i, 4 * (i + 1)) =~= others.subrange(4 * k, 4 * (k + 1)));
}

/// Entry `c` of the cap of a tree that a device has hashed is made of elements `4 * c` and on of
/// what it handed back for the cap.
pub proof fn law_device_cap_entry<F: RichField, H: Hasher<F>>(
    digests: Seq<H::Hash>,
    cap: Seq<H::Hash>,
    host_digests: Seq<F>,
    host_caps: Seq<F>,
    order: ByteOrder,
    leaves_len: int,
    cap_height: nat,
    c: int,
    bytes: Seq<u8>,
)
    requires
        from_device::<F, H>(
            digests,
            cap,
            host_digests,
            host_caps,
            order,
            leaves_len,
            cap_height as int,
        ),
        0 <= c < pow2(cap_height),
        host_caps.len() == 4 * pow2(cap_height),
        H::HASH_SIZE <= 32,
        bytes.len() == H::HASH_SIZE,
        forall|b: int|
            0 <= b < bytes.len() ==> #[trigger] bytes[b] as int == (host_caps[4 * c + b
                / 8].spec_to_canonical_u64() as int / pow2(
                (8 * match order {
                    ByteOrder::LowestFirst => b % 8,
                    ByteOrder::HighestFirst => 7 - b % 8,
                }) as nat,
            ) as int) % 256,
    ensures
        cap.len() == pow2(cap_height),
        cap[c] == <H::Hash as GenericHashOut<F>>::spec_from_bytes(bytes),
{
    law_digest_of_words::<F, H>(host_caps, order, c, bytes);
}

/// In subtree `s` of a tree that a device has hashed, node `j` on layer `t` stands at its place and
/// is made of what the device handed back for number `j` of the `2^(n - t)` nodes of that layer,
/// which follow the `2^(n - t) - 2` nodes of the layers above.
pub proof fn law_device_digest_place<F: RichField, H: Hasher<F>>(
    digests: Seq<H::Hash>,
    cap: Seq<H::Hash>,
    host_digests: Seq<F>,
    host_caps: Seq<F>,
    order: ByteOrder,
    n: nat,
    cap_height: nat,
    s: int,
    t: nat,
    j: int,
    bytes: Seq<u8>,
)
    requires
        from_device::<F, H>(
            digests,
            cap,
            host_digests,
            host_caps,
            order,
            (pow2(cap_height) * pow2(n)) as int,
            cap_height as int,
        ),
        0 <= s < pow2(cap_height),
        t < n,
        0 <= j < pow2((n - t) as nat),
        host_digests.len() == 4 * (pow2(cap_height) * (2 * pow2(n) - 2)),
        H::HASH_SIZE <= 32,
        bytes.len() == H::HASH_SIZE,
        ({
            let q = s * (2 * pow2(n) - 2) + (pow2((n - t) as nat) - 2 + j);
            forall|b: int|
                0 <= b < bytes.len() ==> #[trigger] bytes[b] as int == (host_digests[4 * q + b
                    / 8].spec_to_canonical_u64() as int / pow2(
                    (8 * match order {
                        ByteOrder::LowestFirst => b % 8,
                        ByteOrder::HighestFirst => 7 - b % 8,
                    }) as nat,
                ) as int) % 256
        }),
    ensures
        digests.len() == pow2(cap_height) * (2 * pow2(n) - 2),
        digests[s * (2 * pow2(n) - 2) + ((j / 2) * (4 * pow2(t)) + 2 * pow2(t) - 2 + j % 2)]
            == <H::Hash as GenericHashOut<F>>::spec_from_bytes(bytes),
{
    let caps = pow2(cap_height) as int;
    let w = pow2(n) as int;
    let c = pow2((n - t) as nat) as int;
    lemma_pow2_pos(cap_height);
    lemma_pow2_pos(n);
    lemma_pow2_split(n, t);
    lemma_pow2_ordered((n - t) as nat, n);
    lemma_pow2_ordered(1, (n - t) as nat);
    lemma2_to64();
    assert(caps * w == w * caps) by (nonlinear_arith);
    lemma_fundamental_div_mod_converse(caps * w, caps, w, 0);
    assert(2 * (caps * w - caps) == caps * (2 * w - 2)) by (nonlinear_arith);
    lemma_subtree_within(caps, w, s);
    let levels = device_digests::<F, H>(host_digests, order, caps * (2 * w - 2));
    let nodes = subtree(levels, w, s);
    law_level_place(nodes, n, t, j);
    let at = (j / 2) * (4 * pow2(t)) + 2 * pow2(t) - 2 + j % 2;
    assert(subtree(digests, w, s) == regrouped(nodes, 1, w, 0));
    assert(subtree(digests, w, s)[at] == digests[s * (2 * w - 2) + at]);
    let q = s * (2 * w - 2) + (c - 2 + j);
    assert(nodes[c - 2 + j] == levels[q]);
    law_digest_of_words::<F, H>(host_digests, order, q, bytes);
}

} // verus!

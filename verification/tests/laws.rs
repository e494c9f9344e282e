use merkle_caps::config::{GenericHashOut, Hasher, HasherType, RichField};
use merkle_caps::device::{
    byte_order_of_one, device_buffer_len, digests_from_device, hashes_on_host, next_gpu,
    plan_device, ByteOrder, DevicePlan,
};
use merkle_caps::fill::{fill_digests_buf, fill_digests_buf_meta, fill_subtree};
use merkle_caps::levels::from_levels;
use merkle_caps::merkle_proofs::{verify_merkle_proof_to_cap, MerkleProof, MerkleProofError};
use merkle_caps::merkle_tree::{MerkleCap, MerkleTree};
use merkle_caps::util::{is_power_of_two, log2_strict, shl_one};

#[derive(Clone, Copy, Debug, PartialEq, Eq)]
struct Elem(u64);

impl RichField for Elem {
    fn from_canonical_u64(n: u64) -> Self {
        Elem(n)
    }

    fn to_canonical_u64(&self) -> u64 {
        self.0
    }
}

#[derive(Clone, Copy, Debug, PartialEq, Eq)]
struct Digest(u64);

impl GenericHashOut<Elem> for Digest {
    fn to_vec(&self) -> Vec<Elem> {
        vec![Elem(self.0), Elem(self.0 + 1)]
    }

    fn from_bytes(bytes: &[u8]) -> Self {
        Digest(bytes.iter().fold(0, |n, b| 256 * n + *b as u64))
    }

    fn is_same(&self, other: &Self) -> bool {
        self.0 == other.0
    }
}

fn mix(a: u64, b: u64) -> u64 {
    a.wrapping_mul(3).wrapping_add(b.wrapping_mul(5)).wrapping_add(1)
}

/// A hash simple enough to compute by hand: a leaf is the decimal number of its elements.
#[derive(Clone, Copy, Debug, PartialEq, Eq)]
struct Toy;

impl Hasher<Elem> for Toy {
    const HASH_SIZE: usize = 6;
    const HASHER_TYPE: HasherType = HasherType::PoseidonBN128;
    type Hash = Digest;

    fn hash_or_noop(inputs: &[Elem]) -> Digest {
        Digest(inputs.iter().fold(0, |n, x| 10 * n + x.0))
    }

    fn two_to_one(left: Digest, right: Digest) -> Digest {
        Digest(mix(left.0, right.0))
    }
}

#[derive(Clone, Copy, Debug, PartialEq, Eq)]
struct ToyKeccak;

impl Hasher<Elem> for ToyKeccak {
    const HASH_SIZE: usize = 25;
    const HASHER_TYPE: HasherType = HasherType::Keccak;
    type Hash = Digest;

    fn hash_or_noop(inputs: &[Elem]) -> Digest {
        Toy::hash_or_noop(inputs)
    }

    fn two_to_one(left: Digest, right: Digest) -> Digest {
        Toy::two_to_one(left, right)
    }
}

type Tree = MerkleTree<Elem, Toy>;

fn elems(values: &[u64]) -> Vec<Elem> {
    values.iter().map(|v| Elem(*v)).collect()
}

fn digests(values: &[u64]) -> Vec<Digest> {
    values.iter().map(|v| Digest(*v)).collect()
}

/// `n` rows of two elements.
fn rows(n: u64) -> Vec<Vec<Elem>> {
    (0..n).map(|i| elems(&[i % 7, (3 * i + 1) % 10])).collect()
}

#[test]
fn left_subtree_both_children_right_subtree() {
    let tree = Tree::new_from_1d(elems(&[1, 2, 3, 4]), 1, 0);
    // The left leaves, 3 * 1 + 5 * 2 + 1, 3 * 3 + 5 * 4 + 1, and the right leaves.
    assert_eq!(tree.digests, digests(&[1, 2, 14, 30, 3, 4]));
    // 3 * 14 + 5 * 30 + 1.
    assert_eq!(tree.cap.0, digests(&[193]));
    assert_eq!(tree.leaf_size, 1);
}

#[test]
fn subtrees_are_equal_parts() {
    let tree = Tree::new_from_1d(elems(&[1, 2, 3, 4, 5, 6, 7, 8]), 1, 1);
    assert_eq!(tree.digests, digests(&[1, 2, 14, 30, 3, 4, 5, 6, 46, 62, 7, 8]));
    assert_eq!(tree.cap.0, digests(&[193, 449]));
    let part = tree.digests.len() / tree.cap.len();
    assert_eq!(tree.digests[part..2 * part], digests(&[5, 6, 46, 62, 7, 8]));
}

#[test]
fn eight_leaves_under_one_root() {
    let tree = Tree::new_from_1d(elems(&[1, 2, 3, 4, 5, 6, 7, 8]), 1, 0);
    assert_eq!(
        tree.digests,
        digests(&[1, 2, 14, 30, 3, 4, 193, 449, 5, 6, 46, 62, 7, 8])
    );
    assert_eq!(tree.cap.0, digests(&[3 * 193 + 5 * 449 + 1]));
}

#[test]
fn pairs_of_leaves() {
    let tree = Tree::new_from_1d(elems(&[1, 2, 3, 4]), 1, 1);
    assert_eq!(tree.digests, digests(&[1, 2, 3, 4]));
    assert_eq!(tree.cap.0, digests(&[14, 30]));
}

#[test]
fn all_cap() {
    let tree = Tree::new_from_1d(elems(&[1, 2, 3, 4]), 2, 1);
    assert!(tree.digests.is_empty());
    assert_eq!(tree.cap.0, digests(&[12, 34]));
    assert_eq!(tree.prove(0).siblings, digests(&[]));
    // Every index has the same proof.
    assert_eq!(tree.prove(1000).siblings, digests(&[]));
}

#[test]
fn single_leaf() {
    let tree = Tree::new_from_1d(elems(&[4, 2]), 2, 0);
    assert!(tree.digests.is_empty());
    assert_eq!(tree.cap.0, digests(&[42]));
}

#[test]
fn caps_are_layers_of_the_tree() {
    let mut layer: Vec<Digest> = rows(16).iter().map(|r| Toy::hash_or_noop(r)).collect();
    for height in (0..=4).rev() {
        let tree = Tree::new_from_2d(rows(16), height);
        assert_eq!(tree.cap.0, layer);
        assert_eq!(tree.cap.height(), height);
        layer = layer.chunks_exact(2).map(|p| Toy::two_to_one(p[0], p[1])).collect();
    }
}

#[test]
fn elements_behind_the_last_leaf() {
    let tree = Tree::new_from_1d(elems(&[1, 2, 3, 4, 9]), 2, 0);
    assert_eq!(tree.get_leaves_1d(), elems(&[1, 2, 3, 4, 9]));
    assert_eq!(tree.get_leaves_count(), 2);
    assert_eq!(tree.get_leaves_2d(), vec![elems(&[1, 2]), elems(&[3, 4])]);
    assert_eq!(tree.digests, digests(&[12, 34]));
}

#[test]
fn empty_rows_are_zeros() {
    let tree = Tree::new_from_2d(vec![elems(&[1, 2]), vec![], elems(&[3, 4]), vec![]], 0);
    assert_eq!(tree.get_leaves_1d(), elems(&[1, 2, 0, 0, 3, 4, 0, 0]));
    assert_eq!(tree.get(1), elems(&[0, 0]));
    assert_eq!(tree.digests, digests(&[12, 0, mix(12, 0), mix(34, 0), 34, 0]));
}

#[test]
fn rows_come_back() {
    let tree = Tree::new_from_2d(rows(8), 2);
    assert_eq!(tree.get_leaves_2d(), rows(8));
    for (i, row) in rows(8).iter().enumerate() {
        assert_eq!(tree.get(i), row.as_slice());
    }
}

#[test]
fn proof_of_a_leaf() {
    let tree = Tree::new_from_1d(elems(&[1, 2, 3, 4, 5, 6, 7, 8]), 1, 0);
    assert_eq!(tree.prove(0).siblings, digests(&[2, 30, 449]));
    assert_eq!(tree.prove(5).siblings, digests(&[5, 62, 193]));
    assert_eq!(tree.prove(6).siblings, digests(&[8, 46, 193]));
}

#[test]
fn proofs_verify_and_shrink_with_the_cap() {
    for height in 0..=4 {
        let tree = Tree::new_from_2d(rows(16), height);
        for (i, row) in rows(16).into_iter().enumerate() {
            let proof = tree.prove(i);
            assert_eq!(proof.siblings.len(), 4 - height);
            assert_eq!(verify_merkle_proof_to_cap(row, i, &tree.cap, &proof), Ok(()));
        }
    }
}

#[test]
fn wrong_proofs_are_refused() {
    let tree = Tree::new_from_1d(elems(&[1, 2, 3, 4]), 1, 0);
    let proof = tree.prove(2);
    let refused = Err(MerkleProofError::InvalidMerkleProof);
    assert_eq!(verify_merkle_proof_to_cap(elems(&[3]), 2, &tree.cap, &proof), Ok(()));
    assert_eq!(verify_merkle_proof_to_cap(elems(&[9]), 2, &tree.cap, &proof), refused);
    assert_eq!(verify_merkle_proof_to_cap(elems(&[3]), 3, &tree.cap, &proof), refused);
    let other = MerkleProof { siblings: digests(&[4, 15]) };
    assert_eq!(verify_merkle_proof_to_cap(elems(&[3]), 2, &tree.cap, &other), refused);
}

#[test]
fn one_leaf_changed() {
    let mut tree = Tree::new_from_1d(elems(&[1, 2, 3, 4, 5, 6, 7, 8]), 1, 1);
    tree.change_leaf_and_update(elems(&[0]), 6);
    assert_eq!(tree.leaves, elems(&[1, 2, 3, 4, 5, 6, 0, 8]));
    assert_eq!(tree.digests, digests(&[1, 2, 14, 30, 3, 4, 5, 6, 46, 41, 0, 8]));
    assert_eq!(tree.cap.0, digests(&[193, 3 * 46 + 5 * 41 + 1]));
}

#[test]
fn change_is_rebuild() {
    for height in 0..=4 {
        for i in 0..16 {
            let mut changed = rows(16);
            changed[i] = elems(&[8, 9]);
            let mut tree = Tree::new_from_2d(rows(16), height);
            tree.change_leaf_and_update(elems(&[8, 9]), i);
            assert_eq!(tree, Tree::new_from_2d(changed, height));
        }
    }
}

#[test]
fn range_is_one_by_one_and_rebuild() {
    for height in 0..=4 {
        for start in 0..15 {
            for end in start + 1..16 {
                let new_rows: Vec<Vec<Elem>> =
                    (start..end).map(|i| elems(&[9, i as u64])).collect();
                let mut changed = rows(16);
                changed[start..end].clone_from_slice(&new_rows);
                let mut one_by_one = Tree::new_from_2d(rows(16), height);
                for i in start..end {
                    one_by_one.change_leaf_and_update(new_rows[i - start].clone(), i);
                }
                let mut at_once = Tree::new_from_2d(rows(16), height);
                at_once.change_leaves_in_range_and_update(new_rows, start, end);
                assert_eq!(at_once, one_by_one);
                assert_eq!(at_once, Tree::new_from_2d(changed, height));
            }
        }
    }
}

#[test]
fn change_and_back() {
    let before = Tree::new_from_2d(rows(16), 1);
    let mut tree = before.clone();
    tree.change_leaves_in_range_and_update(vec![elems(&[9, 9]); 5], 3, 8);
    assert_ne!(tree, before);
    tree.change_leaves_in_range_and_update(rows(16)[3..8].to_vec(), 3, 8);
    assert_eq!(tree, before);
}

#[test]
fn long_rows_are_hashed_whole() {
    let mut tree = Tree::new_from_1d(elems(&[1, 2, 3, 4]), 1, 0);
    tree.change_leaves_in_range_and_update(vec![elems(&[5]), elems(&[6, 7])], 1, 3);
    assert_eq!(tree.leaves, elems(&[1, 5, 6, 4]));
    assert_eq!(tree.digests, digests(&[1, 5, mix(1, 5), mix(67, 4), 67, 4]));
}

#[test]
fn only_what_lies_above_is_hashed_anew() {
    // Digests that are not the hashes of the leaves stay where no changed leaf lies below.
    let mut tree = Tree::new_from_fields(
        elems(&[1, 2, 3, 4]),
        1,
        digests(&[70, 71, 72, 73, 74, 75]),
        MerkleCap(digests(&[76])),
    );
    assert_eq!(tree.digests, digests(&[70, 71, 72, 73, 74, 75]));
    tree.change_leaf_and_update(elems(&[9]), 0);
    assert_eq!(tree.digests, digests(&[9, 71, mix(9, 71), 73, 74, 75]));
    assert_eq!(tree.cap.0, digests(&[mix(mix(9, 71), 73)]));
}

#[test]
fn empty_values() {
    let tree = Tree::default();
    assert_eq!(tree.leaf_size, 0);
    assert!(tree.leaves.is_empty() && tree.digests.is_empty() && tree.cap.is_empty());
    assert_eq!(MerkleCap::<Elem, Toy>::default().len(), 0);
}

#[test]
fn cap_of_two() {
    let cap = MerkleCap::<Elem, Toy>(digests(&[5, 8]));
    assert_eq!(cap.len(), 2);
    assert!(!cap.is_empty());
    assert_eq!(cap.height(), 1);
    assert_eq!(cap.flatten(), elems(&[5, 6, 8, 9]));
}

#[test]
fn what_can_be_built() {
    assert!(Tree::can_build(16, 2, 3));
    assert!(Tree::can_build(17, 2, 0));
    assert!(!Tree::can_build(16, 2, 4));
    assert!(!Tree::can_build(12, 2, 0));
    assert!(!Tree::can_build(0, 2, 0));
    assert!(!Tree::can_build(16, 0, 0));
    assert!(!Tree::can_build(16, 2, usize::MAX));
}

#[test]
fn powers_of_two() {
    assert_eq!(log2_strict(1), 0);
    assert_eq!(log2_strict(1024), 10);
    assert_eq!(shl_one(10), 1024);
    assert!(is_power_of_two(1) && is_power_of_two(64));
    assert!(!is_power_of_two(0) && !is_power_of_two(6));
}

#[test]
fn host_or_device() {
    // 6 / 8 == 0 and 25 / 8 == 3.
    assert!(hashes_on_host::<Elem, Toy>(0));
    assert!(!hashes_on_host::<Elem, Toy>(1));
    assert!(hashes_on_host::<Elem, ToyKeccak>(3));
    assert!(hashes_on_host::<Elem, ToyKeccak>(1000));
}

#[test]
fn gpus_take_turns() {
    assert_eq!(next_gpu(0, 3), 1);
    assert_eq!(next_gpu(1, 3), 2);
    assert_eq!(next_gpu(2, 3), 0);
    assert_eq!(next_gpu(0, 1), 0);
    assert_eq!(next_gpu(7, 3), 0);
}

#[test]
fn device_buffers() {
    assert_eq!(device_buffer_len(0), 4);
    assert_eq!(device_buffer_len(3), 12);
    let plan = plan_device::<Elem, Toy>(8192, 5, 1, 2);
    assert_eq!(
        plan,
        DevicePlan {
            digests_count: 16380,
            caps_count: 2,
            leaves_count: 8192,
            leaf_size: 5,
            cap_height: 1,
            digests_size: 65520,
            caps_size: 8,
            multi_gpu: false,
        }
    );
    let all_cap = plan_device::<Elem, Toy>(4, 5, 2, 1);
    assert_eq!((all_cap.digests_count, all_cap.digests_size), (0, 4));
}

#[test]
fn byte_orders() {
    assert_eq!(byte_order_of_one(&[1, 0, 0, 0, 0, 0, 0, 0]), ByteOrder::LowestFirst);
    assert_eq!(byte_order_of_one(&[0, 0, 0, 0, 0, 0, 0, 1]), ByteOrder::HighestFirst);
}

#[test]
fn digests_of_a_device() {
    let buffer = elems(&[0x0807_0605_0403_0201, 9, 9, 9, 7, 0, 0, 0]);
    // The first six bytes, from the lowest one on.
    assert_eq!(
        digests_from_device::<Elem, Toy>(&buffer, ByteOrder::LowestFirst, 2),
        digests(&[0x0102_0304_0506, 0x0700_0000_0000])
    );
    // The first six bytes, from the highest one on.
    assert_eq!(
        digests_from_device::<Elem, Toy>(&buffer, ByteOrder::HighestFirst, 2),
        digests(&[0x0807_0605_0403, 0])
    );
    assert_eq!(
        digests_from_device::<Elem, Toy>(&buffer[..4], ByteOrder::LowestFirst, 0),
        digests(&[])
    );
}

/// The words in which a device hands back the digest `n`, for this host.
fn words(n: u64) -> Vec<Elem> {
    let mut bytes = [0; 8];
    bytes[..6].copy_from_slice(&n.to_be_bytes()[2..]);
    vec![Elem(u64::from_ne_bytes(bytes)), Elem(0), Elem(0), Elem(0)]
}

#[test]
fn tree_of_a_device() {
    let two: Vec<Elem> = [0x0102_0304_0506, 2].iter().flat_map(|n| words(*n)).collect();
    let tree = Tree::new_from_gpu_leaves(elems(&[1, 2, 3, 4]), &two, &words(3), 2, 2, 0);
    assert_eq!(tree.leaves, elems(&[1, 2, 3, 4]));
    assert_eq!(tree.leaf_size, 2);
    assert_eq!(tree.digests, digests(&[0x0102_0304_0506, 2]));
    assert_eq!(tree.cap.0, digests(&[3]));
}

#[test]
fn tree_of_a_device_in_either_byte_order() {
    let buffer = elems(&[0x0807_0605_0403_0201, 0, 0, 0, 0x0100, 0, 0, 0]);
    let cap = elems(&[0x0300_0000_0000_0000, 0, 0, 0]);
    let make = |order: ByteOrder| {
        Tree::new_from_device_words(elems(&[1, 2, 3, 4]), &buffer, &cap, order, 2, 2, 0)
    };
    let lowest_first = make(ByteOrder::LowestFirst);
    assert_eq!(lowest_first.digests, digests(&[0x0102_0304_0506, 0x0001_0000_0000]));
    assert_eq!(lowest_first.cap.0, digests(&[0]));
    let highest_first = make(ByteOrder::HighestFirst);
    assert_eq!(highest_first.digests, digests(&[0x0807_0605_0403, 0]));
    assert_eq!(highest_first.cap.0, digests(&[0x0300_0000_0000]));
}

#[test]
fn levels_of_a_device_become_subtrees() {
    // Level by level: 14 over 1 and 2, and 30 over 3 and 4.
    let levels: Vec<Elem> = [14, 30, 1, 2, 3, 4].iter().flat_map(|n| words(*n)).collect();
    let tree =
        Tree::new_from_gpu_leaves(elems(&[1, 2, 3, 4]), &levels, &words(193), 4, 1, 0);
    assert_eq!(tree, Tree::new_from_1d(elems(&[1, 2, 3, 4]), 1, 0));
    assert_eq!(tree.digests, digests(&[1, 2, 14, 30, 3, 4]));
    assert_eq!(
        from_levels(&vec![14, 30, 1, 2, 3, 4, 46, 62, 5, 6, 7, 8], 2, 4),
        vec![1, 2, 14, 30, 3, 4, 5, 6, 46, 62, 7, 8]
    );
    assert_eq!(from_levels::<u64>(&vec![], 3, 1), vec![]);
}

#[test]
fn without_digests_every_leaf_is_in_the_cap() {
    // Three leaves and a height that no cap over them has.
    let leaves = elems(&[1, 2, 3, 4, 5, 6, 7]);
    let filled = fill_digests_buf::<Elem, Toy>(0, 3, &leaves, 2, 9);
    assert_eq!(filled, (digests(&[]), digests(&[12, 34, 56])));
    assert_eq!(fill_digests_buf_meta::<Elem, Toy>(0, 3, &leaves, 2, 9), filled);
    assert_eq!(
        fill_digests_buf::<Elem, Toy>(0, 0, &elems(&[]), 2, 0),
        (digests(&[]), digests(&[]))
    );
}

#[test]
fn each_part_is_filled_alone() {
    let leaves: Vec<Elem> = rows(16).into_iter().flatten().collect();
    let (all, cap) = fill_digests_buf::<Elem, Toy>(24, 4, &leaves, 2, 2);
    for c in 0..4 {
        let (nodes, root) = fill_subtree::<Elem, Toy>(&leaves[8 * c..8 * (c + 1)], 2);
        assert_eq!(all[6 * c..6 * (c + 1)], nodes);
        assert_eq!(cap[c], root);
    }
    assert_eq!(fill_digests_buf_meta::<Elem, Toy>(24, 4, &leaves, 2, 2), (all, cap));
    assert_eq!(fill_subtree::<Elem, Toy>(&elems(&[4, 2]), 2), (digests(&[42]), Digest(42)));
}

#[test]
fn changes_in_either_order() {
    let mut one = Tree::new_from_2d(rows(16), 1);
    let mut two = one.clone();
    one.change_leaf_and_update(elems(&[9, 9]), 2);
    one.change_leaves_in_range_and_update(vec![elems(&[8, 8]); 4], 5, 9);
    two.change_leaves_in_range_and_update(vec![elems(&[8, 8]); 4], 5, 9);
    two.change_leaf_and_update(elems(&[9, 9]), 2);
    assert_eq!(one, two);
}

#[test]
fn capped_proofs_begin_full_ones() {
    let full = Tree::new_from_2d(rows(16), 0);
    for height in 0..=4 {
        let capped = Tree::new_from_2d(rows(16), height);
        for i in 0..16 {
            let siblings = capped.prove(i).siblings;
            assert_eq!(full.prove(i).siblings[..siblings.len()], siblings);
        }
    }
}

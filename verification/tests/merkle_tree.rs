use anyhow::{Error, Result};
use merkle_caps::config::{GenericHashOut, Hasher, HasherType, RichField};
use merkle_caps::device::{device_buffer_len, plan_device};
use merkle_caps::merkle_proofs::verify_merkle_proof_to_cap;
use merkle_caps::merkle_tree::MerkleTree;

const ORDER: u64 = 0xffff_ffff_0000_0001;

/// An element of the Goldilocks field.
#[derive(Clone, Copy, Debug, PartialEq, Eq)]
struct Goldilocks(u64);

impl Goldilocks {
    fn plus(self, other: Self) -> Self {
        Goldilocks(((self.0 as u128 + other.0 as u128) % ORDER as u128) as u64)
    }

    fn times(self, other: Self) -> Self {
        Goldilocks(((self.0 as u128 * other.0 as u128) % ORDER as u128) as u64)
    }
}

impl RichField for Goldilocks {
    fn from_canonical_u64(n: u64) -> Self {
        Goldilocks(n)
    }

    fn to_canonical_u64(&self) -> u64 {
        self.0
    }
}

/// A digest of four field elements.
#[derive(Clone, Copy, Debug, PartialEq, Eq)]
struct HashOut([Goldilocks; 4]);

impl GenericHashOut<Goldilocks> for HashOut {
    fn to_vec(&self) -> Vec<Goldilocks> {
        self.0.to_vec()
    }

    fn from_bytes(bytes: &[u8]) -> Self {
        let mut out = [Goldilocks(0); 4];
        for (element, word) in out.iter_mut().zip(bytes.chunks_exact(8)) {
            *element = Goldilocks(u64::from_le_bytes(word.try_into().unwrap()));
        }
        HashOut(out)
    }

    fn is_same(&self, other: &Self) -> bool {
        self == other
    }
}

/// A sponge over twelve field elements with the seventh power as its only non-linear step.
#[derive(Clone, Copy, Debug, PartialEq, Eq)]
struct Sponge;

fn permute(state: &mut [Goldilocks; 12]) {
    for round in 0..8u64 {
        for (i, x) in state.iter_mut().enumerate() {
            let y = x.plus(Goldilocks(0x9e37_79b9 * (round + 1) + i as u64));
            let y2 = y.times(y);
            let y3 = y2.times(y);
            *x = y3.times(y3).times(y);
        }
        let old = *state;
        for (i, x) in state.iter_mut().enumerate() {
            let mut sum = Goldilocks(0);
            for (j, y) in old.iter().enumerate() {
                sum = sum.plus(y.times(Goldilocks(1 + ((i + 5 * j) % 12) as u64)));
            }
            *x = sum;
        }
    }
}

fn squeeze(state: &[Goldilocks; 12]) -> HashOut {
    HashOut([state[0], state[1], state[2], state[3]])
}

impl Hasher<Goldilocks> for Sponge {
    const HASH_SIZE: usize = 32;
    const HASHER_TYPE: HasherType = HasherType::Poseidon;
    type Hash = HashOut;

    fn hash_or_noop(inputs: &[Goldilocks]) -> HashOut {
        if inputs.len() <= 4 {
            let mut out = [Goldilocks(0); 4];
            out[..inputs.len()].copy_from_slice(inputs);
            return HashOut(out);
        }
        let mut state = [Goldilocks(0); 12];
        for chunk in inputs.chunks(8) {
            state[..chunk.len()].copy_from_slice(chunk);
            permute(&mut state);
        }
        squeeze(&state)
    }

    fn two_to_one(left: HashOut, right: HashOut) -> HashOut {
        let mut state = [Goldilocks(0); 12];
        state[..4].copy_from_slice(&left.0);
        state[4..8].copy_from_slice(&right.0);
        permute(&mut state);
        squeeze(&state)
    }
}

/// A digest of 25 bytes.
#[derive(Clone, Copy, Debug, PartialEq, Eq)]
struct BytesHash([u8; 25]);

impl GenericHashOut<Goldilocks> for BytesHash {
    fn to_vec(&self) -> Vec<Goldilocks> {
        self.0
            .chunks(7)
            .map(|bytes| {
                let mut word = [0; 8];
                word[..bytes.len()].copy_from_slice(bytes);
                Goldilocks(u64::from_le_bytes(word))
            })
            .collect()
    }

    fn from_bytes(bytes: &[u8]) -> Self {
        BytesHash(bytes.try_into().unwrap())
    }

    fn is_same(&self, other: &Self) -> bool {
        self == other
    }
}

/// Keccak-256, cut to 25 bytes.
#[derive(Clone, Copy, Debug, PartialEq, Eq)]
struct Keccak;

fn keccak25(bytes: &[u8]) -> BytesHash {
    let mut out = [0; 25];
    out.copy_from_slice(&keccak_hash::keccak(bytes).0[..25]);
    BytesHash(out)
}

impl Hasher<Goldilocks> for Keccak {
    const HASH_SIZE: usize = 25;
    const HASHER_TYPE: HasherType = HasherType::Keccak;
    type Hash = BytesHash;

    fn hash_or_noop(inputs: &[Goldilocks]) -> BytesHash {
        let bytes: Vec<u8> = inputs.iter().flat_map(|x| x.0.to_le_bytes()).collect();
        if bytes.len() <= 25 {
            let mut out = [0; 25];
            out[..bytes.len()].copy_from_slice(&bytes);
            return BytesHash(out);
        }
        keccak25(&bytes)
    }

    fn two_to_one(left: BytesHash, right: BytesHash) -> BytesHash {
        keccak25(&[left.0, right.0].concat())
    }
}

/// Rows of field elements that look random.
fn random_data(n: usize, k: usize, seed: u64) -> Vec<Vec<Goldilocks>> {
    let mut state = seed;
    let mut next = || {
        state = state.wrapping_add(0x9e37_79b9_7f4a_7c15);
        let mut z = state;
        z = (z ^ (z >> 30)).wrapping_mul(0xbf58_476d_1ce4_e5b9);
        z = (z ^ (z >> 27)).wrapping_mul(0x94d0_49bb_1331_11eb);
        Goldilocks((z ^ (z >> 31)) % ORDER)
    };
    (0..n).map(|_| (0..k).map(|_| next()).collect()).collect()
}

fn verify_all_leaves<H: Hasher<Goldilocks>>(
    leaves: Vec<Vec<Goldilocks>>,
    cap_height: usize,
) -> Result<()> {
    let tree = MerkleTree::<Goldilocks, H>::new_from_2d(leaves.clone(), cap_height);
    for (i, leaf) in leaves.into_iter().enumerate() {
        let proof = tree.prove(i);
        verify_merkle_proof_to_cap(leaf, i, &tree.cap, &proof)
            .map_err(|e| Error::msg(format!("leaf {}: {:?}", i, e)))?;
    }
    Ok(())
}

fn verify_change_leaf_and_update(log_n: usize, cap_h: usize) {
    let n = 1 << log_n;
    let k = 7;
    let mut leaves = random_data(n, k, 1);

    let mut mt1 = MerkleTree::<Goldilocks, Sponge>::new_from_2d(leaves.clone(), cap_h);

    let tmp = random_data(1, k, 2);
    leaves[0] = tmp[0].clone();
    let mt2 = MerkleTree::<Goldilocks, Sponge>::new_from_2d(leaves, cap_h);

    mt1.change_leaf_and_update(tmp[0].clone(), 0);

    assert_eq!(mt1.digests, mt2.digests);
    assert_eq!(mt1.cap.0, mt2.cap.0);
}

/// Compares a tree built over changed leaves with one whose leaves were changed, one by one or
/// all at once.
fn verify_change_leaf_and_update_range(
    leaves_count: usize,
    leaf_size: usize,
    cap_height: usize,
    start_index: usize,
    end_index: usize,
    one_by_one: bool,
) {
    let raw_leaves = random_data(leaves_count, leaf_size, 3);
    let vals = random_data(end_index - start_index, leaf_size, 4);

    let mut leaves1_1d: Vec<Goldilocks> = raw_leaves.into_iter().flatten().collect();
    let leaves2_1d = leaves1_1d.clone();

    let mut tree2 =
        MerkleTree::<Goldilocks, Sponge>::new_from_1d(leaves2_1d, leaf_size, cap_height);

    for i in start_index..end_index {
        for j in 0..leaf_size {
            leaves1_1d[i * leaf_size + j] = vals[i - start_index][j];
        }
    }
    let tree1 = MerkleTree::<Goldilocks, Sponge>::new_from_1d(leaves1_1d, leaf_size, cap_height);

    if one_by_one {
        for idx in start_index..end_index {
            tree2.change_leaf_and_update(vals[idx - start_index].clone(), idx);
        }
    } else {
        tree2.change_leaves_in_range_and_update(vals, start_index, end_index);
    }

    assert_eq!(tree1.get_leaves_1d(), tree2.get_leaves_1d());
    assert_eq!(tree1.digests, tree2.digests);
    assert_eq!(tree1.cap.0, tree2.cap.0);
}

#[test]
#[should_panic]
fn test_cap_height_too_big() {
    let log_n = 8;
    let cap_height = log_n + 1; // Should panic if `cap_height > len_n`.

    let leaves = random_data(1 << log_n, 7, 5);
    let _ = MerkleTree::<Goldilocks, Sponge>::new_from_2d(leaves, cap_height);
}

#[test]
fn test_cap_height_eq_log2_len() -> Result<()> {
    let log_n = 8;
    let n = 1 << log_n;
    let leaves = random_data(n, 7, 6);

    verify_all_leaves::<Sponge>(leaves, log_n)?;

    Ok(())
}

#[test]
fn test_change_leaf_and_update() -> Result<()> {
    // small tree, 1 cap
    verify_change_leaf_and_update(3, 0);
    // small tree, 2 cap
    verify_change_leaf_and_update(3, 1);
    // small tree, 4 cap
    verify_change_leaf_and_update(3, 2);
    // small tree, all cap
    verify_change_leaf_and_update(3, 3);

    // big tree
    verify_change_leaf_and_update(12, 3);

    Ok(())
}

#[test]
fn test_change_leaf_and_update_range() -> Result<()> {
    for h in 0..11 {
        println!(
            "Run verify_change_leaf_and_update_range_one_by_one() for height {:?}",
            h
        );
        verify_change_leaf_and_update_range(1024, 68, h, 32, 48, true);
        println!(
            "Run verify_change_leaf_and_update_range() for height {:?}",
            h
        );
        verify_change_leaf_and_update_range(1024, 68, h, 32, 48, false);
    }

    Ok(())
}

#[test]
fn test_merkle_trees_poseidon_g64() -> Result<()> {
    let log_n = 12;
    let n = 1 << log_n;
    let leaves = random_data(n, 7, 7);

    verify_all_leaves::<Sponge>(leaves, 1)?;

    Ok(())
}

#[test]
fn test_merkle_trees_cuda_poseidon_g64() -> Result<()> {
    let log_n = 14;
    let n = 1 << log_n;
    let leaves = random_data(n, 7, 8);
    let leaves_1d: Vec<Goldilocks> = leaves.into_iter().flatten().collect();

    // What a device would hand back: for each of the two subtrees, its digests level by level.
    let plan = plan_device::<Goldilocks, Sponge>(n, 7, 1, 1);
    let host = MerkleTree::<Goldilocks, Sponge>::new_from_1d(leaves_1d.clone(), 7, 1);
    let mut gpu_digests: Vec<Goldilocks> = Vec::new();
    for subtree_leaves in leaves_1d.chunks_exact(n / 2 * 7) {
        let mut level: Vec<HashOut> =
            subtree_leaves.chunks_exact(7).map(|leaf| Sponge::hash_or_noop(leaf)).collect();
        let mut levels = vec![level.clone()];
        while level.len() > 2 {
            level = level.chunks_exact(2).map(|p| Sponge::two_to_one(p[0], p[1])).collect();
            levels.push(level.clone());
        }
        gpu_digests.extend(levels.iter().rev().flatten().flat_map(|h| h.to_vec()));
    }
    let gpu_caps = host.cap.flatten();
    assert_eq!(gpu_digests.len(), plan.digests_size);
    assert_eq!(gpu_caps.len(), plan.caps_size);
    assert_eq!(gpu_caps.len(), device_buffer_len(host.cap.len()));

    let tree = MerkleTree::<Goldilocks, Sponge>::new_from_gpu_leaves(
        leaves_1d,
        &gpu_digests,
        &gpu_caps,
        n,
        7,
        1,
    );
    assert_eq!(tree, host);

    Ok(())
}

#[test]
fn test_merkle_trees_keccak() -> Result<()> {
    let log_n = 12;
    let n = 1 << log_n;
    let leaves = random_data(n, 7, 9);

    verify_all_leaves::<Keccak>(leaves, 1)?;

    Ok(())
}

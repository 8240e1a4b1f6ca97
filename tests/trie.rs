use proof_map::hash::{hash_leaf, hash_single_leaf_root};
use proof_map::index::ProofMapIndex;
use proof_map::key::{BitKey, ChildKind};
use proof_map::map_proof::{BranchProofNode, ProofError, ProofNode, RootProofNode};
use sha2::Digest;

fn key_with(first: u8, last: u8) -> [u8; 32] {
    let mut k = [0u8; 32];
    k[0] = first;
    k[31] = last;
    k
}

fn pseudo_random_keys(n: usize, seed: u64) -> Vec<[u8; 32]> {
    let mut state = seed;
    let mut keys = Vec::new();
    for _ in 0..n {
        let mut k = [0u8; 32];
        for b in k.iter_mut() {
            state = state.wrapping_mul(6364136223846793005).wrapping_add(1442695040888963407);
            *b = (state >> 33) as u8;
        }
        keys.push(k);
    }
    keys
}

fn branch_size(b: &BranchProofNode) -> usize {
    match b {
        BranchProofNode::LeftBranch { left_hash, .. } => 1 + node_size(left_hash),
        BranchProofNode::RightBranch { right_hash, .. } => 1 + node_size(right_hash),
        BranchProofNode::BranchKeyNotFound { .. } => 1,
    }
}

fn node_size(n: &ProofNode) -> usize {
    match n {
        ProofNode::Leaf(_) => 1,
        ProofNode::Branch(b) => branch_size(b),
    }
}

fn proof_size(p: &RootProofNode) -> usize {
    match p {
        RootProofNode::Branch(b) => branch_size(b),
        _ => 1,
    }
}

#[test]
fn bit_key_of_a_key() {
    let k = key_with(0b1010_0000, 1);
    let b = BitKey::leaf(&k);
    assert_eq!(b.len(), 256);
    assert!(b.is_leaf());
    assert_eq!(b.get(0), ChildKind::Right);
    assert_eq!(b.get(1), ChildKind::Left);
    assert_eq!(b.get(2), ChildKind::Right);
    assert_eq!(b.get(255), ChildKind::Right);
    assert_eq!(b.get(254), ChildKind::Left);
    assert_eq!(ChildKind::Left.opposite(), ChildKind::Right);
}

#[test]
fn bit_key_common_prefix_and_truncate() {
    let a = BitKey::leaf(&key_with(0b1100_0000, 0));
    let b = BitKey::leaf(&key_with(0b1110_0000, 0));
    assert_eq!(a.common_prefix(&b), 2);
    assert_eq!(a.common_prefix(&a), 256);
    let t = a.truncate(5);
    assert_eq!(t.len(), 5);
    assert!(!t.is_leaf());
    assert!(t.is_prefix_of(&a));
    assert!(!b.is_prefix_of(&a));
    assert!(a.equals(&a.duplicate()));
    assert!(!a.equals(&b));
}

#[test]
fn bit_key_encoding_clears_bits_past_length() {
    let a = BitKey::leaf(&[0xffu8; 32]);
    let e = a.truncate(10).encode();
    assert_eq!(e.len(), 34);
    assert_eq!(e[0], 0xff);
    assert_eq!(e[1], 0xc0);
    assert!(e[2..32].iter().all(|b| *b == 0));
    assert_eq!(e[32], 0);
    assert_eq!(e[33], 10);
    let full = a.encode();
    assert!(full[0..32].iter().all(|b| *b == 0xff));
    assert_eq!(full[32], 1);
    assert_eq!(full[33], 0);
}

#[test]
fn leaf_hash_is_tagged_sha256() {
    let v = vec![1u8, 2, 3];
    let mut data = vec![0u8];
    data.extend_from_slice(&v);
    let expected = sha2::Sha256::digest(&data).to_vec();
    assert_eq!(hash_leaf(&v), expected);
}

#[test]
fn single_leaf_root_folds_slice_and_leaf_hash() {
    let k = key_with(7, 9);
    let v = vec![42u8; 100];
    let mut idx = ProofMapIndex::new(vec![1, 2]);
    idx.put(&k, v.clone());
    let bk = BitKey::leaf(&k);
    let mut data = bk.encode();
    data.extend_from_slice(&hash_leaf(&v));
    let expected = sha2::Sha256::digest(&data).to_vec();
    assert_eq!(idx.root_hash(), expected);
    assert_eq!(hash_single_leaf_root(&bk, &hash_leaf(&v)), expected);
    assert_eq!(idx.root_hash().len(), 32);
}

#[test]
fn empty_index_has_zero_root_and_empty_proof() {
    let idx = ProofMapIndex::new(vec![]);
    assert_eq!(idx.root_hash(), vec![0u8; 32]);
    let k = key_with(0x55, 0xaa);
    assert_eq!(idx.get(&k), None);
    assert!(!idx.contains(&k));
    let p = idx.get_proof(&k);
    assert!(matches!(p, RootProofNode::Empty));
    let c = p.check(&k).unwrap();
    assert!(c.entries().is_empty());
    assert_eq!(c.merkle_root(), &idx.root_hash());
    assert_eq!(c.merkle_root(), &vec![0u8; 32]);
}

#[test]
fn get_after_put_whatever_the_order() {
    let keys = pseudo_random_keys(200, 11);
    let mut idx = ProofMapIndex::new(vec![3]);
    for (i, k) in keys.iter().enumerate() {
        idx.put(k, vec![i as u8, (i >> 8) as u8]);
        assert_eq!(idx.get(k), Some(vec![i as u8, (i >> 8) as u8]));
    }
    for (i, k) in keys.iter().enumerate() {
        assert_eq!(idx.get(k), Some(vec![i as u8, (i >> 8) as u8]));
        assert!(idx.contains(k));
    }
    idx.put(&keys[5], vec![9, 9, 9]);
    assert_eq!(idx.get(&keys[5]), Some(vec![9, 9, 9]));
    assert_eq!(idx.get(&keys[6]), Some(vec![6, 0]));
}

#[test]
fn root_depends_only_on_contents() {
    let keys = pseudo_random_keys(100, 5);
    let mut a = ProofMapIndex::new(vec![]);
    for (i, k) in keys.iter().enumerate() {
        a.put(k, vec![i as u8]);
    }
    let mut b = ProofMapIndex::new(vec![]);
    for (i, k) in keys.iter().enumerate().rev() {
        b.put(k, vec![0xee]);
        b.put(k, vec![i as u8]);
    }
    let extra = pseudo_random_keys(20, 77);
    for k in extra.iter() {
        b.put(k, vec![1, 2, 3]);
    }
    for k in extra.iter().rev() {
        b.delete(k);
    }
    assert_eq!(a.root_hash(), b.root_hash());
    b.put(&keys[0], vec![200]);
    assert_ne!(a.root_hash(), b.root_hash());
}

#[test]
fn proofs_of_present_keys_check() {
    let keys = pseudo_random_keys(300, 3);
    let mut idx = ProofMapIndex::new(vec![]);
    for (i, k) in keys.iter().enumerate() {
        idx.put(k, vec![i as u8; 3]);
    }
    for k in keys.iter().take(40) {
        idx.delete(k);
    }
    let root = idx.root_hash();
    for (i, k) in keys.iter().enumerate().skip(40) {
        let c = idx.get_proof(k).check(k).unwrap();
        assert_eq!(c.entries(), vec![(*k, vec![i as u8; 3])]);
        assert_eq!(c.merkle_root(), &root);
    }
}

#[test]
fn proofs_of_absent_keys_check() {
    let keys = pseudo_random_keys(300, 3);
    let mut idx = ProofMapIndex::new(vec![]);
    for (i, k) in keys.iter().enumerate() {
        idx.put(k, vec![i as u8]);
    }
    for k in keys.iter().take(40) {
        idx.delete(k);
    }
    let root = idx.root_hash();
    let mut absent: Vec<[u8; 32]> = keys.iter().take(40).cloned().collect();
    absent.extend(pseudo_random_keys(40, 99));
    for k in absent.iter() {
        assert!(!idx.contains(k));
        let c = idx.get_proof(k).check(k).unwrap();
        assert!(c.entries().is_empty());
        assert_eq!(c.merkle_root(), &root);
    }
}

#[test]
fn proofs_on_a_single_leaf() {
    let k = key_with(1, 1);
    let other = key_with(1, 2);
    let mut idx = ProofMapIndex::new(vec![]);
    idx.put(&k, vec![5]);
    let p = idx.get_proof(&k);
    assert!(matches!(p, RootProofNode::LeafRootInclusive(_, _)));
    let c = p.check(&k).unwrap();
    assert_eq!(c.entries(), vec![(k, vec![5])]);
    assert_eq!(c.merkle_root(), &idx.root_hash());
    let q = idx.get_proof(&other);
    assert!(matches!(q, RootProofNode::LeafRootExclusive(_, _)));
    let c = q.check(&other).unwrap();
    assert!(c.entries().is_empty());
    assert_eq!(c.merkle_root(), &idx.root_hash());
}

#[test]
fn proof_for_another_key_is_rejected() {
    let keys = pseudo_random_keys(50, 8);
    let mut idx = ProofMapIndex::new(vec![]);
    for k in keys.iter() {
        idx.put(k, vec![1]);
    }
    let p = idx.get_proof(&keys[0]);
    assert_eq!(p.check(&keys[1]).unwrap_err(), ProofError::InvalidProof);
    let single = RootProofNode::LeafRootInclusive(BitKey::leaf(&keys[0]), vec![1]);
    assert_eq!(single.check(&keys[2]).unwrap_err(), ProofError::InvalidProof);
    let excl = RootProofNode::LeafRootExclusive(BitKey::leaf(&keys[0]), vec![0; 32]);
    assert_eq!(excl.check(&keys[0]).unwrap_err(), ProofError::InvalidProof);
}

#[test]
fn malformed_branch_proof_is_rejected() {
    let k = key_with(0, 0);
    let lk = BitKey::leaf(&key_with(0x80, 0));
    let rk = BitKey::leaf(&key_with(0x00, 0));
    let p = RootProofNode::Branch(BranchProofNode::BranchKeyNotFound {
        left_hash: vec![0; 32],
        right_hash: vec![0; 32],
        left_key: lk,
        right_key: rk,
    });
    assert_eq!(p.check(&k).unwrap_err(), ProofError::InvalidProof);
}

#[test]
fn put_twice_keeps_root() {
    let keys = pseudo_random_keys(30, 21);
    let mut idx = ProofMapIndex::new(vec![]);
    for k in keys.iter() {
        idx.put(k, vec![4, 4]);
    }
    let k = key_with(3, 3);
    idx.put(&k, vec![8]);
    let once = idx.root_hash();
    idx.put(&k, vec![8]);
    assert_eq!(idx.root_hash(), once);
}

#[test]
fn delete_undoes_put_on_empty() {
    let mut idx = ProofMapIndex::new(vec![]);
    let empty = idx.root_hash();
    let k = key_with(0xf0, 0x0f);
    idx.put(&k, vec![1, 2]);
    assert_ne!(idx.root_hash(), empty);
    idx.delete(&k);
    assert_eq!(idx.root_hash(), empty);
    assert_eq!(idx.get(&k), None);
}

#[test]
fn delete_absent_key_changes_nothing() {
    let keys = pseudo_random_keys(25, 4);
    let mut idx = ProofMapIndex::new(vec![]);
    for k in keys.iter() {
        idx.put(k, vec![7]);
    }
    let before = idx.root_hash();
    idx.delete(&key_with(0x12, 0x34));
    assert_eq!(idx.root_hash(), before);
}

#[test]
fn clear_empties_the_index() {
    let keys = pseudo_random_keys(10, 2);
    let mut idx = ProofMapIndex::new(vec![]);
    for k in keys.iter() {
        idx.put(k, vec![7]);
    }
    idx.clear();
    assert_eq!(idx.root_hash(), vec![0u8; 32]);
    assert!(!idx.contains(&keys[0]));
}

#[test]
fn proof_size_bounded_by_key_bits() {
    let keys = pseudo_random_keys(5000, 13);
    let mut idx = ProofMapIndex::new(vec![]);
    for k in keys.iter() {
        idx.put(k, vec![1]);
    }
    for k in keys.iter().take(50) {
        let p = idx.get_proof(k);
        let n = proof_size(&p);
        assert!(n <= 257);
        assert!(n < 40);
    }
}

#[test]
fn two_keys_differing_in_first_bit() {
    let k0 = [0u8; 32];
    let k1 = key_with(0x80, 0);
    let mut idx = ProofMapIndex::new(vec![]);
    idx.put(&k0, vec![10]);
    idx.put(&k1, vec![11]);
    let root = idx.root_hash();
    let p0 = idx.get_proof(&k0);
    match &p0 {
        RootProofNode::Branch(BranchProofNode::LeftBranch {
            left_hash,
            right_hash,
            left_key,
            right_key,
        }) => {
            assert!(matches!(**left_hash, ProofNode::Leaf(ref v) if *v == vec![10]));
            assert_eq!(*right_hash, hash_leaf(&vec![11]));
            assert!(left_key.equals(&BitKey::leaf(&k0)));
            assert!(right_key.equals(&BitKey::leaf(&k1)));
        }
        _ => panic!("expected a left branch proof"),
    }
    assert_eq!(proof_size(&p0), 2);
    let c0 = p0.check(&k0).unwrap();
    assert_eq!(c0.entries(), vec![(k0, vec![10])]);
    assert_eq!(c0.merkle_root(), &root);
    let p1 = idx.get_proof(&k1);
    match &p1 {
        RootProofNode::Branch(BranchProofNode::RightBranch { left_hash, right_hash, .. }) => {
            assert_eq!(*left_hash, hash_leaf(&vec![10]));
            assert!(matches!(**right_hash, ProofNode::Leaf(ref v) if *v == vec![11]));
        }
        _ => panic!("expected a right branch proof"),
    }
    let c1 = p1.check(&k1).unwrap();
    assert_eq!(c1.entries(), vec![(k1, vec![11])]);
    assert_eq!(c1.merkle_root(), &root);
}

#[test]
fn cleared_index_gives_empty_proof() {
    let keys = pseudo_random_keys(10, 6);
    let mut idx = ProofMapIndex::new(vec![]);
    for k in keys.iter() {
        idx.put(k, vec![3]);
    }
    idx.clear();
    let p = idx.get_proof(&keys[0]);
    assert!(matches!(p, RootProofNode::Empty));
    let c = p.check(&keys[0]).unwrap();
    assert!(c.entries().is_empty());
    assert_eq!(c.merkle_root(), &vec![0u8; 32]);
}

#[test]
fn key_leaving_root_prefix_gives_key_not_found() {
    let ka = key_with(0x80, 0);
    let kb = key_with(0xc0, 0);
    let mut idx = ProofMapIndex::new(vec![]);
    idx.put(&ka, vec![1]);
    idx.put(&kb, vec![2]);
    let absent = key_with(0x00, 0);
    let p = idx.get_proof(&absent);
    match &p {
        RootProofNode::Branch(BranchProofNode::BranchKeyNotFound {
            left_hash,
            right_hash,
            left_key,
            right_key,
        }) => {
            assert_eq!(*left_hash, hash_leaf(&vec![1]));
            assert_eq!(*right_hash, hash_leaf(&vec![2]));
            assert!(left_key.equals(&BitKey::leaf(&ka)));
            assert!(right_key.equals(&BitKey::leaf(&kb)));
        }
        _ => panic!("expected an exclusion proof at the root"),
    }
    let c = p.check(&absent).unwrap();
    assert!(c.entries().is_empty());
    assert_eq!(c.merkle_root(), &idx.root_hash());
}

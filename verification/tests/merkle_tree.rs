use poseidon_merkle::field::{key_bytes, FieldElement};
use poseidon_merkle::merkle::{gen_zero_tree, MerkleAccumulator, MerkleError};
use poseidon_merkle::poseidon::{default_hasher, Poseidon};

fn key(x: u8) -> FieldElement {
    FieldElement::from_bytes_mod_order(key_bytes(x))
}

fn tree_of_depth(depth: usize) -> (Poseidon, MerkleAccumulator) {
    let h = default_hasher();
    let tree = MerkleAccumulator::new(h.clone(), depth).unwrap();
    (h, tree)
}

#[test]
fn can_create_tree() {
    let h = default_hasher();
    assert!(MerkleAccumulator::new(h, 3).is_ok());
}

#[test]
fn can_add_member() {
    let (_, mut tree) = tree_of_depth(3);
    assert_eq!(tree.append(vec![key(1)]), Ok(()));
    assert_eq!(tree.leaf_count(), 1);
}

#[test]
fn should_not_have_0_depth() {
    let h = default_hasher();
    assert_eq!(
        MerkleAccumulator::new(h, 0).err(),
        Some(MerkleError::InvalidTreeDepth)
    );
}

#[test]
fn should_have_min_depth() {
    let (_, mut tree) = tree_of_depth(1);
    assert_eq!(tree.append(vec![key(1)]), Ok(()));
    assert_eq!(tree.append(vec![key(1)]), Ok(()));
    assert_eq!(tree.leaf_count(), 2);
    assert_eq!(tree.append(vec![key(1)]), Err(MerkleError::ExceedsMaxLeaves));
    assert_eq!(tree.leaf_count(), 2);
}

#[test]
fn should_have_max_depth() {
    let h = default_hasher();
    assert!(MerkleAccumulator::new(h, 32).is_ok());
}

#[test]
fn should_not_have_more_than_max_depth() {
    let h = default_hasher();
    assert_eq!(
        MerkleAccumulator::new(h, 33).err(),
        Some(MerkleError::InvalidTreeDepth)
    );
}

#[test]
fn should_have_correct_root_hash_after_insertion() {
    let h = default_hasher();
    let zero_tree = gen_zero_tree(&h, 2);
    let key0 = key(0);
    let key1 = key(1);
    let key2 = key(2);
    let zero_h0 = zero_tree[0];
    let zero_h1 = zero_tree[1];

    let mut tree = MerkleAccumulator::new(h.clone(), 2).unwrap();
    assert_eq!(tree.append(vec![key0]), Ok(()));

    let keyh1 = h.hash(key0, zero_h0);
    let keyh2 = h.hash(keyh1, zero_h1);
    assert_eq!(tree.root(), keyh2, "Invalid root hash");

    assert_eq!(tree.append(vec![key1]), Ok(()));

    let keyh1 = h.hash(key0, key1);
    let keyh2 = h.hash(keyh1, zero_h1);
    assert_eq!(tree.root(), keyh2, "Invalid root hash");

    assert_eq!(tree.append(vec![key2]), Ok(()));

    let keyh1 = h.hash(key0, key1);
    let keyh2 = h.hash(key2, zero_h0);
    let keyh3 = h.hash(keyh1, keyh2);
    assert_eq!(tree.root(), keyh3, "Invalid root hash");
}

fn fifteen_keys() -> Vec<FieldElement> {
    let mut keys = Vec::new();
    for i in 0..15 {
        keys.push(key(i as u8));
    }
    keys
}

#[test]
fn should_have_correct_root_hash() {
    let h = default_hasher();
    let zero_tree = gen_zero_tree(&h, 4);
    let keys = fifteen_keys();
    let zero_h0 = zero_tree[0];

    let mut tree = MerkleAccumulator::new(h.clone(), 4).unwrap();
    assert_eq!(tree.append(keys.clone()), Ok(()));

    let key1_1 = h.hash(keys[0], keys[1]);
    let key1_2 = h.hash(keys[2], keys[3]);
    let key1_3 = h.hash(keys[4], keys[5]);
    let key1_4 = h.hash(keys[6], keys[7]);
    let key1_5 = h.hash(keys[8], keys[9]);
    let key1_6 = h.hash(keys[10], keys[11]);
    let key1_7 = h.hash(keys[12], keys[13]);
    let key1_8 = h.hash(keys[14], zero_h0);

    let key2_1 = h.hash(key1_1, key1_2);
    let key2_2 = h.hash(key1_3, key1_4);
    let key2_3 = h.hash(key1_5, key1_6);
    let key2_4 = h.hash(key1_7, key1_8);

    let key3_1 = h.hash(key2_1, key2_2);
    let key3_2 = h.hash(key2_3, key2_4);

    let root_hash = h.hash(key3_1, key3_2);

    assert_eq!(tree.root(), root_hash, "Invalid root hash");
}

#[test]
fn should_be_unable_to_pass_proof_path_with_invalid_length() {
    let key0 = key(0);
    let key1 = key(1);
    let key2 = key(2);
    let (_, mut tree) = tree_of_depth(2);
    assert_eq!(tree.append(vec![key0, key1, key2]), Ok(()));

    let path = vec![(true, key0)];
    assert_eq!(tree.verify(key0, &path), Err(MerkleError::InvalidPathLength));

    let path = vec![(true, key0), (false, key1), (true, key2)];
    assert_eq!(tree.verify(key0, &path), Err(MerkleError::InvalidPathLength));
}

#[test]
fn should_not_verify_invalid_proof() {
    let h = default_hasher();
    let zero_tree = gen_zero_tree(&h, 2);
    let key0 = key(0);
    let key1 = key(1);
    let key2 = key(2);
    let zero_h0 = zero_tree[0];

    let mut tree = MerkleAccumulator::new(h.clone(), 2).unwrap();
    assert_eq!(tree.append(vec![key0, key1, key2]), Ok(()));

    let keyh1 = h.hash(key0, key1);
    let keyh2 = h.hash(key2, zero_h0);
    let _root_hash = h.hash(keyh1, keyh2);

    let path = vec![(false, key1), (true, keyh2)];
    assert_eq!(
        tree.verify(key0, &path),
        Err(MerkleError::InvalidMembershipProof)
    );

    let path = vec![(true, key1), (false, keyh2)];
    assert_eq!(
        tree.verify(key0, &path),
        Err(MerkleError::InvalidMembershipProof)
    );

    let path = vec![(true, key2), (true, keyh1)];
    assert_eq!(
        tree.verify(key0, &path),
        Err(MerkleError::InvalidMembershipProof)
    );
}

#[test]
fn should_verify_proof_of_membership() {
    let h = default_hasher();
    let zero_tree = gen_zero_tree(&h, 4);
    let keys = fifteen_keys();
    let zero_h0 = zero_tree[0];

    let mut tree = MerkleAccumulator::new(h.clone(), 4).unwrap();
    assert_eq!(tree.append(keys.clone()), Ok(()));

    let key1_1 = h.hash(keys[0], keys[1]);
    let key1_2 = h.hash(keys[2], keys[3]);
    let key1_3 = h.hash(keys[4], keys[5]);
    let key1_4 = h.hash(keys[6], keys[7]);
    let key1_5 = h.hash(keys[8], keys[9]);
    let key1_6 = h.hash(keys[10], keys[11]);
    let key1_7 = h.hash(keys[12], keys[13]);
    let key1_8 = h.hash(keys[14], zero_h0);

    let key2_1 = h.hash(key1_1, key1_2);
    let key2_2 = h.hash(key1_3, key1_4);
    let key2_3 = h.hash(key1_5, key1_6);
    let key2_4 = h.hash(key1_7, key1_8);

    let key3_1 = h.hash(key2_1, key2_2);
    let key3_2 = h.hash(key2_3, key2_4);

    let _root_hash = h.hash(key3_1, key3_2);

    let path = vec![(true, keys[1]), (true, key1_2), (true, key2_2), (true, key3_2)];
    assert_eq!(tree.verify(keys[0], &path), Ok(()));

    let path = vec![(true, keys[5]), (true, key1_4), (false, key2_1), (true, key3_2)];
    assert_eq!(tree.verify(keys[4], &path), Ok(()));

    let path = vec![(true, keys[11]), (false, key1_5), (true, key2_4), (false, key3_1)];
    assert_eq!(tree.verify(keys[10], &path), Ok(()));

    let path = vec![(true, zero_h0), (false, key1_7), (false, key2_3), (false, key3_1)];
    assert_eq!(tree.verify(keys[14], &path), Ok(()));
}

#[test]
fn generated_paths_verify_and_tampered_paths_do_not() {
    let (_, mut tree) = tree_of_depth(4);
    let keys = fifteen_keys();
    assert_eq!(tree.append(keys.clone()), Ok(()));
    let root = tree.root();
    for position in [0u64, 5, 14] {
        let leaf = keys[position as usize];
        let path = tree.generate_path(position).unwrap();
        assert_eq!(path.len(), 4);
        assert!(tree.verify_path(leaf, &path, root));
        assert_eq!(tree.verify(leaf, &path), Ok(()));
        for level in 0..4 {
            let mut forged = path.clone();
            forged[level].1 = forged[level].1.add(&FieldElement::one());
            assert!(!tree.verify_path(leaf, &forged, root));
            let mut flipped = path.clone();
            flipped[level].0 = !flipped[level].0;
            assert!(!tree.verify_path(leaf, &flipped, root));
        }
        let other_root = root.add(&FieldElement::one());
        assert!(!tree.verify_path(leaf, &path, other_root));
    }
}

#[test]
fn path_of_unfilled_position_is_refused() {
    let (_, mut tree) = tree_of_depth(3);
    assert_eq!(tree.generate_path(0).err(), Some(MerkleError::InvalidPosition));
    assert_eq!(tree.append(vec![key(1), key(2)]), Ok(()));
    assert!(tree.generate_path(1).is_ok());
    assert_eq!(tree.generate_path(2).err(), Some(MerkleError::InvalidPosition));
}

#[test]
fn empty_tree_root_is_top_of_zero_tree() {
    let h = default_hasher();
    let zero_tree = gen_zero_tree(&h, 5);
    assert_eq!(zero_tree.len(), 6);
    assert_eq!(zero_tree[0], h.hash_2(FieldElement::zero(), FieldElement::zero()));
    for level in 0..5 {
        assert_eq!(zero_tree[level + 1], h.hash_2(zero_tree[level], zero_tree[level]));
    }
    let tree = MerkleAccumulator::new(h, 5).unwrap();
    assert_eq!(tree.root(), zero_tree[5]);
    assert_eq!(tree.empty_subtree_root(3), zero_tree[3]);
}

#[test]
fn append_over_capacity_changes_nothing() {
    let (_, mut tree) = tree_of_depth(2);
    assert_eq!(tree.append(vec![key(1), key(2), key(3)]), Ok(()));
    let root = tree.root();
    assert_eq!(
        tree.append(vec![key(4), key(5)]),
        Err(MerkleError::ExceedsMaxLeaves)
    );
    assert_eq!(tree.leaf_count(), 3);
    assert_eq!(tree.root(), root);
    assert_eq!(tree.append(vec![key(4)]), Ok(()));
    assert_eq!(tree.leaf_count(), 4);
    assert_eq!(tree.append(vec![key(5)]), Err(MerkleError::ExceedsMaxLeaves));
}

#[test]
fn leaves_and_root_as_bytes() {
    let (_, mut by_bytes) = tree_of_depth(3);
    let (_, mut by_elements) = tree_of_depth(3);
    assert_eq!(by_bytes.append_bytes(&vec![key_bytes(1), key_bytes(2)]), Ok(()));
    assert_eq!(by_elements.append(vec![key(1), key(2)]), Ok(()));
    assert_eq!(by_bytes.root(), by_elements.root());
    assert_eq!(by_bytes.root_bytes(), by_elements.root().to_bytes());
    assert_eq!(by_bytes.leaf_count(), 2);
    // bytes that are not below the group order are reduced
    assert_eq!(by_bytes.append_bytes(&vec![[0xff; 32]]), Ok(()));
    assert_eq!(by_elements.append(vec![FieldElement::from_bytes_mod_order([0xff; 32])]), Ok(()));
    assert_eq!(by_bytes.root_bytes(), by_elements.root_bytes());
    let too_many: Vec<[u8; 32]> = (0..6).map(key_bytes).collect();
    assert_eq!(by_bytes.append_bytes(&too_many), Err(MerkleError::ExceedsMaxLeaves));
    assert_eq!(by_bytes.leaf_count(), 3);
}

#[test]
fn tree_fills_to_its_capacity() {
    let (_, mut tree) = tree_of_depth(2);
    for i in 0..4 {
        assert_eq!(tree.append(vec![key(i)]), Ok(()));
        assert_eq!(tree.leaf_count(), (i + 1) as u64);
    }
    assert_eq!(tree.append(vec![]), Ok(()));
    assert_eq!(tree.append(vec![key(4)]), Err(MerkleError::ExceedsMaxLeaves));
    let path = tree.generate_path(3).unwrap();
    assert_eq!(path[0], (false, key(2)));
    assert!(!path[1].0);
    assert_eq!(tree.verify(key(3), &path), Ok(()));
    let copy = tree.clone();
    assert_eq!(copy.root(), tree.root());
    assert_eq!(copy.leaf_count(), 4);
    assert_eq!(copy.depth(), 2);
}

/// Well-shaped parameters whose matrix has zeros in row 1: every pair is
/// hashed to zero.
fn colliding_hasher() -> Poseidon {
    let mut h = default_hasher();
    for entry in h.mds_matrix[1].iter_mut() {
        *entry = FieldElement::zero();
    }
    assert!(h.is_well_formed());
    h
}

#[test]
fn parameters_that_collide_accept_a_flipped_flag() {
    let h = colliding_hasher();
    assert_eq!(h.hash_2(key(1), key(2)), FieldElement::zero());
    assert_eq!(h.hash_2(key(2), key(1)), FieldElement::zero());
    // different seeds, one nullifier
    assert_eq!(h.hash_2(key(3), key(3)), h.hash_2(key(4), key(4)));
    let mut tree = MerkleAccumulator::new(h, 2).unwrap();
    tree.append(vec![key(1), key(2), key(3)]).unwrap();
    let path = tree.generate_path(0).unwrap();
    assert_eq!(tree.verify(key(1), &path), Ok(()));
    let mut flipped = path.clone();
    flipped[0].0 = !flipped[0].0;
    assert_ne!(flipped[0].1, key(1));
    assert_eq!(tree.verify(key(1), &flipped), Ok(()));
    // with the standard parameters the flipped flag is refused
    let (_, mut standard) = tree_of_depth(2);
    standard.append(vec![key(1), key(2), key(3)]).unwrap();
    let path = standard.generate_path(0).unwrap();
    let mut flipped = path.clone();
    flipped[0].0 = !flipped[0].0;
    assert_eq!(standard.verify(key(1), &path), Ok(()));
    assert_eq!(standard.verify(key(1), &flipped), Err(MerkleError::InvalidMembershipProof));
}

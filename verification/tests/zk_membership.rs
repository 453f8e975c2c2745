use curve25519_dalek::scalar::Scalar;
use poseidon_merkle::field::FieldElement;
use poseidon_merkle::membership::{
    leaf_of, membership_gate_count, nullifier_of, prove_zk, verify_zk, MembershipProof,
    ProvingError, VerificationError,
};
use poseidon_merkle::merkle::MerkleAccumulator;
use poseidon_merkle::poseidon::{default_hasher, Poseidon};
use poseidon_merkle::r1cs::Generators;
use rand::rngs::OsRng;

const LABEL: &[u8] = b"zk_membership_proof";

fn random_element() -> FieldElement {
    FieldElement::from_bytes_mod_order(Scalar::random(&mut OsRng).to_bytes())
}

fn random_commitment() -> [u8; 32] {
    curve25519_dalek::ristretto::RistrettoPoint::random(&mut OsRng)
        .compress()
        .to_bytes()
}

/// Parameters with few rounds, so that a proof takes little time. With the
/// standard rounds the circuit for a tree of depth 32 has 7204 gates, which
/// are padded to 8192.
fn light_hasher() -> Poseidon {
    let standard = default_hasher();
    let full_rounds = 2;
    let partial_rounds = 1;
    let hasher = Poseidon {
        width: standard.width,
        full_rounds,
        partial_rounds,
        round_keys: standard.round_keys[..standard.width * (full_rounds + partial_rounds)].to_vec(),
        mds_matrix: standard.mds_matrix.clone(),
    };
    assert!(hasher.is_well_formed());
    hasher
}

struct Deposit {
    secret: FieldElement,
    seed: FieldElement,
    leaf: FieldElement,
}

fn generate_secrets(hasher: &Poseidon) -> Deposit {
    let secret = random_element();
    let seed = random_element();
    let leaf = leaf_of(hasher, secret, seed);
    Deposit { secret, seed, leaf }
}

fn blindings(depth: usize) -> Vec<FieldElement> {
    (0..3 + 2 * depth).map(|_| random_element()).collect()
}

fn tree_with(hasher: &Poseidon, depth: usize, leaves: Vec<FieldElement>) -> MerkleAccumulator {
    let mut tree = MerkleAccumulator::new(hasher.clone(), depth).unwrap();
    assert_eq!(tree.append(leaves), Ok(()));
    tree
}

fn generators_for(hasher: &Poseidon, depth: usize) -> Generators {
    let gates = membership_gate_count(hasher, depth).unwrap();
    Generators::new(gates.next_power_of_two())
}

fn verify(
    tree: &MerkleAccumulator,
    gens: &Generators,
    root: FieldElement,
    proof: &MembershipProof,
) -> Result<(), VerificationError> {
    verify_zk(
        tree.hasher(),
        gens,
        LABEL,
        tree.depth(),
        &root,
        &proof.comms,
        &proof.nullifier_hash,
        &proof.proof,
        &proof.leaf_index_comms,
        &proof.proof_comms,
    )
}

struct Setup {
    tree: MerkleAccumulator,
    gens: Generators,
    root: FieldElement,
    proof: MembershipProof,
}

/// A tree of the given depth with one deposit, and a proof for it.
fn one_deposit(hasher: &Poseidon, depth: usize, label: &'static [u8]) -> Setup {
    let deposit = generate_secrets(hasher);
    let tree = tree_with(hasher, depth, vec![deposit.leaf]);
    let gens = generators_for(hasher, depth);
    let root = tree.root();
    let proof = prove_zk(
        &tree,
        &gens,
        label,
        0,
        deposit.secret,
        deposit.seed,
        &blindings(depth),
    )
    .unwrap();
    Setup { tree, gens, root, proof }
}

#[test]
fn should_verify_simple_zk_proof_of_membership() {
    let h = default_hasher();
    let s = one_deposit(&h, 1, LABEL);
    assert_eq!(s.proof.comms.len(), 3);
    assert_eq!(s.proof.leaf_index_comms.len(), 1);
    assert_eq!(s.proof.proof_comms.len(), 1);
    assert_eq!(verify(&s.tree, &s.gens, s.root, &s.proof), Ok(()));
}

#[test]
fn should_not_verify_invalid_commitments_for_leaf_creation() {
    let h = default_hasher();
    let mut s = one_deposit(&h, 1, LABEL);
    s.proof.comms[0] = random_commitment();
    assert_eq!(
        verify(&s.tree, &s.gens, s.root, &s.proof),
        Err(VerificationError::ZkVerificationFailed)
    );
}

#[test]
fn should_not_verify_invalid_private_inputs() {
    let h = default_hasher();
    let mut s = one_deposit(&h, 1, LABEL);
    s.proof.comms.push(random_commitment());
    assert_eq!(
        verify(&s.tree, &s.gens, s.root, &s.proof),
        Err(VerificationError::InvalidPrivateInputs)
    );
}

#[test]
fn should_not_verify_invalid_path_commitments_for_membership() {
    let h = default_hasher();
    let mut s = one_deposit(&h, 1, LABEL);
    s.proof.leaf_index_comms[0] = random_commitment();
    s.proof.proof_comms[0] = random_commitment();
    assert_eq!(
        verify(&s.tree, &s.gens, s.root, &s.proof),
        Err(VerificationError::ZkVerificationFailed)
    );
}

#[test]
fn should_not_verify_invalid_transcript() {
    let h = default_hasher();
    let s = one_deposit(&h, 1, b"zk_membership_proof_invalid");
    assert_eq!(
        verify(&s.tree, &s.gens, s.root, &s.proof),
        Err(VerificationError::ZkVerificationFailed)
    );
}

#[test]
fn should_verify_zk_proof_of_membership() {
    let h = default_hasher();
    let deposits: Vec<Deposit> = (0..7).map(|_| generate_secrets(&h)).collect();
    let keys: Vec<FieldElement> = deposits.iter().map(|d| d.leaf).collect();
    let tree = tree_with(&h, 3, keys);
    let gens = generators_for(&h, 3);
    let root = tree.root();
    let proof = prove_zk(
        &tree,
        &gens,
        LABEL,
        5,
        deposits[5].secret,
        deposits[5].seed,
        &blindings(3),
    )
    .unwrap();
    assert_eq!(verify(&tree, &gens, root, &proof), Ok(()));
}

#[test]
fn should_verify_large_zk_proof_of_membership() {
    let h = light_hasher();
    let s = one_deposit(&h, 32, LABEL);
    assert_eq!(s.proof.leaf_index_comms.len(), 32);
    assert_eq!(verify(&s.tree, &s.gens, s.root, &s.proof), Ok(()));
}

#[test]
fn proof_for_every_position_verifies() {
    let h = light_hasher();
    let deposits: Vec<Deposit> = (0..4).map(|_| generate_secrets(&h)).collect();
    let tree = tree_with(&h, 2, deposits.iter().map(|d| d.leaf).collect());
    let gens = generators_for(&h, 2);
    let root = tree.root();
    for (position, deposit) in deposits.iter().enumerate() {
        let proof = prove_zk(
            &tree,
            &gens,
            LABEL,
            position as u64,
            deposit.secret,
            deposit.seed,
            &blindings(2),
        )
        .unwrap();
        assert_eq!(verify(&tree, &gens, root, &proof), Ok(()));
    }
}

#[test]
fn tampered_root_is_rejected() {
    let h = light_hasher();
    let s = one_deposit(&h, 2, LABEL);
    let other_root = s.root.add(&FieldElement::one());
    assert_eq!(
        verify(&s.tree, &s.gens, other_root, &s.proof),
        Err(VerificationError::ZkVerificationFailed)
    );
    assert_eq!(verify(&s.tree, &s.gens, s.root, &s.proof), Ok(()));
}

#[test]
fn tampered_nullifier_is_rejected() {
    let h = light_hasher();
    let mut s = one_deposit(&h, 2, LABEL);
    s.proof.nullifier_hash = s.proof.nullifier_hash.add(&FieldElement::one());
    assert_eq!(
        verify(&s.tree, &s.gens, s.root, &s.proof),
        Err(VerificationError::ZkVerificationFailed)
    );
}

#[test]
fn proof_with_wrong_secret_is_rejected() {
    let h = light_hasher();
    let deposit = generate_secrets(&h);
    let tree = tree_with(&h, 1, vec![deposit.leaf]);
    let gens = generators_for(&h, 1);
    let proof = prove_zk(&tree, &gens, LABEL, 0, random_element(), deposit.seed, &blindings(1));
    match proof {
        Ok(proof) => assert_eq!(
            verify(&tree, &gens, tree.root(), &proof),
            Err(VerificationError::ZkVerificationFailed)
        ),
        Err(e) => assert_eq!(e, ProvingError::ProvingFailed),
    }
}

#[test]
fn wrong_path_length_is_refused_before_the_proof_is_read() {
    let h = light_hasher();
    let mut s = one_deposit(&h, 2, LABEL);
    s.proof.proof = vec![1, 2, 3];
    s.proof.leaf_index_comms.push(random_commitment());
    assert_eq!(
        verify(&s.tree, &s.gens, s.root, &s.proof),
        Err(VerificationError::InvalidPathLength)
    );
    s.proof.leaf_index_comms.pop();
    s.proof.proof_comms.pop();
    assert_eq!(
        verify(&s.tree, &s.gens, s.root, &s.proof),
        Err(VerificationError::InvalidPathLength)
    );
    s.proof.comms.pop();
    assert_eq!(
        verify(&s.tree, &s.gens, s.root, &s.proof),
        Err(VerificationError::InvalidPrivateInputs)
    );
}

#[test]
fn malformed_proof_bytes_are_refused() {
    let h = light_hasher();
    let mut s = one_deposit(&h, 1, LABEL);
    s.proof.proof = vec![1, 2, 3];
    assert_eq!(
        verify(&s.tree, &s.gens, s.root, &s.proof),
        Err(VerificationError::InvalidZkProof)
    );
    s.proof.proof = Vec::new();
    assert_eq!(
        verify(&s.tree, &s.gens, s.root, &s.proof),
        Err(VerificationError::InvalidZkProof)
    );
}

#[test]
fn proving_refuses_bad_position_and_blindings() {
    let h = light_hasher();
    let deposit = generate_secrets(&h);
    let tree = tree_with(&h, 2, vec![deposit.leaf]);
    let gens = generators_for(&h, 2);
    assert_eq!(
        prove_zk(&tree, &gens, LABEL, 1, deposit.secret, deposit.seed, &blindings(2)).err(),
        Some(ProvingError::InvalidPosition)
    );
    assert_eq!(
        prove_zk(&tree, &gens, LABEL, 1, deposit.secret, deposit.seed, &blindings(1)).err(),
        Some(ProvingError::InvalidPosition)
    );
    assert_eq!(
        prove_zk(&tree, &gens, LABEL, 0, deposit.secret, deposit.seed, &blindings(1)).err(),
        Some(ProvingError::InvalidBlindings)
    );
}

#[test]
fn proving_fails_with_too_few_generators() {
    let h = light_hasher();
    let deposit = generate_secrets(&h);
    let tree = tree_with(&h, 2, vec![deposit.leaf]);
    // 108 gates are padded to 128
    assert_eq!(membership_gate_count(&h, 2), Some(108));
    for capacity in [0, 16, 108, 127] {
        let gens = Generators::new(capacity);
        assert_eq!(
            prove_zk(&tree, &gens, LABEL, 0, deposit.secret, deposit.seed, &blindings(2)).err(),
            Some(ProvingError::ProvingFailed)
        );
    }
    let gens = Generators::new(128);
    assert!(prove_zk(&tree, &gens, LABEL, 0, deposit.secret, deposit.seed, &blindings(2)).is_ok());
}

#[test]
fn gate_counts_follow_the_parameters() {
    let standard = default_hasher();
    assert_eq!(standard.permute_gate_count(), Some(2 * (8 * 6 + 57)));
    assert_eq!(membership_gate_count(&standard, 0), Some(2 * 210));
    assert_eq!(membership_gate_count(&standard, 3), Some(2 * 210 + 3 * 212));
    let light = light_hasher();
    assert_eq!(light.permute_gate_count(), Some(2 * (2 * 6 + 1)));
    assert_eq!(membership_gate_count(&light, 32), Some(2 * 26 + 32 * 28));
}

#[test]
fn nullifiers_of_different_seeds_differ() {
    let h = light_hasher();
    let mut seen: Vec<FieldElement> = Vec::new();
    for _ in 0..40 {
        let seed = random_element();
        let nullifier = nullifier_of(&h, seed);
        assert_eq!(nullifier, h.hash_2(seed, seed));
        assert!(!seen.contains(&nullifier));
        seen.push(nullifier);
    }
    let standard = default_hasher();
    let first = nullifier_of(&standard, FieldElement::from_u64(1));
    let second = nullifier_of(&standard, FieldElement::from_u64(2));
    assert_ne!(first, second);
}

#[test]
fn leaf_is_hash_of_secret_and_seed() {
    let h = default_hasher();
    let secret = FieldElement::from_u64(7);
    let seed = FieldElement::from_u64(11);
    assert_eq!(leaf_of(&h, secret, seed), h.hash_2(secret, seed));
    assert_ne!(leaf_of(&h, secret, seed), leaf_of(&h, seed, secret));
}

#[test]
fn returned_commitments_commit_to_the_inputs_under_the_blindings() {
    let h = light_hasher();
    let first = generate_secrets(&h);
    let second = generate_secrets(&h);
    let tree = tree_with(&h, 1, vec![first.leaf, second.leaf]);
    let gens = generators_for(&h, 1);
    let blind = blindings(1);
    let proof = prove_zk(&tree, &gens, LABEL, 1, second.secret, second.seed, &blind).unwrap();
    let one = FieldElement::from_u64(1);
    assert_eq!(proof.comms[0], gens.commit(&second.secret, &blind[0]));
    assert_eq!(proof.comms[1], gens.commit(&second.seed, &blind[1]));
    assert_eq!(proof.comms[2], gens.commit(&second.leaf, &blind[2]));
    // the second leaf is a right child, its sibling is the first leaf
    assert_eq!(proof.leaf_index_comms[0], gens.commit(&one, &blind[3]));
    assert_eq!(proof.proof_comms[0], gens.commit(&first.leaf, &blind[4]));
    assert_ne!(proof.comms[0], gens.commit(&second.secret, &blind[1]));
    assert_eq!(verify(&tree, &gens, tree.root(), &proof), Ok(()));
}

#[test]
fn bytes_that_do_not_parse_are_malformed_and_others_are_not() {
    let h = light_hasher();
    let mut s = one_deposit(&h, 1, LABEL);
    let good = s.proof.proof.clone();
    // one byte short: no proof has this length
    s.proof.proof = good[..good.len() - 1].to_vec();
    assert_eq!(
        verify(&s.tree, &s.gens, s.root, &s.proof),
        Err(VerificationError::InvalidZkProof)
    );
    s.proof.proof = Vec::new();
    assert_eq!(
        verify(&s.tree, &s.gens, s.root, &s.proof),
        Err(VerificationError::InvalidZkProof)
    );
    // a proof that parses, for another statement
    s.proof.proof = good;
    let other = random_element();
    assert_eq!(
        verify(&s.tree, &s.gens, other, &s.proof),
        Err(VerificationError::ZkVerificationFailed)
    );
}

#[test]
fn verifying_needs_generators_for_the_padded_circuit() {
    let h = light_hasher();
    let s = one_deposit(&h, 1, LABEL);
    let gates = membership_gate_count(&h, 1).unwrap();
    let enough = Generators::new(gates.next_power_of_two());
    assert_eq!(verify(&s.tree, &enough, s.root, &s.proof), Ok(()));
    let short = Generators::new(gates.next_power_of_two() - 1);
    assert_eq!(
        verify(&s.tree, &short, s.root, &s.proof),
        Err(VerificationError::ZkVerificationFailed)
    );
}

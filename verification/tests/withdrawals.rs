use curve25519_dalek::scalar::Scalar;
use poseidon_merkle::field::FieldElement;
use poseidon_merkle::membership::{
    leaf_of, membership_gate_count, prove_zk, MembershipProof, VerificationError,
};
use poseidon_merkle::merkle::MerkleAccumulator;
use poseidon_merkle::mixer::{
    settle_withdrawal, verify_withdrawal, SpentNullifiers, WithdrawalError,
};
use poseidon_merkle::poseidon::{default_hasher, Poseidon};
use poseidon_merkle::r1cs::Generators;
use rand::rngs::OsRng;

const WITHDRAWAL_LABEL: &[u8] = b"zk_membership_proof";

fn fresh_element() -> FieldElement {
    FieldElement::from_bytes_mod_order(Scalar::random(&mut OsRng).to_bytes())
}

/// Parameters with few rounds, so that a proof takes little time.
fn short_hasher() -> Poseidon {
    let standard = default_hasher();
    let hasher = Poseidon {
        width: standard.width,
        full_rounds: 2,
        partial_rounds: 1,
        round_keys: standard.round_keys[..standard.width * 3].to_vec(),
        mds_matrix: standard.mds_matrix.clone(),
    };
    assert!(hasher.is_well_formed());
    hasher
}

struct Withdrawal {
    tree: MerkleAccumulator,
    gens: Generators,
    proof: MembershipProof,
}

/// A tree of depth 2 with two deposits and a proof for the second.
fn withdrawal() -> Withdrawal {
    let h = short_hasher();
    let secret = fresh_element();
    let seed = fresh_element();
    let mut tree = MerkleAccumulator::new(h.clone(), 2).unwrap();
    tree.append(vec![fresh_element(), leaf_of(&h, secret, seed)]).unwrap();
    let gens = Generators::new(membership_gate_count(&h, 2).unwrap().next_power_of_two());
    let blindings: Vec<FieldElement> = (0..7).map(|_| fresh_element()).collect();
    let proof = prove_zk(&tree, &gens, WITHDRAWAL_LABEL, 1, secret, seed, &blindings).unwrap();
    Withdrawal { tree, gens, proof }
}

fn withdraw(
    w: &Withdrawal,
    spent: &mut SpentNullifiers,
    root: [u8; 32],
    nullifier: [u8; 32],
) -> Result<(), WithdrawalError> {
    verify_withdrawal(
        &w.tree,
        spent,
        &w.gens,
        WITHDRAWAL_LABEL,
        &root,
        &w.proof.comms,
        &nullifier,
        &w.proof.proof,
        &w.proof.leaf_index_comms,
        &w.proof.proof_comms,
    )
}

#[test]
fn a_deposit_is_withdrawn_once() {
    let w = withdrawal();
    let root = w.tree.root_bytes();
    let nullifier = w.proof.nullifier_hash.to_bytes();
    let mut spent = SpentNullifiers::new();
    assert_eq!(spent.len(), 0);
    assert!(!spent.contains(&nullifier));
    assert_eq!(withdraw(&w, &mut spent, root, nullifier), Ok(()));
    assert_eq!(spent.len(), 1);
    assert!(spent.contains(&nullifier));
    assert_eq!(
        withdraw(&w, &mut spent, root, nullifier),
        Err(WithdrawalError::AlreadyRevealedNullifier)
    );
    assert_eq!(spent.len(), 1);
}

#[test]
fn a_withdrawal_against_another_root_is_refused_first() {
    let w = withdrawal();
    let nullifier = w.proof.nullifier_hash.to_bytes();
    let mut spent = SpentNullifiers::new();
    let mut root = w.tree.root_bytes();
    root[0] ^= 1;
    assert_eq!(withdraw(&w, &mut spent, root, nullifier), Err(WithdrawalError::UnknownRoot));
    assert_eq!(spent.len(), 0);
    // the root is looked at before the nullifier
    assert!(spent.record(nullifier));
    assert_eq!(withdraw(&w, &mut spent, root, nullifier), Err(WithdrawalError::UnknownRoot));
    assert_eq!(spent.len(), 1);
}

#[test]
fn a_refused_proof_spends_nothing() {
    let w = withdrawal();
    let root = w.tree.root_bytes();
    let mut nullifier = w.proof.nullifier_hash.to_bytes();
    nullifier[0] ^= 1;
    let mut spent = SpentNullifiers::new();
    assert_eq!(
        withdraw(&w, &mut spent, root, nullifier),
        Err(WithdrawalError::Proof(VerificationError::ZkVerificationFailed))
    );
    assert_eq!(spent.len(), 0);
    assert!(!spent.contains(&nullifier));
    // the deposit can still be withdrawn
    assert_eq!(withdraw(&w, &mut spent, root, w.proof.nullifier_hash.to_bytes()), Ok(()));
}

#[test]
fn nullifiers_are_recorded_once() {
    let mut spent = SpentNullifiers::new();
    assert!(spent.record([1u8; 32]));
    assert!(spent.record([2u8; 32]));
    assert!(!spent.record([1u8; 32]));
    assert_eq!(spent.len(), 2);
    assert!(spent.contains(&[2u8; 32]));
    assert!(!spent.contains(&[3u8; 32]));
}

#[test]
fn settling_follows_the_verdict_on_the_proof() {
    let mut spent = SpentNullifiers::new();
    assert_eq!(
        settle_withdrawal(&mut spent, [5u8; 32], Err(VerificationError::InvalidPathLength)),
        Err(WithdrawalError::Proof(VerificationError::InvalidPathLength))
    );
    assert_eq!(spent.len(), 0);
    assert_eq!(settle_withdrawal(&mut spent, [5u8; 32], Ok(())), Ok(()));
    assert!(spent.contains(&[5u8; 32]));
    assert_eq!(
        settle_withdrawal(&mut spent, [5u8; 32], Ok(())),
        Err(WithdrawalError::AlreadyRevealedNullifier)
    );
    assert_eq!(spent.len(), 1);
}

/// The group order, little-endian.
const ORDER: [u8; 32] = [
    0xed, 0xd3, 0xf5, 0x5c, 0x1a, 0x63, 0x12, 0x58, 0xd6, 0x9c, 0xf7, 0xa2, 0xde, 0xf9, 0xde, 0x14,
    0x00, 0x00, 0x00, 0x00, 0x00, 0x00, 0x00, 0x00, 0x00, 0x00, 0x00, 0x00, 0x00, 0x00, 0x00, 0x10,
];

/// The encoding of the number that is greater by the group order.
fn plus_order(bytes: [u8; 32]) -> [u8; 32] {
    let mut out = [0u8; 32];
    let mut carry = 0u16;
    for i in 0..32 {
        let sum = bytes[i] as u16 + ORDER[i] as u16 + carry;
        out[i] = (sum & 0xff) as u8;
        carry = sum >> 8;
    }
    assert_eq!(carry, 0);
    out
}

#[test]
fn a_spent_nullifier_is_refused_under_every_encoding() {
    let w = withdrawal();
    let root = w.tree.root_bytes();
    let nullifier = w.proof.nullifier_hash.to_bytes();
    let other = plus_order(nullifier);
    assert_ne!(other, nullifier);
    assert_eq!(FieldElement::from_bytes_mod_order(other), w.proof.nullifier_hash);
    assert!(FieldElement::from_canonical_bytes(other).is_none());
    let mut spent = SpentNullifiers::new();
    assert_eq!(withdraw(&w, &mut spent, root, nullifier), Ok(()));
    assert!(spent.contains(&other));
    assert_eq!(
        withdraw(&w, &mut spent, root, other),
        Err(WithdrawalError::AlreadyRevealedNullifier)
    );
    assert_eq!(
        withdraw(&w, &mut spent, root, plus_order(other)),
        Err(WithdrawalError::AlreadyRevealedNullifier)
    );
    assert_eq!(spent.len(), 1);
}

#[test]
fn a_nullifier_spent_under_another_encoding_is_spent() {
    let w = withdrawal();
    let root = w.tree.root_bytes();
    let nullifier = w.proof.nullifier_hash.to_bytes();
    let mut spent = SpentNullifiers::new();
    assert_eq!(withdraw(&w, &mut spent, root, plus_order(nullifier)), Ok(()));
    assert!(spent.contains(&nullifier));
    assert_eq!(
        withdraw(&w, &mut spent, root, nullifier),
        Err(WithdrawalError::AlreadyRevealedNullifier)
    );
}

#[test]
fn nullifiers_are_recorded_by_value() {
    let mut spent = SpentNullifiers::new();
    assert!(spent.record([0u8; 32]));
    assert!(spent.contains(&ORDER));
    assert!(!spent.record(ORDER));
    assert!(!spent.record(plus_order(ORDER)));
    assert_eq!(spent.len(), 1);
    let mut one = [0u8; 32];
    one[0] = 1;
    assert!(!spent.contains(&plus_order(one)));
    assert!(spent.record(plus_order(one)));
    assert!(spent.contains(&one));
    assert_eq!(
        settle_withdrawal(&mut spent, one, Ok(())),
        Err(WithdrawalError::AlreadyRevealedNullifier)
    );
    // a root under another encoding is not the root
    let w = withdrawal();
    let mut none = SpentNullifiers::new();
    assert_eq!(
        withdraw(&w, &mut none, plus_order(w.tree.root_bytes()), w.proof.nullifier_hash.to_bytes()),
        Err(WithdrawalError::UnknownRoot)
    );
}

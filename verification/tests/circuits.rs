use poseidon_merkle::circuit::{var_less, LinComb, Variable};
use poseidon_merkle::merge::{code_of, simplify};
use poseidon_merkle::field::FieldElement;
use poseidon_merkle::poseidon::{default_hasher, Poseidon};
use poseidon_merkle::poseidon_gadget::mat_mul_lc;
use poseidon_merkle::r1cs::{judge, Rejection, ConstraintSystem, Generators, ProveError};

const LABEL: &[u8] = b"circuits";

fn el(x: u64) -> FieldElement {
    FieldElement::from_u64(x)
}

fn minus(x: u64) -> FieldElement {
    FieldElement::zero().sub(&el(x))
}

fn lc(terms: Vec<(Variable, u64)>) -> LinComb {
    LinComb { terms: terms.into_iter().map(|(v, c)| (v, el(c))).collect() }
}

fn blinding(seed: u64) -> FieldElement {
    el(seed).mul(&el(0x9e37_79b9_7f4a_7c15)).add(&el(12345))
}

fn light_hasher() -> Poseidon {
    let standard = default_hasher();
    Poseidon {
        width: 6,
        full_rounds: 2,
        partial_rounds: 1,
        round_keys: standard.round_keys[..18].to_vec(),
        mds_matrix: standard.mds_matrix.clone(),
    }
}

#[test]
fn variables_are_ordered_by_kind_then_index() {
    let ordered = [
        Variable::Committed(0),
        Variable::Committed(5),
        Variable::MultiplierLeft(0),
        Variable::MultiplierLeft(9),
        Variable::MultiplierRight(1),
        Variable::MultiplierOutput(0),
        Variable::MultiplierOutput(3),
        Variable::One,
    ];
    for i in 0..ordered.len() {
        for j in 0..ordered.len() {
            assert_eq!(var_less(ordered[i], ordered[j]), i < j);
        }
    }
}

#[test]
fn linear_combinations_are_built_term_by_term() {
    let x = Variable::Committed(0);
    let y = Variable::MultiplierOutput(2);
    assert_eq!(LinComb::zero(), lc(vec![]));
    assert_eq!(LinComb::from_variable(x), lc(vec![(x, 1)]));
    assert_eq!(LinComb::constant(el(9)), lc(vec![(Variable::One, 9)]));
    let sum = lc(vec![(x, 2)]).add(&lc(vec![(y, 3), (x, 4)]));
    assert_eq!(sum, lc(vec![(x, 2), (y, 3), (x, 4)]));
    assert_eq!(sum.duplicate(), sum);
    assert_eq!(sum.scale(&el(5)), lc(vec![(x, 10), (y, 15), (x, 20)]));
    let difference = lc(vec![(x, 2)]).sub(&lc(vec![(y, 3), (Variable::One, 0)]));
    assert_eq!(
        difference,
        LinComb { terms: vec![(x, el(2)), (y, minus(3)), (Variable::One, el(0))] }
    );
}

#[test]
fn variables_are_numbered_in_their_order() {
    let kind: u128 = 1 << 64;
    assert_eq!(code_of(Variable::Committed(0)), 0);
    assert_eq!(code_of(Variable::Committed(5)), 5);
    assert_eq!(code_of(Variable::Committed(usize::MAX)), usize::MAX as u128);
    assert_eq!(code_of(Variable::MultiplierLeft(0)), kind);
    assert_eq!(code_of(Variable::MultiplierRight(7)), 2 * kind + 7);
    assert_eq!(code_of(Variable::MultiplierOutput(1)), 3 * kind + 1);
    assert_eq!(code_of(Variable::One), 4 * kind);
    let some = [
        Variable::One,
        Variable::Committed(3),
        Variable::MultiplierOutput(0),
        Variable::MultiplierLeft(usize::MAX),
        Variable::MultiplierRight(0),
    ];
    for a in some {
        for b in some {
            assert_eq!(code_of(a) < code_of(b), var_less(a, b));
        }
    }
}

#[test]
fn simplify_merges_by_variable_in_order() {
    let c0 = Variable::Committed(0);
    let c1 = Variable::Committed(1);
    let l1 = Variable::MultiplierLeft(1);
    let terms = lc(vec![(l1, 3), (c1, 2), (Variable::One, 1), (c0, 5), (l1, 1), (c1, 7)]);
    assert_eq!(simplify(terms), lc(vec![(c0, 5), (c1, 9), (l1, 4), (Variable::One, 1)]));
    assert_eq!(simplify(lc(vec![])), lc(vec![]));
    assert_eq!(simplify(lc(vec![(c0, 5)])), lc(vec![(c0, 5)]));
    // a coefficient that sums to zero stays
    let cancelling = LinComb { terms: vec![(c0, el(5)), (c0, minus(5))] };
    assert_eq!(simplify(cancelling), lc(vec![(c0, 0)]));
    let sorted = lc(vec![(c0, 1), (c1, 2), (l1, 3)]);
    assert_eq!(simplify(sorted.duplicate()), sorted);
    let reversed = lc(vec![(Variable::One, 4), (l1, 3), (c1, 2), (c0, 1)]);
    assert_eq!(simplify(reversed), lc(vec![(c0, 1), (c1, 2), (l1, 3), (Variable::One, 4)]));
}

#[test]
fn matrix_times_linear_combinations() {
    let x = Variable::Committed(0);
    let y = Variable::Committed(1);
    let m = vec![vec![el(1), el(2)], vec![el(3), el(4)]];
    let words = vec![lc(vec![(x, 1)]), lc(vec![(y, 1), (x, 10)])];
    assert_eq!(
        mat_mul_lc(&m, words),
        vec![lc(vec![(x, 21), (y, 2)]), lc(vec![(x, 43), (y, 4)])]
    );
}

#[test]
fn constraint_system_numbers_its_variables() {
    let gens = Generators::new(8);
    let mut cs = ConstraintSystem::new_prover(&gens, LABEL);
    let (_, x) = cs.commit_value(&el(3), &blinding(1));
    let (_, y) = cs.commit_value(&el(4), &blinding(2));
    assert_eq!(x, Variable::Committed(0));
    assert_eq!(y, Variable::Committed(1));
    let first = cs.multiply(&LinComb::from_variable(x), &LinComb::from_variable(y));
    assert_eq!(
        first,
        (Variable::MultiplierLeft(0), Variable::MultiplierRight(0), Variable::MultiplierOutput(0))
    );
    let second = cs.multiply(&LinComb::from_variable(first.2), &LinComb::from_variable(x));
    assert_eq!(
        second,
        (Variable::MultiplierLeft(1), Variable::MultiplierRight(1), Variable::MultiplierOutput(1))
    );

    let mut verifier = ConstraintSystem::new_verifier(LABEL);
    let commitment = gens.commit(&el(3), &blinding(1));
    assert_eq!(verifier.commit_point(&commitment), Variable::Committed(0));
    assert_eq!(verifier.commit_point(&commitment), Variable::Committed(1));
    let gate = verifier.multiply(&LinComb::from_variable(x), &LinComb::from_variable(y));
    assert_eq!(gate, first);
}

/// Proves x * y = z for committed x, y, z and checks the proof.
fn product_proof(x: u64, y: u64, z: u64) -> Result<(), Rejection> {
    let gens = Generators::new(8);
    let mut prover = ConstraintSystem::new_prover(&gens, LABEL);
    let (cx, vx) = prover.commit_value(&el(x), &blinding(1));
    let (cy, vy) = prover.commit_value(&el(y), &blinding(2));
    let (cz, vz) = prover.commit_value(&el(z), &blinding(3));
    let (_, _, out) = prover.multiply(&LinComb::from_variable(vx), &LinComb::from_variable(vy));
    prover.constrain(&LinComb::from_variable(out).sub(&LinComb::from_variable(vz)));
    let proof = prover.prove(&gens).unwrap();

    let mut verifier = ConstraintSystem::new_verifier(LABEL);
    let vx = verifier.commit_point(&cx);
    let vy = verifier.commit_point(&cy);
    let vz = verifier.commit_point(&cz);
    let (_, _, out) = verifier.multiply(&LinComb::from_variable(vx), &LinComb::from_variable(vy));
    verifier.constrain(&LinComb::from_variable(out).sub(&LinComb::from_variable(vz)));
    verifier.verify_proof(&proof, &gens)
}

#[test]
fn proof_of_a_product_is_accepted_only_if_it_holds() {
    assert_eq!(product_proof(3, 4, 12), Ok(()));
    assert_eq!(product_proof(3, 4, 13), Err(Rejection::Rejected));
    assert_eq!(product_proof(0, 4, 0), Ok(()));
}

#[test]
fn commitments_are_those_of_the_generators() {
    let gens = Generators::new(8);
    let mut prover = ConstraintSystem::new_prover(&gens, LABEL);
    let (commitment, _) = prover.commit_value(&el(3), &blinding(1));
    assert_eq!(commitment, gens.commit(&el(3), &blinding(1)));
    assert_ne!(commitment, gens.commit(&el(4), &blinding(1)));
    assert_ne!(commitment, gens.commit(&el(3), &blinding(2)));
}

#[test]
fn commitments_are_pedersen_commitments() {
    let scalar = |x: &FieldElement| curve25519_dalek_ng::scalar::Scalar::from_bytes_mod_order(x.to_bytes());
    let pedersen = bulletproofs::PedersenGens::default();
    let gens = Generators::new(8);
    let (value, factor) = (el(42), blinding(5));
    let expected = pedersen.commit(scalar(&value), scalar(&factor)).compress().to_bytes();
    assert_eq!(gens.commit(&value, &factor), expected);
    assert_ne!(gens.commit(&value, &factor), value.to_bytes());
    assert_ne!(gens.commit(&value, &factor), factor.to_bytes());
    // the capacity does not matter
    assert_eq!(Generators::new(0).commit(&value, &factor), expected);
    // nothing committed under no blinding is the identity of the group
    assert_eq!(gens.commit(&el(0), &el(0)), [0u8; 32]);
    // one under no blinding is the base point
    let base_point: [u8; 32] = [
        0xe2, 0xf2, 0xae, 0x0a, 0x6a, 0xbc, 0x4e, 0x71, 0xa8, 0x84, 0xa9, 0x61, 0xc5, 0x00, 0x51,
        0x5f, 0x58, 0xe3, 0x0b, 0x6a, 0xa5, 0x82, 0xdd, 0x8d, 0xb6, 0xa6, 0x59, 0x45, 0xe0, 0x8d,
        0x2d, 0x76,
    ];
    assert_eq!(gens.commit(&el(1), &el(0)), base_point);
    assert_eq!(gens.commit(&el(0), &el(1)), pedersen.B_blinding.compress().to_bytes());
}

#[test]
fn roles_are_kept_apart() {
    let gens = Generators::new(8);
    let prover = ConstraintSystem::new_prover(&gens, LABEL);
    assert_eq!(prover.verify_proof(&[1, 2, 3], &gens), Err(Rejection::NotAVerifier));
    let verifier = ConstraintSystem::new_verifier(LABEL);
    assert_eq!(verifier.prove(&gens).err(), Some(ProveError::NotAProver));
    let verifier = ConstraintSystem::new_verifier(LABEL);
    assert_eq!(verifier.verify_proof(&[1, 2, 3], &gens), Err(Rejection::Malformed));
}

#[test]
fn proving_needs_generators_for_the_padded_circuit() {
    // three gates are padded to four
    for (capacity, possible) in [(0, false), (3, false), (4, true), (8, true)] {
        let gens = Generators::new(capacity);
        let mut prover = ConstraintSystem::new_prover(&gens, LABEL);
        let (_, x) = prover.commit_value(&el(3), &blinding(1));
        let x = LinComb::from_variable(x);
        prover.multiply(&x, &x);
        prover.multiply(&x, &x);
        prover.multiply(&x, &x);
        assert_eq!(prover.prove(&gens).is_ok(), possible);
    }
    // a circuit without gates is padded to one
    let gens = Generators::new(0);
    assert_eq!(
        ConstraintSystem::new_prover(&gens, LABEL).prove(&gens).err(),
        Some(ProveError::ProvingFailed)
    );
    let gens = Generators::new(1);
    assert!(ConstraintSystem::new_prover(&gens, LABEL).prove(&gens).is_ok());
}

#[test]
fn verdicts() {
    assert_eq!(judge(true, true), Ok(()));
    assert_eq!(judge(true, false), Err(Rejection::Rejected));
    assert_eq!(judge(false, false), Err(Rejection::Malformed));
    assert_eq!(judge(false, true), Err(Rejection::Malformed));
}

/// Proves that a committed value is the hash of two committed values.
fn hash_proof(h: &Poseidon, a: u64, b: u64, claimed: FieldElement) -> Result<(), Rejection> {
    let gates = h.permute_gate_count().unwrap();
    let gens = Generators::new(gates.next_power_of_two());
    let mut prover = ConstraintSystem::new_prover(&gens, LABEL);
    let (ca, va) = prover.commit_value(&el(a), &blinding(1));
    let (cb, vb) = prover.commit_value(&el(b), &blinding(2));
    let (cc, vc) = prover.commit_value(&claimed, &blinding(3));
    let out = h.constrain_prover(&mut prover, LinComb::from_variable(va), LinComb::from_variable(vb));
    prover.constrain(&out.sub(&LinComb::from_variable(vc)));
    let proof = prover.prove(&gens).unwrap();

    let mut verifier = ConstraintSystem::new_verifier(LABEL);
    let va = verifier.commit_point(&ca);
    let vb = verifier.commit_point(&cb);
    let vc = verifier.commit_point(&cc);
    let out = h.constrain_verifier(
        &mut verifier,
        &gens,
        LinComb::from_variable(va),
        LinComb::from_variable(vb),
    );
    verifier.constrain(&out.sub(&LinComb::from_variable(vc)));
    verifier.verify_proof(&proof, &gens)
}

#[test]
fn hash_circuit_computes_the_hash() {
    let h = light_hasher();
    let hash = h.hash_2(el(3), el(4));
    assert_eq!(hash_proof(&h, 3, 4, hash), Ok(()));
    assert_eq!(hash_proof(&h, 4, 3, hash), Err(Rejection::Rejected));
    assert_eq!(hash_proof(&h, 3, 4, hash.add(&el(1))), Err(Rejection::Rejected));
}

#[test]
fn sbox_circuit_takes_two_gates() {
    let h = light_hasher();
    let gens = Generators::new(8);
    let mut cs = ConstraintSystem::new_prover(&gens, LABEL);
    let (_, x) = cs.commit_value(&el(3), &blinding(1));
    let cube = h.synthesize_sbox(&mut cs, LinComb::from_variable(x));
    assert_eq!(cube, LinComb::from_variable(Variable::MultiplierOutput(1)));
    let next = h.synthesize_sbox(&mut cs, cube);
    assert_eq!(next, LinComb::from_variable(Variable::MultiplierOutput(3)));
}

#[test]
fn hash_inputs_commit_four_constants() {
    let gens = Generators::new(8);
    let mut cs = ConstraintSystem::new_prover(&gens, LABEL);
    let (_, x) = cs.commit_value(&el(3), &blinding(1));
    let xl = LinComb::from_variable(x);
    let xr = lc(vec![(x, 2)]);
    let inputs = Poseidon::prover_constrain_inputs(&mut cs, xl.duplicate(), xr.duplicate());
    let c = |i| LinComb::from_variable(Variable::Committed(i));
    assert_eq!(inputs, vec![c(1), xl.duplicate(), xr.duplicate(), c(2), c(3), c(4)]);

    let mut verifier = ConstraintSystem::new_verifier(LABEL);
    let commitment = gens.commit(&el(3), &blinding(1));
    verifier.commit_point(&commitment);
    let again = Poseidon::verifier_constrain_inputs(&mut verifier, &gens, xl, xr);
    assert_eq!(again, inputs);
}

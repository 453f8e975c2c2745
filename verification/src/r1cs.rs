//! The constraint systems of the `bulletproofs` crate, as this library sees
//! them.
//!
//! A prover and a verifier each collect committed variables, multiplication
//! gates and linear constraints; the prover also holds the values of its
//! variables. Both live in the outside crate. What they hold is referred to
//! by name, and the functions here state how each call changes it.

use crate::circuit::{
    eval, terms_in_range, Assignment, LinComb, Term, Variable,
};
use crate::field::{field_mul, group_order, FieldElement};
use vstd::prelude::*;

verus! {

#[verifier::external_type_specification]
#[verifier::external_body]
pub struct ExPedersenGens(bulletproofs::PedersenGens);

#[verifier::external_type_specification]
#[verifier::external_body]
pub struct ExBulletproofGens(bulletproofs::BulletproofGens);

#[verifier::external_type_specification]
#[verifier::external_body]
pub struct ExR1CSProof(bulletproofs::r1cs::R1CSProof);

#[verifier::external_type_specification]
#[verifier::external_body]
pub struct ExR1CSError(bulletproofs::r1cs::R1CSError);

#[verifier::external_type_specification]
#[verifier::external_body]
pub struct ExLinearCombination(bulletproofs::r1cs::LinearCombination);

/// A prover of the outside crate, over a transcript of its own.
#[verifier::external_body]
pub struct ProverSystem<'g> {
    inner: bulletproofs::r1cs::Prover<'g, merlin::Transcript>,
}

/// A verifier of the outside crate, over a transcript of its own.
#[verifier::external_body]
pub struct VerifierSystem {
    inner: bulletproofs::r1cs::Verifier<merlin::Transcript>,
}

/// The terms that a linear combination of the outside crate holds, in order.
pub uninterp spec fn r1cs_terms(lc: bulletproofs::r1cs::LinearCombination) -> Seq<Term>;

/// The values that a prover has committed to, in order.
pub uninterp spec fn prover_committed(prover: ProverSystem) -> Seq<nat>;

/// The blinding factors under which a prover has committed to its values,
/// in order.
pub uninterp spec fn prover_blindings(prover: ProverSystem) -> Seq<nat>;

/// The left, right and output value of each multiplication gate of a
/// prover, in order.
pub uninterp spec fn prover_gates(prover: ProverSystem) -> Seq<(nat, nat, nat)>;

/// The linear combinations that a prover constrains to zero, in order.
pub uninterp spec fn prover_constraints(prover: ProverSystem) -> Seq<Seq<Term>>;

/// The commitments that a verifier has been given, in order.
pub uninterp spec fn verifier_committed(verifier: VerifierSystem) -> Seq<Seq<u8>>;

/// The number of multiplication gates of a verifier.
pub uninterp spec fn verifier_gates(verifier: VerifierSystem) -> nat;

/// The linear combinations that a verifier constrains to zero, in order.
pub uninterp spec fn verifier_constraints(verifier: VerifierSystem) -> Seq<Seq<Term>>;

/// The encoding of the Pedersen commitment to `value` under the blinding
/// factor `blinding`, with the default Pedersen generators of the outside
/// crate: `value` times the base point plus `blinding` times the blinding
/// base.
pub uninterp spec fn pedersen_commitment(value: nat, blinding: nat) -> Seq<u8>;

/// Whether Pedersen generators are the default ones of the outside crate.
pub uninterp spec fn pedersen_is_default(gens: bulletproofs::PedersenGens) -> bool;

/// Whether a byte string is the encoding of a proof: whether
/// `R1CSProof::from_bytes` accepts it.
pub uninterp spec fn proof_parses(bytes: Seq<u8>) -> bool;

/// The number of generators that Bulletproofs generators were made with.
pub uninterp spec fn bulletproof_capacity(gens: bulletproofs::BulletproofGens) -> nat;

/// The number of gates to which a circuit of `gates` gates is padded for a
/// proof: the least power of two that is not below it.
pub open spec fn padded_gates(gates: nat) -> nat
    decreases gates,
{
    if gates <= 1 {
        1
    } else {
        2 * padded_gates((gates + 1) / 2)
    }
}

/// Padding does not double a circuit: a circuit of two or more gates is
/// padded to fewer than twice its gates, a smaller one to one gate.
pub proof fn lemma_padded_gates_bound(gates: nat)
    ensures
        gates <= padded_gates(gates),
        gates >= 2 ==> padded_gates(gates) <= 2 * gates - 2,
        gates <= 1 ==> padded_gates(gates) == 1,
    decreases gates,
{
    if gates >= 2 {
        lemma_padded_gates_bound((gates + 1) / 2);
    }
}

/// The coefficient -1.
pub open spec fn minus_one() -> nat {
    (group_order() - 1) as nat
}

/// The commitments that a prover has made: to each committed value under
/// its blinding factor.
pub open spec fn prover_commitments(prover: ProverSystem) -> Seq<Seq<u8>> {
    Seq::new(
        prover_committed(prover).len(),
        |i: int| pedersen_commitment(prover_committed(prover)[i], prover_blindings(prover)[i]),
    )
}

/// The values of a prover's variables.
pub open spec fn prover_witness(prover: ProverSystem) -> Assignment {
    Assignment {
        committed: prover_committed(prover),
        left: prover_gates(prover).map_values(|g: (nat, nat, nat)| g.0),
        right: prover_gates(prover).map_values(|g: (nat, nat, nat)| g.1),
        output: prover_gates(prover).map_values(|g: (nat, nat, nat)| g.2),
    }
}

/// The two constraints that a multiplication gate adds: its left input
/// minus its left variable, and its right input minus its right variable.
pub open spec fn gate_constraints(
    constraints: Seq<Seq<Term>>,
    gate: usize,
    left: Seq<Term>,
    right: Seq<Term>,
) -> Seq<Seq<Term>> {
    constraints.push(left.push((Variable::MultiplierLeft(gate), minus_one()))).push(
        right.push((Variable::MultiplierRight(gate), minus_one())),
    )
}

/// `LinearCombination::from_iter`: the linear combination of the outside
/// crate with the same terms, in the same order.
#[verifier::external_body]
fn to_r1cs(lc: &LinComb) -> (r: bulletproofs::r1cs::LinearCombination)
    ensures
        r1cs_terms(r) == lc@,
{
    lc.terms.iter().map(
        |t| (
            match t.0 {
                Variable::Committed(i) => bulletproofs::r1cs::Variable::Committed(i),
                Variable::MultiplierLeft(i) => bulletproofs::r1cs::Variable::MultiplierLeft(i),
                Variable::MultiplierRight(i) => bulletproofs::r1cs::Variable::MultiplierRight(i),
                Variable::MultiplierOutput(i) => bulletproofs::r1cs::Variable::MultiplierOutput(i),
                Variable::One => bulletproofs::r1cs::Variable::One(),
            },
            curve25519_dalek_ng::scalar::Scalar::from_bytes_mod_order(t.1.to_bytes()),
        ),
    ).collect()
}

/// `PedersenGens::default`.
#[verifier::external_body]
fn pedersen_gens_default() -> (r: bulletproofs::PedersenGens)
    ensures
        pedersen_is_default(r),
{
    bulletproofs::PedersenGens::default()
}

/// `BulletproofGens::new` for one party, with `gens_capacity` generators.
#[verifier::external_body]
fn bulletproof_gens_new(gens_capacity: usize) -> (r: bulletproofs::BulletproofGens)
    ensures
        bulletproof_capacity(r) == gens_capacity,
{
    bulletproofs::BulletproofGens::new(gens_capacity, 1)
}

/// `PedersenGens::commit` on the default generators, compressed: the
/// encoding of the commitment to `value` under the blinding factor
/// `blinding`. The default generators are fixed points of the group, so the
/// commitment depends on the two scalars alone.
#[verifier::external_body]
fn pedersen_commit(value: &FieldElement, blinding: &FieldElement) -> (r: [u8; 32])
    ensures
        r@ == pedersen_commitment(value@, blinding@),
{
    bulletproofs::PedersenGens::default().commit(
        curve25519_dalek_ng::scalar::Scalar::from_bytes_mod_order(value.to_bytes()),
        curve25519_dalek_ng::scalar::Scalar::from_bytes_mod_order(blinding.to_bytes()),
    ).compress().to_bytes()
}

/// `Prover::new` on a new transcript with the given label: a prover that
/// holds nothing. Provers are made here only, and on the default Pedersen
/// generators only.
#[verifier::external_body]
fn prover_new<'g>(gens: &'g bulletproofs::PedersenGens, label: &'static [u8]) -> (r: ProverSystem<
    'g,
>)
    requires
        pedersen_is_default(*gens),
    ensures
        prover_committed(r).len() == 0,
        prover_blindings(r).len() == 0,
        prover_gates(r).len() == 0,
        prover_constraints(r).len() == 0,
{
    ProverSystem { inner: bulletproofs::r1cs::Prover::new(gens, merlin::Transcript::new(label)) }
}

/// `Prover::commit`: adds a committed variable with the given value, and
/// returns the commitment and the index of the variable. The commitment is
/// made with the generators of the prover, which are the default ones.
#[verifier::external_body]
fn prover_commit(prover: &mut ProverSystem, value: &FieldElement, blinding: &FieldElement) -> (r: (
    [u8; 32],
    usize,
))
    ensures
        r.0@ == pedersen_commitment(value@, blinding@),
        r.1 == prover_committed(*old(prover)).len(),
        prover_committed(*final(prover)) == prover_committed(*old(prover)).push(value@),
        prover_blindings(*final(prover)) == prover_blindings(*old(prover)).push(blinding@),
        prover_gates(*final(prover)) == prover_gates(*old(prover)),
        prover_constraints(*final(prover)) == prover_constraints(*old(prover)),
{
    let (point, variable) = prover.inner.commit(
        curve25519_dalek_ng::scalar::Scalar::from_bytes_mod_order(value.to_bytes()),
        curve25519_dalek_ng::scalar::Scalar::from_bytes_mod_order(blinding.to_bytes()),
    );
    match variable {
        bulletproofs::r1cs::Variable::Committed(i) => (point.to_bytes(), i),
        bulletproofs::r1cs::Variable::MultiplierLeft(i) => (point.to_bytes(), i),
        bulletproofs::r1cs::Variable::MultiplierRight(i) => (point.to_bytes(), i),
        bulletproofs::r1cs::Variable::MultiplierOutput(i) => (point.to_bytes(), i),
        bulletproofs::r1cs::Variable::One() => (point.to_bytes(), 0),
    }
}

/// `Prover::multiply`: adds a multiplication gate whose inputs are the
/// values of `left` and `right` and whose output is their product, and
/// constrains the inputs to the new left and right variables. Returns the
/// index of the new gate: the number of gates before the call. The prover
/// looks up the value of every variable of `left` and `right`, so they must
/// exist.
#[verifier::external_body]
fn prover_multiply(
    prover: &mut ProverSystem,
    left: bulletproofs::r1cs::LinearCombination,
    right: bulletproofs::r1cs::LinearCombination,
) -> (gate: usize)
    requires
        prover_gates(*old(prover)).len() < usize::MAX,
        terms_in_range(
            r1cs_terms(left),
            prover_committed(*old(prover)).len(),
            prover_gates(*old(prover)).len(),
        ),
        terms_in_range(
            r1cs_terms(right),
            prover_committed(*old(prover)).len(),
            prover_gates(*old(prover)).len(),
        ),
    ensures
        gate == prover_gates(*old(prover)).len(),
        prover_committed(*final(prover)) == prover_committed(*old(prover)),
        prover_blindings(*final(prover)) == prover_blindings(*old(prover)),
        prover_gates(*final(prover)) == prover_gates(*old(prover)).push(
            (
                eval(prover_witness(*old(prover)), r1cs_terms(left)),
                eval(prover_witness(*old(prover)), r1cs_terms(right)),
                field_mul(
                    eval(prover_witness(*old(prover)), r1cs_terms(left)),
                    eval(prover_witness(*old(prover)), r1cs_terms(right)),
                ),
            ),
        ),
        prover_constraints(*final(prover)) == gate_constraints(
            prover_constraints(*old(prover)),
            gate,
            r1cs_terms(left),
            r1cs_terms(right),
        ),
{
    match bulletproofs::r1cs::ConstraintSystem::multiply(&mut prover.inner, left, right).0 {
        bulletproofs::r1cs::Variable::Committed(i) => i,
        bulletproofs::r1cs::Variable::MultiplierLeft(i) => i,
        bulletproofs::r1cs::Variable::MultiplierRight(i) => i,
        bulletproofs::r1cs::Variable::MultiplierOutput(i) => i,
        bulletproofs::r1cs::Variable::One() => 0,
    }
}

/// `Prover::constrain`: adds the constraint that `lc` is zero.
#[verifier::external_body]
fn prover_constrain(prover: &mut ProverSystem, lc: bulletproofs::r1cs::LinearCombination)
    ensures
        prover_committed(*final(prover)) == prover_committed(*old(prover)),
        prover_blindings(*final(prover)) == prover_blindings(*old(prover)),
        prover_gates(*final(prover)) == prover_gates(*old(prover)),
        prover_constraints(*final(prover)) == prover_constraints(*old(prover)).push(
            r1cs_terms(lc),
        ),
{
    bulletproofs::r1cs::ConstraintSystem::constrain(&mut prover.inner, lc)
}

/// `Prover::prove`, serialised with `R1CSProof::to_bytes`. The prover
/// pads the circuit to a power of two and fails exactly if there are fewer
/// generators than that. The proof depends on random choices, so of its
/// bytes only this is stated: `R1CSProof::from_bytes` reads them back,
/// which it does for every proof of fewer than 32 folding rounds, that is
/// of fewer than 2^32 gates after padding. Every constraint must speak of
/// variables that exist, and the padded number of gates must fit a machine
/// word.
#[verifier::external_body]
fn prover_prove(prover: ProverSystem, gens: &bulletproofs::BulletproofGens) -> (r: Result<
    Vec<u8>,
    bulletproofs::r1cs::R1CSError,
>)
    requires
        2 * prover_gates(prover).len() <= usize::MAX,
        forall|k: int|
            0 <= k < prover_constraints(prover).len() ==> terms_in_range(
                #[trigger] prover_constraints(prover)[k],
                prover_committed(prover).len(),
                prover_gates(prover).len(),
            ),
    ensures
        r.is_ok() <==> padded_gates(prover_gates(prover).len()) <= bulletproof_capacity(*gens),
        r matches Ok(bytes) ==> (padded_gates(prover_gates(prover).len()) < 0x1_0000_0000
            ==> proof_parses(bytes@)),
{
    prover.inner.prove(gens).map(|proof| proof.to_bytes())
}

/// `Verifier::new` on a new transcript with the given label: a verifier
/// that holds nothing.
#[verifier::external_body]
fn verifier_new(label: &'static [u8]) -> (r: VerifierSystem)
    ensures
        verifier_committed(r).len() == 0,
        verifier_gates(r) == 0,
        verifier_constraints(r).len() == 0,
{
    VerifierSystem { inner: bulletproofs::r1cs::Verifier::new(merlin::Transcript::new(label)) }
}

/// `Verifier::commit`: adds a committed variable for the given commitment
/// and returns its index.
#[verifier::external_body]
fn verifier_commit(verifier: &mut VerifierSystem, commitment: &[u8; 32]) -> (index: usize)
    ensures
        index == verifier_committed(*old(verifier)).len(),
        verifier_committed(*final(verifier)) == verifier_committed(*old(verifier)).push(
            commitment@,
        ),
        verifier_gates(*final(verifier)) == verifier_gates(*old(verifier)),
        verifier_constraints(*final(verifier)) == verifier_constraints(*old(verifier)),
{
    let point = curve25519_dalek_ng::ristretto::CompressedRistretto(*commitment);
    match verifier.inner.commit(point) {
        bulletproofs::r1cs::Variable::Committed(i) => i,
        bulletproofs::r1cs::Variable::MultiplierLeft(i) => i,
        bulletproofs::r1cs::Variable::MultiplierRight(i) => i,
        bulletproofs::r1cs::Variable::MultiplierOutput(i) => i,
        bulletproofs::r1cs::Variable::One() => 0,
    }
}

/// `Verifier::multiply`: adds a multiplication gate and constrains `left`
/// and `right` to its left and right variables. Returns the index of the
/// new gate: the number of gates before the call.
#[verifier::external_body]
fn verifier_multiply(
    verifier: &mut VerifierSystem,
    left: bulletproofs::r1cs::LinearCombination,
    right: bulletproofs::r1cs::LinearCombination,
) -> (gate: usize)
    requires
        verifier_gates(*old(verifier)) < usize::MAX,
    ensures
        gate == verifier_gates(*old(verifier)),
        verifier_committed(*final(verifier)) == verifier_committed(*old(verifier)),
        verifier_gates(*final(verifier)) == verifier_gates(*old(verifier)) + 1,
        verifier_constraints(*final(verifier)) == gate_constraints(
            verifier_constraints(*old(verifier)),
            gate,
            r1cs_terms(left),
            r1cs_terms(right),
        ),
{
    match bulletproofs::r1cs::ConstraintSystem::multiply(&mut verifier.inner, left, right).0 {
        bulletproofs::r1cs::Variable::Committed(i) => i,
        bulletproofs::r1cs::Variable::MultiplierLeft(i) => i,
        bulletproofs::r1cs::Variable::MultiplierRight(i) => i,
        bulletproofs::r1cs::Variable::MultiplierOutput(i) => i,
        bulletproofs::r1cs::Variable::One() => 0,
    }
}

/// `Verifier::constrain`: adds the constraint that `lc` is zero.
#[verifier::external_body]
fn verifier_constrain(verifier: &mut VerifierSystem, lc: bulletproofs::r1cs::LinearCombination)
    ensures
        verifier_committed(*final(verifier)) == verifier_committed(*old(verifier)),
        verifier_gates(*final(verifier)) == verifier_gates(*old(verifier)),
        verifier_constraints(*final(verifier)) == verifier_constraints(*old(verifier)).push(
            r1cs_terms(lc),
        ),
{
    bulletproofs::r1cs::ConstraintSystem::constrain(&mut verifier.inner, lc)
}

/// `R1CSProof::from_bytes`: the proof that the bytes encode, or an error
/// when they encode none.
#[verifier::external_body]
fn proof_from_bytes(bytes: &[u8]) -> (r: Result<
    bulletproofs::r1cs::R1CSProof,
    bulletproofs::r1cs::R1CSError,
>)
    ensures
        r.is_ok() == proof_parses(bytes@),
{
    bulletproofs::r1cs::R1CSProof::from_bytes(bytes)
}

/// `Verifier::verify`: checks the proof against the constraints collected.
/// It fails when there are fewer generators than the gates padded to a
/// power of two. Beyond that the check uses random choices, so nothing is
/// stated of its outcome. Every constraint must speak of variables that
/// exist.
#[verifier::external_body]
fn verifier_verify(
    verifier: VerifierSystem,
    proof: &bulletproofs::r1cs::R1CSProof,
    pc_gens: &bulletproofs::PedersenGens,
    bp_gens: &bulletproofs::BulletproofGens,
) -> (r: Result<(), bulletproofs::r1cs::R1CSError>)
    requires
        forall|k: int|
            0 <= k < verifier_constraints(verifier).len() ==> terms_in_range(
                #[trigger] verifier_constraints(verifier)[k],
                verifier_committed(verifier).len(),
                verifier_gates(verifier),
            ),
    ensures
        padded_gates(verifier_gates(verifier)) > bulletproof_capacity(*bp_gens) ==> r.is_err(),
{
    verifier.inner.verify(proof, pc_gens, bp_gens)
}

/// What a constraint system holds: the number of committed variables, the
/// number of multiplication gates, the linear combinations constrained to
/// zero and, in a prover, the values of the variables.
pub struct CsState {
    pub committed: nat,
    pub gates: nat,
    pub constraints: Seq<Seq<Term>>,
    pub witness: Option<Assignment>,
    /// The commitment that stands behind each committed variable: the one
    /// that a prover made, or the one that a verifier was given.
    pub commitments: Seq<Seq<u8>>,
    /// The blinding factor of each commitment of a prover; a verifier has
    /// none.
    pub blindings: Seq<nat>,
}

/// The left, right and output variable of a gate.
pub open spec fn gate_variables(gate: usize) -> (Variable, Variable, Variable) {
    (
        Variable::MultiplierLeft(gate),
        Variable::MultiplierRight(gate),
        Variable::MultiplierOutput(gate),
    )
}

/// The values of a prover's variables after a committed variable with the
/// given value has been added.
pub open spec fn commit_witness(w: Assignment, value: nat) -> Assignment {
    Assignment { committed: w.committed.push(value), ..w }
}

/// The values of a prover's variables after a multiplication gate with the
/// given inputs has been added.
pub open spec fn gate_witness(w: Assignment, left: Seq<Term>, right: Seq<Term>) -> Assignment {
    Assignment {
        committed: w.committed,
        left: w.left.push(eval(w, left)),
        right: w.right.push(eval(w, right)),
        output: w.output.push(field_mul(eval(w, left), eval(w, right))),
    }
}

impl CsState {
    /// A system that holds nothing, with or without values.
    pub open spec fn empty(proving: bool) -> CsState {
        CsState {
            committed: 0,
            gates: 0,
            constraints: Seq::empty(),
            witness: if proving {
                Some(
                    Assignment {
                        committed: Seq::empty(),
                        left: Seq::empty(),
                        right: Seq::empty(),
                        output: Seq::empty(),
                    },
                )
            } else {
                None
            },
            commitments: Seq::empty(),
            blindings: Seq::empty(),
        }
    }

    /// Whether every variable of the terms exists in the system.
    pub open spec fn in_range(self, terms: Seq<Term>) -> bool {
        terms_in_range(terms, self.committed, self.gates)
    }

    /// Every constraint speaks of variables that exist, the number of gates
    /// fits a machine word, there is a commitment for each committed
    /// variable, and the values and blinding factors, where there are any,
    /// are one for each variable.
    pub open spec fn wf(self) -> bool {
        &&& self.gates <= usize::MAX
        &&& self.commitments.len() == self.committed
        &&& forall|k: int|
            0 <= k < self.constraints.len() ==> self.in_range(#[trigger] self.constraints[k])
        &&& self.witness matches Some(w) ==> {
            &&& w.committed.len() == self.committed
            &&& w.left.len() == self.gates
            &&& w.right.len() == self.gates
            &&& w.output.len() == self.gates
            &&& self.blindings.len() == self.committed
        }
    }

    /// The system after a committed variable with the given commitment has
    /// been added; with the given value and blinding factor where the
    /// system has values.
    pub open spec fn commit(self, value: nat, blinding: nat, commitment: Seq<u8>) -> CsState {
        CsState {
            committed: self.committed + 1,
            commitments: self.commitments.push(commitment),
            witness: match self.witness {
                Some(w) => Some(commit_witness(w, value)),
                None => None,
            },
            blindings: if self.witness.is_some() {
                self.blindings.push(blinding)
            } else {
                self.blindings
            },
            ..self
        }
    }

    /// The system after a prover has committed to a value under a blinding
    /// factor.
    pub open spec fn commit_to(self, value: nat, blinding: nat) -> CsState {
        self.commit(value, blinding, pedersen_commitment(value, blinding))
    }

    /// The system after a multiplication gate with the given inputs has
    /// been added.
    pub open spec fn multiply(self, left: Seq<Term>, right: Seq<Term>) -> CsState {
        CsState {
            gates: self.gates + 1,
            constraints: gate_constraints(self.constraints, self.gates as usize, left, right),
            witness: match self.witness {
                Some(w) => Some(gate_witness(w, left, right)),
                None => None,
            },
            ..self
        }
    }

    /// The system after `lc` has been constrained to zero.
    pub open spec fn constrain(self, lc: Seq<Term>) -> CsState {
        CsState { constraints: self.constraints.push(lc), ..self }
    }

    /// Whether the assignment satisfies the system: it gives a reduced
    /// value to every variable, every gate multiplies, and every
    /// constraint evaluates to zero.
    pub open spec fn satisfied_by(self, a: Assignment) -> bool {
        &&& a.committed.len() >= self.committed
        &&& a.left.len() >= self.gates
        &&& a.multiplies()
        &&& a.reduced()
        &&& forall|k: int|
            0 <= k < self.constraints.len() ==> eval(a, #[trigger] self.constraints[k]) == 0
    }
}

/// A constraint system in one of its two roles.
pub enum ConstraintSystem<'g> {
    Proving(ProverSystem<'g>),
    Verifying(VerifierSystem),
}

impl<'g> ConstraintSystem<'g> {
    /// What the system holds.
    pub open spec fn state(&self) -> CsState {
        match self {
            ConstraintSystem::Proving(prover) => CsState {
                committed: prover_committed(*prover).len(),
                gates: prover_gates(*prover).len(),
                constraints: prover_constraints(*prover),
                witness: Some(prover_witness(*prover)),
                commitments: prover_commitments(*prover),
                blindings: prover_blindings(*prover),
            },
            ConstraintSystem::Verifying(verifier) => CsState {
                committed: verifier_committed(*verifier).len(),
                gates: verifier_gates(*verifier),
                constraints: verifier_constraints(*verifier),
                witness: None,
                commitments: verifier_committed(*verifier),
                blindings: Seq::empty(),
            },
        }
    }

    /// A prover without variables, on a new transcript with the given label.
    pub fn new_prover(generators: &'g Generators, label: &'static [u8]) -> (r: ConstraintSystem<'g>)
        ensures
            r is Proving,
            r.state() == CsState::empty(true),
    {
        proof {
            use_type_invariant(generators);
        }
        let prover = prover_new(&generators.pedersen, label);
        let r = ConstraintSystem::Proving(prover);
        proof {
            let w = prover_witness(prover);
            let e = CsState::empty(true).witness->0;
            assert(prover_constraints(prover) =~= Seq::empty());
            assert(prover_commitments(prover) =~= Seq::empty());
            assert(prover_blindings(prover) =~= Seq::empty());
            assert(w.committed =~= e.committed);
            assert(w.left =~= e.left);
            assert(w.right =~= e.right);
            assert(w.output =~= e.output);
        }
        r
    }

    /// A verifier without variables, on a new transcript with the given
    /// label.
    pub fn new_verifier(label: &'static [u8]) -> (r: ConstraintSystem<'g>)
        ensures
            r is Verifying,
            r.state() == CsState::empty(false),
    {
        let verifier = verifier_new(label);
        assert(verifier_constraints(verifier) =~= Seq::empty());
        assert(verifier_committed(verifier) =~= Seq::empty());
        ConstraintSystem::Verifying(verifier)
    }

    /// Adds a multiplication gate whose inputs are `left` and `right`, and
    /// returns its left, right and output variable.
    pub fn multiply(&mut self, left: &LinComb, right: &LinComb) -> (r: (Variable, Variable, Variable))
        requires
            old(self).state().wf(),
            old(self).state().gates < usize::MAX,
            old(self).state().in_range(left@),
            old(self).state().in_range(right@),
        ensures
            r == gate_variables(old(self).state().gates as usize),
            final(self).state() == old(self).state().multiply(left@, right@),
            final(self).state().wf(),
            *final(self) is Proving <==> *old(self) is Proving,
    {
        let l = to_r1cs(left);
        let r = to_r1cs(right);
        let gate = match self {
            ConstraintSystem::Proving(prover) => {
                let ghost before = *prover;
                let gate = prover_multiply(prover, l, r);
                proof {
                    let w = prover_witness(before);
                    let after = prover_witness(*prover);
                    let expected = gate_witness(w, left@, right@);
                    assert(after.left =~= expected.left);
                    assert(after.right =~= expected.right);
                    assert(after.output =~= expected.output);
                }
                gate
            },
            ConstraintSystem::Verifying(verifier) => verifier_multiply(verifier, l, r),
        };
        proof {
            let before = old(self).state();
            let after = self.state();
            assert forall|k: int| 0 <= k < after.constraints.len() implies after.in_range(
                #[trigger] after.constraints[k],
            ) by {
                if k < before.constraints.len() {
                    assert(before.in_range(before.constraints[k]));
                }
            }
        }
        (
            Variable::MultiplierLeft(gate),
            Variable::MultiplierRight(gate),
            Variable::MultiplierOutput(gate),
        )
    }

    /// Adds a committed variable with the given value to a prover, and
    /// returns the Pedersen commitment to the value under the given
    /// blinding factor, and the variable.
    pub fn commit_value(&mut self, value: &FieldElement, blinding: &FieldElement) -> (r: (
        [u8; 32],
        Variable,
    ))
        requires
            *old(self) is Proving,
            old(self).state().wf(),
        ensures
            r.0@ == pedersen_commitment(value@, blinding@),
            r.1 == Variable::Committed(old(self).state().committed as usize),
            old(self).state().committed <= usize::MAX,
            final(self).state() == old(self).state().commit_to(value@, blinding@),
            final(self).state().commitments == old(self).state().commitments.push(r.0@),
            final(self).state().wf(),
            *final(self) is Proving,
    {
        match self {
            ConstraintSystem::Proving(prover) => {
                let ghost before = *prover;
                let (commitment, index) = prover_commit(prover, value, blinding);
                proof {
                    let w = prover_witness(before);
                    let after = prover_witness(*prover);
                    assert(after.left =~= w.left);
                    assert(after.right =~= w.right);
                    assert(after.output =~= w.output);
                    assert(after == commit_witness(w, value@));
                    assert(prover_commitments(*prover) =~= prover_commitments(before).push(
                        pedersen_commitment(value@, blinding@),
                    ));
                }
                (commitment, Variable::Committed(index))
            },
            ConstraintSystem::Verifying(_) => ([0u8; 32], Variable::One),
        }
    }

    /// Adds a committed variable for the given commitment to a verifier,
    /// and returns the variable.
    pub fn commit_point(&mut self, commitment: &[u8; 32]) -> (r: Variable)
        requires
            *old(self) is Verifying,
            old(self).state().wf(),
        ensures
            r == Variable::Committed(old(self).state().committed as usize),
            old(self).state().committed <= usize::MAX,
            final(self).state() == old(self).state().commit(0, 0, commitment@),
            final(self).state().commitments == old(self).state().commitments.push(commitment@),
            final(self).state().wf(),
            *final(self) is Verifying,
    {
        match self {
            ConstraintSystem::Proving(_) => Variable::One,
            ConstraintSystem::Verifying(verifier) => {
                let index = verifier_commit(verifier, commitment);
                Variable::Committed(index)
            },
        }
    }

    /// Constrains `lc` to zero.
    pub fn constrain(&mut self, lc: &LinComb)
        requires
            old(self).state().wf(),
            old(self).state().in_range(lc@),
        ensures
            final(self).state() == old(self).state().constrain(lc@),
            final(self).state().wf(),
            *final(self) is Proving <==> *old(self) is Proving,
    {
        let outside = to_r1cs(lc);
        match self {
            ConstraintSystem::Proving(prover) => prover_constrain(prover, outside),
            ConstraintSystem::Verifying(verifier) => verifier_constrain(verifier, outside),
        }
    }
}

/// Why no proof came out of a prover.
#[derive(Clone, Copy, Debug, PartialEq, Eq, Structural)]
pub enum ProveError {
    /// The system is a verifier.
    NotAProver,
    /// There are fewer generators than the circuit has gates after padding.
    ProvingFailed,
}

/// Why a verifier did not accept a proof.
#[derive(Clone, Copy, Debug, PartialEq, Eq, Structural)]
pub enum Rejection {
    /// The system is a prover.
    NotAVerifier,
    /// The bytes do not encode a proof.
    Malformed,
    /// The proof does not fit the constraints.
    Rejected,
}

/// The verdict on a proof: `Malformed` when the bytes were not parsed,
/// `Rejected` when the parsed proof was not accepted.
pub open spec fn proof_verdict(parsed: bool, accepted: bool) -> Result<(), Rejection> {
    if !parsed {
        Err(Rejection::Malformed)
    } else if !accepted {
        Err(Rejection::Rejected)
    } else {
        Ok(())
    }
}

impl<'g> ConstraintSystem<'g> {
    /// Ends a prover and returns the proof for its constraints, serialised.
    /// There is a proof exactly if there are as many generators as the
    /// circuit has gates after padding. The proof depends on random choices
    /// of the outside prover; its bytes parse as a proof where the circuit
    /// has fewer than 2^32 gates after padding.
    pub fn prove(self, generators: &Generators) -> (r: Result<Vec<u8>, ProveError>)
        requires
            self.state().wf(),
            2 * self.state().gates <= usize::MAX,
        ensures
            self is Verifying ==> r == Err::<Vec<u8>, ProveError>(ProveError::NotAProver),
            self is Proving ==> (r.is_ok() <==> padded_gates(self.state().gates)
                <= generators.capacity()),
            r matches Err(e) ==> (e == ProveError::NotAProver <==> self is Verifying),
            r matches Ok(bytes) ==> (padded_gates(self.state().gates) < 0x1_0000_0000
                ==> proof_parses(bytes@)),
    {
        match self {
            ConstraintSystem::Proving(prover) => {
                assert forall|k: int| 0 <= k < prover_constraints(prover).len() implies terms_in_range(
                    #[trigger] prover_constraints(prover)[k],
                    prover_committed(prover).len(),
                    prover_gates(prover).len(),
                ) by {
                    assert(self.state().in_range(self.state().constraints[k]));
                }
                match prover_prove(prover, &generators.bulletproof) {
                    Ok(bytes) => Ok(bytes),
                    Err(_) => Err(ProveError::ProvingFailed),
                }
            },
            ConstraintSystem::Verifying(_) => Err(ProveError::NotAProver),
        }
    }

    /// Ends a verifier and says whether the bytes are a proof that fits its
    /// constraints. Bytes that do not encode a proof are `Malformed`, and
    /// only those. A proof is rejected when there are fewer generators than
    /// the gates padded to a power of two; beyond that, whether a proof is
    /// accepted is up to the outside verifier.
    pub fn verify_proof(self, proof_bytes: &[u8], generators: &Generators) -> (r: Result<(), Rejection>)
        requires
            self.state().wf(),
        ensures
            self is Proving ==> r == Err::<(), Rejection>(Rejection::NotAVerifier),
            r matches Err(e) ==> (e == Rejection::NotAVerifier <==> self is Proving),
            self is Verifying ==> (r == Err::<(), Rejection>(Rejection::Malformed)
                <==> !proof_parses(proof_bytes@)),
            self is Verifying && padded_gates(self.state().gates) > generators.capacity() ==> r
                is Err,
    {
        match self {
            ConstraintSystem::Proving(_) => Err(Rejection::NotAVerifier),
            ConstraintSystem::Verifying(verifier) => {
                assert forall|k: int|
                    0 <= k < verifier_constraints(verifier).len() implies terms_in_range(
                    #[trigger] verifier_constraints(verifier)[k],
                    verifier_committed(verifier).len(),
                    verifier_gates(verifier),
                ) by {
                    assert(self.state().in_range(self.state().constraints[k]));
                }
                match proof_from_bytes(proof_bytes) {
                    Err(_) => judge(false, false),
                    Ok(proof) => {
                        let outcome = verifier_verify(
                            verifier,
                            &proof,
                            &generators.pedersen,
                            &generators.bulletproof,
                        );
                        judge(true, outcome.is_ok())
                    },
                }
            },
        }
    }
}

/// The verdict on a proof, from what the outside crate said of it.
pub fn judge(parsed: bool, accepted: bool) -> (r: Result<(), Rejection>)
    ensures
        r == proof_verdict(parsed, accepted),
{
    if !parsed {
        Err(Rejection::Malformed)
    } else if !accepted {
        Err(Rejection::Rejected)
    } else {
        Ok(())
    }
}

/// The generators that proofs are made and checked with: the default
/// Pedersen generators and Bulletproofs generators for one party.
pub struct Generators {
    pedersen: bulletproofs::PedersenGens,
    bulletproof: bulletproofs::BulletproofGens,
}

impl Generators {
    /// The Pedersen generators are the default ones.
    #[verifier::type_invariant]
    pub closed spec fn on_default_bases(&self) -> bool {
        pedersen_is_default(self.pedersen)
    }

    /// The number of gates, after padding, of the largest circuit that
    /// these generators serve.
    pub closed spec fn capacity(&self) -> nat {
        bulletproof_capacity(self.bulletproof)
    }

    /// Generators for circuits of up to `gens_capacity` multiplication
    /// gates.
    pub fn new(gens_capacity: usize) -> (r: Generators)
        ensures
            r.capacity() == gens_capacity,
    {
        Generators {
            pedersen: pedersen_gens_default(),
            bulletproof: bulletproof_gens_new(gens_capacity),
        }
    }

    /// The Pedersen commitment to `value` under the given blinding factor.
    /// The Pedersen generators are the default ones whatever the capacity,
    /// so the commitment is the same for all generators.
    pub fn commit(&self, value: &FieldElement, blinding: &FieldElement) -> (r: [u8; 32])
        ensures
            r@ == pedersen_commitment(value@, blinding@),
    {
        pedersen_commit(value, blinding)
    }
}

} // verus!

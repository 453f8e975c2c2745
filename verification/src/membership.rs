//! The membership circuit and the proof protocol built on it.
//!
//! A deposit is a leaf `Hash(secret, seed)` of the tree. To withdraw, its
//! owner publishes the nullifier `Hash(seed, seed)` and proves, without
//! showing the leaf or its position, that a leaf with that seed lies under a
//! published root. The committed variables of the circuit are the secret,
//! the seed and the leaf, then one position bit for each level, then one
//! sibling for each level. Bit `i` is 1 when the node on the path is the right
//! child at level `i`.

use crate::circuit::{negate_terms, var_in_range, Assignment, LinComb, Term, Variable};
use crate::field::FieldElement;
use crate::gadget_laws::witnessed;
use crate::membership_laws::{
    constants_of_hashes, lemma_honest_prover, lemma_verifier_commitments,
};
use crate::merkle::{path_of, MerkleAccumulator, MAX_DEPTH};
use crate::poseidon::{Poseidon, PoseidonParams, HASH_WIDTH};
use crate::poseidon_gadget::{hash2_circuit, lemma_in_range_grows, unit_term};
use crate::r1cs::{
    padded_gates, pedersen_commitment, proof_parses, ConstraintSystem, CsState, Generators,
    Rejection,
};
use vstd::prelude::*;

verus! {

/// The number of commitments that come before those of the path: to the
/// secret, to the seed and to the leaf.
pub const PRIVATE_INPUTS: usize = 3;

/// The constant `c` as a linear combination.
pub open spec fn constant_term(c: nat) -> Seq<Term> {
    seq![(Variable::One, c)]
}

/// The circuit of one level of the path: the bit is constrained to be 0 or
/// 1, and the node and its sibling are hashed, the sibling first if the bit
/// is 1.
pub open spec fn level_circuit(
    p: PoseidonParams,
    s: CsState,
    node: Seq<Term>,
    bit: Variable,
    sibling: Variable,
) -> (CsState, Seq<Term>) {
    let boolean = s.multiply(unit_term(bit), constant_term(1) + negate_terms(unit_term(bit)));
    let checked = boolean.constrain(unit_term(Variable::MultiplierOutput(s.gates as usize)));
    let swapped = checked.multiply(unit_term(bit), unit_term(sibling) + negate_terms(node));
    let shift = unit_term(Variable::MultiplierOutput(checked.gates as usize));
    hash2_circuit(p, swapped, node + shift, unit_term(sibling) + negate_terms(shift))
}

/// The circuit of the first `n` levels of the path, from the leaf
/// upwards.
pub open spec fn path_circuit(
    p: PoseidonParams,
    s: CsState,
    leaf: Seq<Term>,
    bits: Seq<Variable>,
    siblings: Seq<Variable>,
    n: nat,
) -> (CsState, Seq<Term>)
    decreases n,
{
    if n == 0 {
        (s, leaf)
    } else {
        let (before, node) = path_circuit(p, s, leaf, bits, siblings, (n - 1) as nat);
        level_circuit(p, before, node, bits[n - 1], siblings[n - 1])
    }
}

/// The variables of the private inputs of the circuit.
pub struct MembershipVars {
    pub secret: Variable,
    pub seed: Variable,
    pub leaf: Variable,
    pub bits: Seq<Variable>,
    pub siblings: Seq<Variable>,
}

impl MembershipVars {
    /// There is a bit and a sibling for each level, and every variable
    /// exists in the system.
    pub open spec fn wf(self, s: CsState) -> bool {
        &&& self.bits.len() == self.siblings.len()
        &&& var_in_range(self.secret, s.committed, s.gates)
        &&& var_in_range(self.seed, s.committed, s.gates)
        &&& var_in_range(self.leaf, s.committed, s.gates)
        &&& forall|i: int|
            0 <= i < self.bits.len() ==> var_in_range(#[trigger] self.bits[i], s.committed, s.gates)
        &&& forall|i: int|
            0 <= i < self.siblings.len() ==> var_in_range(
                #[trigger] self.siblings[i],
                s.committed,
                s.gates,
            )
    }
}

/// The membership circuit: the leaf is the hash of the secret and the seed,
/// the nullifier is the hash of the seed with itself, and the path leads
/// from the leaf to the root.
pub open spec fn membership_circuit(
    p: PoseidonParams,
    s: CsState,
    vars: MembershipVars,
    root: nat,
    nullifier: nat,
) -> CsState {
    let (hashed, leaf_lc) = hash2_circuit(p, s, unit_term(vars.secret), unit_term(vars.seed));
    let bound = hashed.constrain(leaf_lc + negate_terms(unit_term(vars.leaf)));
    let (nullified, nullifier_lc) = hash2_circuit(
        p,
        bound,
        unit_term(vars.seed),
        unit_term(vars.seed),
    );
    let spent = nullified.constrain(nullifier_lc + negate_terms(constant_term(nullifier)));
    let (climbed, top) = path_circuit(
        p,
        spent,
        unit_term(vars.leaf),
        vars.bits,
        vars.siblings,
        vars.bits.len(),
    );
    climbed.constrain(top + negate_terms(constant_term(root)))
}

/// The number of gates of one level: two, and those of a hash.
pub open spec fn level_gates(p: PoseidonParams) -> nat {
    p.permute_gates() + 2
}

/// The number of gates of the membership circuit for a tree of the given
/// depth.
pub open spec fn membership_gates(p: PoseidonParams, depth: nat) -> nat {
    2 * p.permute_gates() + depth * level_gates(p)
}

/// A variable in range is a linear combination in range.
pub proof fn lemma_unit_in_range(v: Variable, s: CsState)
    requires
        var_in_range(v, s.committed, s.gates),
    ensures
        s.in_range(unit_term(v)),
{
}

/// Sums and differences of linear combinations in range are in range.
pub proof fn lemma_sum_in_range(x: Seq<Term>, y: Seq<Term>, s: CsState)
    requires
        s.in_range(x),
        s.in_range(y),
    ensures
        s.in_range(x + y),
        s.in_range(x + negate_terms(y)),
        s.in_range(negate_terms(y)),
{
    assert forall|k: int| 0 <= k < (x + y).len() implies var_in_range(
        (#[trigger] (x + y)[k]).0,
        s.committed,
        s.gates,
    ) by {
        if k < x.len() {
            assert((x + y)[k] == x[k]);
        } else {
            assert((x + y)[k] == y[k - x.len()]);
        }
    }
    let n = negate_terms(y);
    assert forall|k: int| 0 <= k < n.len() implies var_in_range(
        (#[trigger] n[k]).0,
        s.committed,
        s.gates,
    ) by {
        assert(n[k].0 == y[k].0);
    }
    assert forall|k: int| 0 <= k < (x + n).len() implies var_in_range(
        (#[trigger] (x + n)[k]).0,
        s.committed,
        s.gates,
    ) by {
        if k < x.len() {
            assert((x + n)[k] == x[k]);
        } else {
            assert((x + n)[k] == n[k - x.len()]);
        }
    }
}

impl Poseidon {
    /// The number of gates of the circuit of the permutation, or `None` if
    /// it does not fit a machine word.
    pub fn permute_gate_count(&self) -> (r: Option<usize>)
        requires
            self.wf(),
        ensures
            r matches Some(n) ==> n == self@.permute_gates(),
            r is None ==> self@.permute_gates() > usize::MAX,
    {
        let rounds = self.full_rounds + self.partial_rounds;
        let full_rounds_per_side = self.full_rounds / 2;
        let mut count: usize = 0;
        let mut round: usize = 0;
        while round < rounds
            invariant
                round <= rounds,
                self.wf(),
                rounds == self.full_rounds + self.partial_rounds,
                full_rounds_per_side == self.full_rounds / 2,
                count == self@.rounds_gates(round as nat),
            decreases rounds - round,
        {
            let full = round < full_rounds_per_side || round >= rounds - full_rounds_per_side;
            assert(full == self@.is_full_round(round as nat));
            proof {
                self@.lemma_rounds_gates_monotone((round + 1) as nat, rounds as nat);
            }
            let step = if full {
                match self.width.checked_mul(2) {
                    Some(step) => step,
                    None => {
                        return None;
                    },
                }
            } else {
                2
            };
            count = match count.checked_add(step) {
                Some(sum) => sum,
                None => {
                    return None;
                },
            };
            round += 1;
        }
        Some(count)
    }
}

/// The number of gates of the membership circuit for a tree of the given
/// depth, or `None` if it does not fit a machine word.
pub fn membership_gate_count(hasher: &Poseidon, depth: usize) -> (r: Option<usize>)
    requires
        hasher.wf(),
    ensures
        r matches Some(n) ==> n == membership_gates(hasher@, depth as nat),
        r is None ==> membership_gates(hasher@, depth as nat) > usize::MAX,
{
    let hash_gates = match hasher.permute_gate_count() {
        Some(n) => n,
        None => {
            return None;
        },
    };
    let per_level = match hash_gates.checked_add(2) {
        Some(n) => n,
        None => {
            return None;
        },
    };
    let levels = match depth.checked_mul(per_level) {
        Some(n) => n,
        None => {
            return None;
        },
    };
    let hashes = match hash_gates.checked_mul(2) {
        Some(n) => n,
        None => {
            return None;
        },
    };
    hashes.checked_add(levels)
}

/// Adds the circuit of one level of the path to the system and returns
/// the linear combination that stands for the parent node.
fn constrain_level(
    hasher: &Poseidon,
    cs: &mut ConstraintSystem,
    gens: &Generators,
    node: LinComb,
    bit: Variable,
    sibling: Variable,
) -> (r: LinComb)
    requires
        hasher.wf(),
        hasher.width == HASH_WIDTH,
        old(cs).state().wf(),
        old(cs).state().in_range(node@),
        var_in_range(bit, old(cs).state().committed, old(cs).state().gates),
        var_in_range(sibling, old(cs).state().committed, old(cs).state().gates),
        old(cs).state().gates + level_gates(hasher@) <= usize::MAX,
    ensures
        (final(cs).state(), r@) == level_circuit(hasher@, old(cs).state(), node@, bit, sibling),
        final(cs).state().wf(),
        final(cs).state().in_range(r@),
        final(cs).state().committed == old(cs).state().committed + 4,
        final(cs).state().gates == old(cs).state().gates + level_gates(hasher@),
        *final(cs) is Proving <==> *old(cs) is Proving,
{
    let ghost start = cs.state();
    let bit_lc = LinComb::from_variable(bit);
    let sibling_lc = LinComb::from_variable(sibling);
    let one = LinComb::constant(FieldElement::one());

    // The bit is 0 or 1: bit * (1 - bit) = 0.
    let not_bit = one.sub(&bit_lc);
    proof {
        lemma_unit_in_range(bit, start);
        lemma_unit_in_range(sibling, start);
        assert(start.in_range(constant_term(1)));
        lemma_sum_in_range(constant_term(1), unit_term(bit), start);
    }
    let (_, _, product) = cs.multiply(&bit_lc, &not_bit);
    let product_lc = LinComb::from_variable(product);
    cs.constrain(&product_lc);

    // The pair to hash is (node, sibling) if the bit is 0 and (sibling,
    // node) if it is 1: with shift = bit * (sibling - node), it is
    // (node + shift, sibling - shift).
    let ghost checked = cs.state();
    let delta = sibling_lc.duplicate().sub(&node);
    proof {
        lemma_in_range_grows(node@, start, checked);
        lemma_in_range_grows(unit_term(bit), start, checked);
        lemma_in_range_grows(unit_term(sibling), start, checked);
        lemma_sum_in_range(unit_term(sibling), node@, checked);
    }
    let (_, _, shift) = cs.multiply(&bit_lc, &delta);
    let shift_lc = LinComb::from_variable(shift);
    let ghost swapped = cs.state();
    proof {
        lemma_in_range_grows(node@, checked, swapped);
        lemma_in_range_grows(unit_term(sibling), checked, swapped);
        lemma_sum_in_range(node@, shift_lc@, swapped);
        lemma_sum_in_range(unit_term(sibling), shift_lc@, swapped);
    }
    let left = node.add(&shift_lc);
    let right = sibling_lc.sub(&shift_lc);
    hasher.constrain_hash(cs, gens, left, right)
}

/// Adds the membership circuit to the system.
pub fn membership_gadget(
    hasher: &Poseidon,
    cs: &mut ConstraintSystem,
    gens: &Generators,
    root: &FieldElement,
    nullifier_hash: &FieldElement,
    secret: Variable,
    seed: Variable,
    leaf: Variable,
    bits: &Vec<Variable>,
    siblings: &Vec<Variable>,
)
    requires
        hasher.wf(),
        hasher.width == HASH_WIDTH,
        old(cs).state().wf(),
        (MembershipVars { secret, seed, leaf, bits: bits@, siblings: siblings@ }).wf(
            old(cs).state(),
        ),
        old(cs).state().gates + membership_gates(hasher@, bits.len() as nat) <= usize::MAX,
    ensures
        final(cs).state() == membership_circuit(
            hasher@,
            old(cs).state(),
            MembershipVars { secret, seed, leaf, bits: bits@, siblings: siblings@ },
            root@,
            nullifier_hash@,
        ),
        final(cs).state().wf(),
        final(cs).state().gates == old(cs).state().gates + membership_gates(
            hasher@,
            bits.len() as nat,
        ),
        *final(cs) is Proving <==> *old(cs) is Proving,
{
    let ghost start = cs.state();
    let ghost p = hasher@;
    let depth = bits.len();
    proof {
        lemma_unit_in_range(secret, start);
        lemma_unit_in_range(seed, start);
        lemma_unit_in_range(leaf, start);
        assert(depth * level_gates(p) >= 0) by (nonlinear_arith)
            requires
                depth >= 0,
                level_gates(p) >= 0,
        ;
    }
    // The leaf is the hash of the secret and the seed.
    let leaf_lc = hasher.constrain_hash(
        cs,
        gens,
        LinComb::from_variable(secret),
        LinComb::from_variable(seed),
    );
    let ghost hashed = cs.state();
    let leaf_var_lc = LinComb::from_variable(leaf);
    proof {
        lemma_in_range_grows(unit_term(leaf), start, hashed);
        lemma_in_range_grows(unit_term(seed), start, hashed);
        lemma_sum_in_range(leaf_lc@, unit_term(leaf), hashed);
    }
    let leaf_check = leaf_lc.sub(&leaf_var_lc);
    cs.constrain(&leaf_check);

    // The nullifier is the hash of the seed with itself.
    let nullifier_lc = hasher.constrain_hash(
        cs,
        gens,
        LinComb::from_variable(seed),
        LinComb::from_variable(seed),
    );
    let ghost nullified = cs.state();
    let nullifier_constant = LinComb::constant(*nullifier_hash);
    proof {
        assert(nullified.in_range(constant_term(nullifier_hash@)));
        lemma_sum_in_range(nullifier_lc@, constant_term(nullifier_hash@), nullified);
    }
    let nullifier_check = nullifier_lc.sub(&nullifier_constant);
    cs.constrain(&nullifier_check);

    // The path leads from the leaf to the root.
    let ghost spent = cs.state();
    let mut node = leaf_var_lc;
    let mut level: usize = 0;
    proof {
        lemma_in_range_grows(unit_term(leaf), start, spent);
    }
    while level < depth
        invariant
            level <= depth == bits.len() == siblings.len(),
            hasher.wf(),
            hasher.width == HASH_WIDTH,
            p == hasher@,
            (MembershipVars { secret, seed, leaf, bits: bits@, siblings: siblings@ }).wf(start),
            start.committed <= spent.committed,
            start.gates <= spent.gates,
            spent.gates + depth * level_gates(p) <= usize::MAX,
            (cs.state(), node@) == path_circuit(
                p,
                spent,
                unit_term(leaf),
                bits@,
                siblings@,
                level as nat,
            ),
            cs.state().wf(),
            cs.state().in_range(node@),
            cs.state().committed >= spent.committed,
            cs.state().gates == spent.gates + level * level_gates(p),
            *cs is Proving <==> *old(cs) is Proving,
        decreases depth - level,
    {
        let ghost before = cs.state();
        proof {
            assert((level + 1) * level_gates(p) == level * level_gates(p) + level_gates(p))
                by (nonlinear_arith);
            assert((level + 1) * level_gates(p) <= depth * level_gates(p)) by (nonlinear_arith)
                requires
                    level + 1 <= depth,
            ;
            assert(var_in_range(bits@[level as int], start.committed, start.gates));
            assert(var_in_range(siblings@[level as int], start.committed, start.gates));
        }
        node = constrain_level(hasher, cs, gens, node, bits[level], siblings[level]);
        level += 1;
    }
    let root_constant = LinComb::constant(*root);
    proof {
        assert(cs.state().in_range(constant_term(root@)));
        lemma_sum_in_range(node@, constant_term(root@), cs.state());
    }
    let root_check = node.sub(&root_constant);
    cs.constrain(&root_check);
}

/// The variables of the private inputs, in the order in which they are
/// committed: the secret, the seed, the leaf, the bits, the siblings.
pub open spec fn standard_vars(depth: nat) -> MembershipVars {
    MembershipVars {
        secret: Variable::Committed(0),
        seed: Variable::Committed(1),
        leaf: Variable::Committed(2),
        bits: Seq::new(depth, |i: int| Variable::Committed((PRIVATE_INPUTS + i) as usize)),
        siblings: Seq::new(
            depth,
            |i: int| Variable::Committed((PRIVATE_INPUTS + depth + i) as usize),
        ),
    }
}

/// The commitments to the values under the blinding factors, one by one.
pub open spec fn commitments_to(values: Seq<nat>, blindings: Seq<nat>) -> Seq<Seq<u8>> {
    Seq::new(values.len(), |i: int| pedersen_commitment(values[i], blindings[i]))
}

/// The byte strings of commitments.
pub open spec fn encodings(commitments: Seq<[u8; 32]>) -> Seq<Seq<u8>> {
    Seq::new(commitments.len(), |i: int| commitments[i]@)
}

/// The commitments of a submission in the order of the committed inputs:
/// those to the private inputs, those to the position bits, those to the
/// siblings.
pub open spec fn submitted_commitments(
    comms: Seq<[u8; 32]>,
    leaf_index_comms: Seq<[u8; 32]>,
    proof_comms: Seq<[u8; 32]>,
) -> Seq<Seq<u8>> {
    encodings(comms) + encodings(leaf_index_comms) + encodings(proof_comms)
}

/// A prover that has committed to the values under the blinding factors and
/// done nothing else.
pub open spec fn prover_start(values: Seq<nat>, blindings: Seq<nat>) -> CsState {
    CsState {
        committed: values.len(),
        gates: 0,
        constraints: Seq::empty(),
        witness: Some(
            Assignment {
                committed: values,
                left: Seq::empty(),
                right: Seq::empty(),
                output: Seq::empty(),
            },
        ),
        commitments: commitments_to(values, blindings),
        blindings,
    }
}

/// A verifier that has been given the commitments and has done nothing
/// else.
pub open spec fn verifier_start(commitments: Seq<Seq<u8>>) -> CsState {
    CsState {
        committed: commitments.len(),
        gates: 0,
        constraints: Seq::empty(),
        witness: None,
        commitments,
        blindings: Seq::empty(),
    }
}

/// The position bit of a step of a path: 0 for a left child, 1 for a
/// right child.
pub open spec fn position_bit(is_left: bool) -> nat {
    if is_left {
        0
    } else {
        1
    }
}

/// The values that a prover commits to: the secret, the seed, the leaf,
/// the position bits of the path, the siblings of the path.
pub open spec fn prover_inputs(secret: nat, seed: nat, leaf: nat, path: Seq<(bool, nat)>) -> Seq<
    nat,
> {
    seq![secret, seed, leaf] + Seq::new(path.len(), |i: int| position_bit(path[i].0)) + Seq::new(
        path.len(),
        |i: int| path[i].1,
    )
}

/// The system from which a prover proves: the inputs of a deposit with
/// the given secret and seed and of a path, committed under the blinding
/// factors, and the membership circuit for a root and for the nullifier of
/// the seed.
pub open spec fn prover_circuit(
    p: PoseidonParams,
    secret: nat,
    seed: nat,
    path: Seq<(bool, nat)>,
    root: nat,
    blindings: Seq<nat>,
) -> CsState {
    membership_circuit(
        p,
        prover_start(prover_inputs(secret, seed, p.hash2(secret, seed), path), blindings),
        standard_vars(path.len()),
        root,
        p.hash2(seed, seed),
    )
}

/// The system against which a verifier checks: the commitments that were
/// submitted for the inputs, and the membership circuit for a root and a
/// nullifier.
pub open spec fn verifier_circuit(
    p: PoseidonParams,
    depth: nat,
    root: nat,
    nullifier: nat,
    commitments: Seq<Seq<u8>>,
) -> CsState {
    membership_circuit(p, verifier_start(commitments), standard_vars(depth), root, nullifier)
}

/// Why a membership proof was not accepted.
#[derive(Clone, Copy, Debug, PartialEq, Eq, Structural)]
pub enum VerificationError {
    /// There are not exactly `PRIVATE_INPUTS` commitments to the private
    /// inputs.
    InvalidPrivateInputs,
    /// There is not one commitment to a bit and one to a sibling for each
    /// level of the tree.
    InvalidPathLength,
    /// The bytes do not encode a proof.
    InvalidZkProof,
    /// The proof does not fit the circuit, the commitments and the public
    /// values.
    ZkVerificationFailed,
}

/// Why no membership proof was made.
#[derive(Clone, Copy, Debug, PartialEq, Eq, Structural)]
pub enum ProvingError {
    /// No leaf has been appended at the position.
    InvalidPosition,
    /// There is not one blinding factor for each committed input.
    InvalidBlindings,
    /// Twice the number of gates of the circuit does not fit a machine
    /// word.
    CircuitTooLarge,
    /// There are fewer generators than the circuit has gates after padding.
    ProvingFailed,
}

/// What a prover hands to a verifier: the proof, the commitments to the
/// secret, the seed and the leaf, the nullifier, and the commitments to the
/// position bits and to the siblings of the path.
#[derive(Clone, Debug, PartialEq, Eq)]
pub struct MembershipProof {
    pub proof: Vec<u8>,
    pub comms: Vec<[u8; 32]>,
    pub nullifier_hash: FieldElement,
    pub leaf_index_comms: Vec<[u8; 32]>,
    pub proof_comms: Vec<[u8; 32]>,
}

/// The leaf of a deposit: the hash of its secret and its seed.
pub fn leaf_of(hasher: &Poseidon, secret: FieldElement, seed: FieldElement) -> (r: FieldElement)
    requires
        hasher.wf(),
        hasher.width == HASH_WIDTH,
    ensures
        r@ == hasher@.hash2(secret@, seed@),
{
    hasher.hash_2(secret, seed)
}

/// The nullifier of a deposit: the hash of its seed with itself.
pub fn nullifier_of(hasher: &Poseidon, seed: FieldElement) -> (r: FieldElement)
    requires
        hasher.wf(),
        hasher.width == HASH_WIDTH,
    ensures
        r@ == hasher@.hash2(seed@, seed@),
{
    hasher.hash_2(seed, seed)
}

/// The number of blinding factors that a proof for a tree of the given
/// depth takes: one for each committed input.
pub open spec fn blindings_needed(depth: nat) -> nat {
    PRIVATE_INPUTS as nat + 2 * depth
}

/// Which shape of its inputs, if any, keeps `prove_zk` from proving.
pub open spec fn proving_refusal(
    leaves: nat,
    depth: nat,
    gates: nat,
    position: nat,
    blindings: nat,
) -> Option<ProvingError> {
    if position >= leaves {
        Some(ProvingError::InvalidPosition)
    } else if blindings != blindings_needed(depth) {
        Some(ProvingError::InvalidBlindings)
    } else if 2 * gates > usize::MAX {
        Some(ProvingError::CircuitTooLarge)
    } else {
        None
    }
}

/// A prover that is ready to prove, with what goes to the verifier beside
/// the proof.
pub struct ProverSetup<'g> {
    pub system: ConstraintSystem<'g>,
    pub comms: Vec<[u8; 32]>,
    pub nullifier_hash: FieldElement,
    pub leaf_index_comms: Vec<[u8; 32]>,
    pub proof_comms: Vec<[u8; 32]>,
}

/// Commits a prover to the secret, the seed and the leaf of a deposit and
/// to the path of the leaf at `position` of the tree, and adds the
/// membership circuit for the root of the tree. The commitments are
/// blinded with the given factors, in the order of the inputs.
pub fn synthesize_prover<'g>(
    tree: &MerkleAccumulator,
    gens: &'g Generators,
    label: &'static [u8],
    position: u64,
    secret: FieldElement,
    seed: FieldElement,
    blindings: &Vec<FieldElement>,
) -> (r: Result<ProverSetup<'g>, ProvingError>)
    requires
        tree.wf(),
    ensures
        match proving_refusal(
            tree@.leaves.len(),
            tree@.depth,
            membership_gates(tree@.params, tree@.depth),
            position as nat,
            blindings.len() as nat,
        ) {
            Some(e) => r matches Err(refusal) && refusal == e,
            None => r is Ok,
        },
        r matches Ok(setup) ==> {
            &&& setup.system is Proving
            &&& setup.system.state().wf()
            &&& setup.system.state() == prover_circuit(
                tree@.params,
                secret@,
                seed@,
                path_of(tree@.params, tree@.leaves, position as nat, tree@.depth),
                tree@.root(),
                blindings.deep_view(),
            )
            &&& setup.system.state().gates == membership_gates(tree@.params, tree@.depth)
            &&& submitted_commitments(
                setup.comms@,
                setup.leaf_index_comms@,
                setup.proof_comms@,
            ) == commitments_to(
                prover_inputs(
                    secret@,
                    seed@,
                    tree@.params.hash2(secret@, seed@),
                    path_of(tree@.params, tree@.leaves, position as nat, tree@.depth),
                ),
                blindings.deep_view(),
            )
            &&& setup.comms.len() == PRIVATE_INPUTS
            &&& setup.leaf_index_comms.len() == tree@.depth
            &&& setup.proof_comms.len() == tree@.depth
            &&& setup.nullifier_hash@ == tree@.params.hash2(seed@, seed@)
            &&& tree@.leaves[position as int] == tree@.params.hash2(secret@, seed@) ==> witnessed(
                setup.system.state(),
            )
        },
{
    proof {
        tree.lemma_wf_bounds();
        use_type_invariant(&secret);
        use_type_invariant(&seed);
    }
    let path = match tree.generate_path(position) {
        Ok(path) => path,
        Err(_) => {
            return Err(ProvingError::InvalidPosition);
        },
    };
    let depth = tree.depth();
    let ghost p = tree@.params;
    let ghost steps = path_of(p, tree@.leaves, position as nat, depth as nat);
    assert(path.len() == depth) by {
        assert(path.deep_view().len() == depth);
    }
    if blindings.len() != PRIVATE_INPUTS + 2 * depth {
        return Err(ProvingError::InvalidBlindings);
    }
    let hasher = tree.hasher();
    match membership_gate_count(hasher, depth) {
        Some(gates) => {
            if gates.checked_mul(2).is_none() {
                return Err(ProvingError::CircuitTooLarge);
            }
        },
        None => {
            return Err(ProvingError::CircuitTooLarge);
        },
    }
    let root = tree.root();
    let leaf = leaf_of(hasher, secret, seed);
    let nullifier_hash = nullifier_of(hasher, seed);
    let ghost inputs = prover_inputs(secret@, seed@, leaf@, steps);
    let ghost blind = blindings.deep_view();
    let ghost total = (PRIVATE_INPUTS + 2 * depth) as nat;

    let mut cs = ConstraintSystem::new_prover(gens, label);
    let (secret_com, secret_var) = cs.commit_value(&secret, &blindings[0]);
    let (seed_com, seed_var) = cs.commit_value(&seed, &blindings[1]);
    let (leaf_com, leaf_var) = cs.commit_value(&leaf, &blindings[2]);
    let comms = vec![secret_com, seed_com, leaf_com];
    proof {
        let w = cs.state().witness->0;
        let start = prover_start(
            inputs.take(PRIVATE_INPUTS as int),
            blind.take(PRIVATE_INPUTS as int),
        );
        assert(w.committed =~= inputs.take(PRIVATE_INPUTS as int));
        assert(w.left =~= Seq::<nat>::empty());
        assert(cs.state().blindings =~= start.blindings);
        assert(cs.state().commitments =~= start.commitments);
        assert(cs.state() == start);
    }

    let zero = FieldElement::zero();
    let one = FieldElement::one();
    let mut leaf_index_comms: Vec<[u8; 32]> = Vec::new();
    let mut bits: Vec<Variable> = Vec::new();
    let mut level: usize = 0;
    while level < depth
        invariant
            level <= depth == path.len(),
            depth <= MAX_DEPTH,
            blindings.len() == PRIVATE_INPUTS + 2 * depth,
            zero@ == 0,
            one@ == 1,
            steps.len() == depth,
            path.deep_view() == steps,
            inputs == prover_inputs(secret@, seed@, leaf@, steps),
            cs is Proving,
            cs.state().wf(),
            blind == blindings.deep_view(),
            cs.state() == prover_start(
                inputs.take(PRIVATE_INPUTS + level),
                blind.take(PRIVATE_INPUTS + level),
            ),
            leaf_index_comms.len() == level,
            forall|i: int|
                0 <= i < level ==> (#[trigger] leaf_index_comms@[i])@ == pedersen_commitment(
                    inputs[PRIVATE_INPUTS + i],
                    blind[PRIVATE_INPUTS + i],
                ),
            bits.len() == level,
            forall|i: int|
                0 <= i < level ==> #[trigger] bits@[i] == Variable::Committed(
                    (PRIVATE_INPUTS + i) as usize,
                ),
        decreases depth - level,
    {
        // The bit is 1 when the node on the path is a right child.
        let bit = if path[level].0 {
            zero
        } else {
            one
        };
        proof {
            assert(steps[level as int] == (path@[level as int].0, path@[level as int].1@));
            assert(inputs[PRIVATE_INPUTS + level] == position_bit(steps[level as int].0));
            assert(inputs.take(PRIVATE_INPUTS + level + 1) =~= inputs.take(
                PRIVATE_INPUTS + level,
            ).push(bit@));
            assert(blind.take(PRIVATE_INPUTS + level + 1) =~= blind.take(
                PRIVATE_INPUTS + level,
            ).push(blind[PRIVATE_INPUTS + level]));
        }
        let (com, var) = cs.commit_value(&bit, &blindings[PRIVATE_INPUTS + level]);
        proof {
            let next = prover_start(
                inputs.take(PRIVATE_INPUTS + level + 1),
                blind.take(PRIVATE_INPUTS + level + 1),
            );
            assert(cs.state().commitments =~= next.commitments);
            assert(cs.state() == next);
        }
        leaf_index_comms.push(com);
        bits.push(var);
        level += 1;
    }
    let mut proof_comms: Vec<[u8; 32]> = Vec::new();
    let mut siblings: Vec<Variable> = Vec::new();
    let mut level: usize = 0;
    while level < depth
        invariant
            level <= depth == path.len(),
            depth <= MAX_DEPTH,
            blindings.len() == PRIVATE_INPUTS + 2 * depth,
            steps.len() == depth,
            path.deep_view() == steps,
            inputs == prover_inputs(secret@, seed@, leaf@, steps),
            cs is Proving,
            cs.state().wf(),
            blind == blindings.deep_view(),
            cs.state() == prover_start(
                inputs.take(PRIVATE_INPUTS + depth + level),
                blind.take(PRIVATE_INPUTS + depth + level),
            ),
            proof_comms.len() == level,
            forall|i: int|
                0 <= i < level ==> (#[trigger] proof_comms@[i])@ == pedersen_commitment(
                    inputs[PRIVATE_INPUTS + depth + i],
                    blind[PRIVATE_INPUTS + depth + i],
                ),
            siblings.len() == level,
            forall|i: int|
                0 <= i < level ==> #[trigger] siblings@[i] == Variable::Committed(
                    (PRIVATE_INPUTS + depth + i) as usize,
                ),
        decreases depth - level,
    {
        proof {
            assert(steps[level as int] == (path@[level as int].0, path@[level as int].1@));
            assert(inputs[PRIVATE_INPUTS + depth + level] == steps[level as int].1);
            assert(inputs.take(PRIVATE_INPUTS + depth + level + 1) =~= inputs.take(
                PRIVATE_INPUTS + depth + level,
            ).push(path@[level as int].1@));
            assert(blind.take(PRIVATE_INPUTS + depth + level + 1) =~= blind.take(
                PRIVATE_INPUTS + depth + level,
            ).push(blind[PRIVATE_INPUTS + depth + level]));
        }
        let (com, var) = cs.commit_value(
            &path[level].1,
            &blindings[PRIVATE_INPUTS + depth + level],
        );
        proof {
            let next = prover_start(
                inputs.take(PRIVATE_INPUTS + depth + level + 1),
                blind.take(PRIVATE_INPUTS + depth + level + 1),
            );
            assert(cs.state().commitments =~= next.commitments);
            assert(cs.state() == next);
        }
        proof_comms.push(com);
        siblings.push(var);
        level += 1;
    }
    proof {
        assert(inputs.take(total as int) =~= inputs);
        assert(blind.take(total as int) =~= blind);
        assert(submitted_commitments(comms@, leaf_index_comms@, proof_comms@) =~= commitments_to(
            inputs,
            blind,
        ));
        let vars = MembershipVars {
            secret: secret_var,
            seed: seed_var,
            leaf: leaf_var,
            bits: bits@,
            siblings: siblings@,
        };
        assert(vars.bits =~= standard_vars(depth as nat).bits);
        assert(vars.siblings =~= standard_vars(depth as nat).siblings);
        assert(vars == standard_vars(depth as nat));
    }
    membership_gadget(
        hasher,
        &mut cs,
        gens,
        &root,
        &nullifier_hash,
        secret_var,
        seed_var,
        leaf_var,
        &bits,
        &siblings,
    );
    proof {
        if tree@.leaves[position as int] == p.hash2(secret@, seed@) {
            lemma_honest_prover(
                p,
                depth as nat,
                tree@.leaves,
                position as nat,
                secret@,
                seed@,
                blind,
            );
        }
    }
    Ok(ProverSetup { system: cs, comms, nullifier_hash, leaf_index_comms, proof_comms })
}

/// Proves that the deposit with the given secret and seed is the leaf at
/// `position` of the tree, under the tree's root. The commitments to the
/// secret, the seed, the leaf, the bits and the siblings are blinded with
/// the given factors, in that order. Unless the inputs are refused, there
/// is a proof exactly if there are as many generators as the circuit has
/// gates after padding, and its bytes parse as a proof where those are
/// fewer than 2^32. The proof is only valid if the leaf at the position is
/// the hash of the secret and the seed.
pub fn prove_zk(
    tree: &MerkleAccumulator,
    gens: &Generators,
    label: &'static [u8],
    position: u64,
    secret: FieldElement,
    seed: FieldElement,
    blindings: &Vec<FieldElement>,
) -> (r: Result<MembershipProof, ProvingError>)
    requires
        tree.wf(),
    ensures
        match proving_refusal(
            tree@.leaves.len(),
            tree@.depth,
            membership_gates(tree@.params, tree@.depth),
            position as nat,
            blindings.len() as nat,
        ) {
            Some(e) => r == Err::<MembershipProof, ProvingError>(e),
            None => if padded_gates(membership_gates(tree@.params, tree@.depth))
                <= gens.capacity() {
                r is Ok
            } else {
                r == Err::<MembershipProof, ProvingError>(ProvingError::ProvingFailed)
            },
        },
        r matches Ok(proof) ==> {
            &&& proof.comms.len() == PRIVATE_INPUTS
            &&& proof.leaf_index_comms.len() == tree@.depth
            &&& proof.proof_comms.len() == tree@.depth
            &&& proof.nullifier_hash@ == tree@.params.hash2(seed@, seed@)
            &&& padded_gates(membership_gates(tree@.params, tree@.depth)) < 0x1_0000_0000
                ==> proof_parses(proof.proof@)
            &&& submitted_commitments(
                proof.comms@,
                proof.leaf_index_comms@,
                proof.proof_comms@,
            ) == commitments_to(
                prover_inputs(
                    secret@,
                    seed@,
                    tree@.params.hash2(secret@, seed@),
                    path_of(tree@.params, tree@.leaves, position as nat, tree@.depth),
                ),
                blindings.deep_view(),
            )
        },
{
    let setup = match synthesize_prover(tree, gens, label, position, secret, seed, blindings) {
        Ok(setup) => setup,
        Err(e) => {
            return Err(e);
        },
    };
    match setup.system.prove(gens) {
        Ok(proof) => Ok(
            MembershipProof {
                proof,
                comms: setup.comms,
                nullifier_hash: setup.nullifier_hash,
                leaf_index_comms: setup.leaf_index_comms,
                proof_comms: setup.proof_comms,
            },
        ),
        Err(_) => Err(ProvingError::ProvingFailed),
    }
}

/// The verdict on a membership proof, from the shape of what was submitted
/// and from what the check of the proof against the circuit gave. The
/// number of private inputs is judged first, then the length of the path,
/// then the proof.
pub open spec fn verification_verdict(
    comms: nat,
    leaf_index_comms: nat,
    proof_comms: nat,
    depth: nat,
    checked: Result<(), Rejection>,
) -> Result<(), VerificationError> {
    if comms != PRIVATE_INPUTS {
        Err(VerificationError::InvalidPrivateInputs)
    } else if leaf_index_comms != depth || proof_comms != depth {
        Err(VerificationError::InvalidPathLength)
    } else {
        match checked {
            Ok(()) => Ok(()),
            Err(Rejection::Malformed) => Err(VerificationError::InvalidZkProof),
            Err(_) => Err(VerificationError::ZkVerificationFailed),
        }
    }
}

/// Whether `r` is a verdict on a submission with so many commitments and
/// with the given proof bytes, for a tree of the given depth: the verdict
/// that follows from some outcome of checking the proof on a verifier,
/// where the outcome is `Malformed` exactly if the bytes do not parse as a
/// proof.
pub open spec fn is_verdict_on(
    r: Result<(), VerificationError>,
    comms: nat,
    leaf_index_comms: nat,
    proof_comms: nat,
    depth: nat,
    proof_bytes: Seq<u8>,
) -> bool {
    exists|checked: Result<(), Rejection>|
        checked != Err::<(), Rejection>(Rejection::NotAVerifier) && (checked == Err::<
            (),
            Rejection,
        >(Rejection::Malformed) <==> !proof_parses(proof_bytes)) && r
            == #[trigger] verification_verdict(
            comms,
            leaf_index_comms,
            proof_comms,
            depth,
            checked,
        )
}

/// The verdict on a proof whose commitments have the right shape.
pub fn verdict_of_proof(checked: Result<(), Rejection>) -> (r: Result<(), VerificationError>)
    ensures
        forall|depth: nat|
            r == verification_verdict(PRIVATE_INPUTS as nat, depth, depth, depth, checked),
        r is Ok <==> checked is Ok,
{
    match checked {
        Ok(()) => Ok(()),
        Err(Rejection::Malformed) => Err(VerificationError::InvalidZkProof),
        Err(_) => Err(VerificationError::ZkVerificationFailed),
    }
}

/// Gives a verifier the commitments to the private inputs and adds the
/// membership circuit for the root and the nullifier.
pub fn synthesize_verifier<'g>(
    hasher: &Poseidon,
    gens: &Generators,
    label: &'static [u8],
    root: &FieldElement,
    comms: &Vec<[u8; 32]>,
    nullifier_hash: &FieldElement,
    leaf_index_comms: &Vec<[u8; 32]>,
    proof_comms: &Vec<[u8; 32]>,
) -> (r: ConstraintSystem<'g>)
    requires
        hasher.wf(),
        hasher.width == HASH_WIDTH,
        comms.len() == PRIVATE_INPUTS,
        leaf_index_comms.len() == proof_comms.len(),
        membership_gates(hasher@, proof_comms.len() as nat) <= usize::MAX,
    ensures
        r is Verifying,
        r.state().wf(),
        r.state() == verifier_circuit(
            hasher@,
            proof_comms.len() as nat,
            root@,
            nullifier_hash@,
            submitted_commitments(comms@, leaf_index_comms@, proof_comms@),
        ),
        r.state().gates == membership_gates(hasher@, proof_comms.len() as nat),
        r.state().commitments == submitted_commitments(comms@, leaf_index_comms@, proof_comms@)
            + constants_of_hashes((proof_comms.len() + 2) as nat),
{
    let depth = proof_comms.len();
    let ghost submitted = submitted_commitments(comms@, leaf_index_comms@, proof_comms@);
    let mut cs = ConstraintSystem::new_verifier(label);
    let secret_var = cs.commit_point(&comms[0]);
    let seed_var = cs.commit_point(&comms[1]);
    let leaf_var = cs.commit_point(&comms[2]);
    proof {
        let start = verifier_start(submitted.take(PRIVATE_INPUTS as int));
        assert(cs.state().commitments =~= start.commitments);
        assert(cs.state() == start);
    }

    let mut bits: Vec<Variable> = Vec::new();
    let mut level: usize = 0;
    while level < depth
        invariant
            level <= depth == leaf_index_comms.len(),
            cs is Verifying,
            cs.state().wf(),
            comms.len() == PRIVATE_INPUTS,
            leaf_index_comms.len() == proof_comms.len(),
            submitted == submitted_commitments(comms@, leaf_index_comms@, proof_comms@),
            cs.state() == verifier_start(submitted.take(PRIVATE_INPUTS + level)),
            bits.len() == level,
            forall|i: int|
                0 <= i < level ==> #[trigger] bits@[i] == Variable::Committed(
                    (PRIVATE_INPUTS + i) as usize,
                ),
        decreases depth - level,
    {
        let var = cs.commit_point(&leaf_index_comms[level]);
        proof {
            let next = verifier_start(submitted.take(PRIVATE_INPUTS + level + 1));
            assert(cs.state().commitments =~= next.commitments);
            assert(cs.state() == next);
        }
        bits.push(var);
        level += 1;
    }
    let mut siblings: Vec<Variable> = Vec::new();
    let mut level: usize = 0;
    while level < depth
        invariant
            level <= depth == proof_comms.len(),
            cs is Verifying,
            cs.state().wf(),
            comms.len() == PRIVATE_INPUTS,
            depth == leaf_index_comms.len(),
            submitted == submitted_commitments(comms@, leaf_index_comms@, proof_comms@),
            cs.state() == verifier_start(submitted.take(PRIVATE_INPUTS + depth + level)),
            siblings.len() == level,
            forall|i: int|
                0 <= i < level ==> #[trigger] siblings@[i] == Variable::Committed(
                    (PRIVATE_INPUTS + depth + i) as usize,
                ),
        decreases depth - level,
    {
        let var = cs.commit_point(&proof_comms[level]);
        proof {
            let next = verifier_start(submitted.take(PRIVATE_INPUTS + depth + level + 1));
            assert(cs.state().commitments =~= next.commitments);
            assert(cs.state() == next);
        }
        siblings.push(var);
        level += 1;
    }
    proof {
        assert(submitted.take(PRIVATE_INPUTS + depth + depth) =~= submitted);
        let vars = MembershipVars {
            secret: secret_var,
            seed: seed_var,
            leaf: leaf_var,
            bits: bits@,
            siblings: siblings@,
        };
        assert(vars.bits =~= standard_vars(depth as nat).bits);
        assert(vars.siblings =~= standard_vars(depth as nat).siblings);
        assert(vars == standard_vars(depth as nat));
        lemma_verifier_commitments(hasher@, depth as nat, root@, nullifier_hash@, submitted);
    }
    membership_gadget(
        hasher,
        &mut cs,
        gens,
        root,
        nullifier_hash,
        secret_var,
        seed_var,
        leaf_var,
        &bits,
        &siblings,
    );
    cs
}

/// Checks a membership proof against a root and a nullifier, for a tree
/// of the given depth over the given hash. A submission of the wrong shape
/// is refused before anything is hashed or checked. Of a submission of the
/// right shape, proof bytes that do not parse are `InvalidZkProof`, and
/// only those; a proof is not accepted with fewer generators than the
/// gates of the circuit padded to a power of two.
pub fn verify_zk(
    hasher: &Poseidon,
    gens: &Generators,
    label: &'static [u8],
    depth: usize,
    root: &FieldElement,
    comms: &Vec<[u8; 32]>,
    nullifier_hash: &FieldElement,
    proof_bytes: &[u8],
    leaf_index_comms: &Vec<[u8; 32]>,
    proof_comms: &Vec<[u8; 32]>,
) -> (r: Result<(), VerificationError>)
    requires
        hasher.wf(),
        hasher.width == HASH_WIDTH,
        membership_gates(hasher@, depth as nat) <= usize::MAX,
    ensures
        is_verdict_on(
            r,
            comms.len() as nat,
            leaf_index_comms.len() as nat,
            proof_comms.len() as nat,
            depth as nat,
            proof_bytes@,
        ),
        comms.len() == PRIVATE_INPUTS && leaf_index_comms.len() == depth && proof_comms.len()
            == depth ==> (r == Err::<(), VerificationError>(VerificationError::InvalidZkProof)
            <==> !proof_parses(proof_bytes@)),
        padded_gates(membership_gates(hasher@, depth as nat)) > gens.capacity() ==> r is Err,
{
    let ghost unread: Result<(), Rejection> = if proof_parses(proof_bytes@) {
        Err(Rejection::Rejected)
    } else {
        Err(Rejection::Malformed)
    };
    if comms.len() != PRIVATE_INPUTS {
        assert(Err::<(), VerificationError>(VerificationError::InvalidPrivateInputs)
            == verification_verdict(
            comms.len() as nat,
            leaf_index_comms.len() as nat,
            proof_comms.len() as nat,
            depth as nat,
            unread,
        ));
        return Err(VerificationError::InvalidPrivateInputs);
    }
    if leaf_index_comms.len() != depth || proof_comms.len() != depth {
        assert(Err::<(), VerificationError>(VerificationError::InvalidPathLength)
            == verification_verdict(
            comms.len() as nat,
            leaf_index_comms.len() as nat,
            proof_comms.len() as nat,
            depth as nat,
            unread,
        ));
        return Err(VerificationError::InvalidPathLength);
    }
    let cs = synthesize_verifier(
        hasher,
        gens,
        label,
        root,
        comms,
        nullifier_hash,
        leaf_index_comms,
        proof_comms,
    );
    let checked = cs.verify_proof(proof_bytes, gens);
    let r = verdict_of_proof(checked);
    assert(r == verification_verdict(
        comms.len() as nat,
        leaf_index_comms.len() as nat,
        proof_comms.len() as nat,
        depth as nat,
        checked,
    ));
    r
}

/// Checks a membership proof whose root and nullifier are given as
/// 32-byte encodings, each read little-endian and reduced modulo the group
/// order; otherwise as `verify_zk`.
pub fn verify_membership(
    hasher: &Poseidon,
    gens: &Generators,
    label: &'static [u8],
    depth: usize,
    root: &[u8; 32],
    comms: &Vec<[u8; 32]>,
    nullifier_hash: &[u8; 32],
    proof_bytes: &[u8],
    leaf_index_comms: &Vec<[u8; 32]>,
    proof_comms: &Vec<[u8; 32]>,
) -> (r: Result<(), VerificationError>)
    requires
        hasher.wf(),
        hasher.width == HASH_WIDTH,
        membership_gates(hasher@, depth as nat) <= usize::MAX,
    ensures
        is_verdict_on(
            r,
            comms.len() as nat,
            leaf_index_comms.len() as nat,
            proof_comms.len() as nat,
            depth as nat,
            proof_bytes@,
        ),
        comms.len() == PRIVATE_INPUTS && leaf_index_comms.len() == depth && proof_comms.len()
            == depth ==> (r == Err::<(), VerificationError>(VerificationError::InvalidZkProof)
            <==> !proof_parses(proof_bytes@)),
        padded_gates(membership_gates(hasher@, depth as nat)) > gens.capacity() ==> r is Err,
{
    let root = FieldElement::from_bytes_mod_order(*root);
    let nullifier_hash = FieldElement::from_bytes_mod_order(*nullifier_hash);
    verify_zk(
        hasher,
        gens,
        label,
        depth,
        &root,
        comms,
        &nullifier_hash,
        proof_bytes,
        leaf_index_comms,
        proof_comms,
    )
}

} // verus!

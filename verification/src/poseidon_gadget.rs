//! The Poseidon permutation as an arithmetic circuit.
//!
//! The circuit follows the permutation round by round. An S-box takes two
//! multiplication gates, the square and the cube; the multiplication by the
//! MDS matrix takes none, since it is linear: each word of the new state is
//! the linear combination of the old words with the coefficients of a row of
//! the matrix, merged by variable.

use crate::circuit::{
    lemma_simplify_in_range, scale_terms, simplify_terms, LinComb, Term, Variable,
};
use crate::field::FieldElement;
use crate::merge::simplify;
use crate::poseidon::{Poseidon, PoseidonParams, HASH_WIDTH, PADDING_CONST, ZERO_CONST};
use crate::r1cs::{pedersen_commitment, ConstraintSystem, CsState, Generators};
use vstd::prelude::*;

verus! {

/// The linear combination that is one variable.
pub open spec fn unit_term(v: Variable) -> Seq<Term> {
    seq![(v, 1nat)]
}

/// The circuit of one S-box: a gate that squares `input` and a gate that
/// multiplies the square by the left variable of the first gate, which is
/// constrained to `input`. The result is the output variable of the second
/// gate.
pub open spec fn sbox_circuit(s: CsState, input: Seq<Term>) -> (CsState, Seq<Term>) {
    let first = s.gates as usize;
    let squared = s.multiply(input, input);
    let second = squared.gates as usize;
    let cubed = squared.multiply(
        unit_term(Variable::MultiplierOutput(first)),
        unit_term(Variable::MultiplierLeft(first)),
    );
    (cubed, unit_term(Variable::MultiplierOutput(second)))
}

/// The circuit of the S-boxes of the first `n` words, one after the other.
pub open spec fn sbox_all_circuit(s: CsState, words: Seq<Seq<Term>>, n: nat) -> (
    CsState,
    Seq<Seq<Term>>,
)
    decreases n,
{
    if n == 0 {
        (s, Seq::empty())
    } else {
        let (before, outputs) = sbox_all_circuit(s, words, (n - 1) as nat);
        let (after, output) = sbox_circuit(before, words[n - 1]);
        (after, outputs.push(output))
    }
}

/// The first `n` words, each scaled by its coefficient in `row`, one after
/// the other.
pub open spec fn lc_dot_terms(row: Seq<nat>, words: Seq<Seq<Term>>, n: nat) -> Seq<Term>
    decreases n,
{
    if n == 0 {
        Seq::empty()
    } else {
        lc_dot_terms(row, words, (n - 1) as nat) + scale_terms(words[n - 1], row[n - 1])
    }
}

/// The product of a matrix and a vector of linear combinations: word `i`
/// is the inner product of row `i` with the vector, merged by variable.
pub open spec fn lc_mat_vec(m: Seq<Seq<nat>>, words: Seq<Seq<Term>>) -> Seq<Seq<Term>> {
    Seq::new(m.len(), |i: int| simplify_terms(lc_dot_terms(m[i], words, words.len())))
}

/// Whether every word speaks of variables that exist in the system.
pub open spec fn words_in_range(s: CsState, words: Seq<Seq<Term>>) -> bool {
    forall|i: int| 0 <= i < words.len() ==> s.in_range(#[trigger] words[i])
}

impl PoseidonParams {
    /// The number of gates of round `r`: two for each S-box.
    pub open spec fn round_gates(self, r: nat) -> nat {
        if self.is_full_round(r) {
            2 * self.width
        } else {
            2
        }
    }

    /// The number of gates of the first `n` rounds.
    pub open spec fn rounds_gates(self, n: nat) -> nat
        decreases n,
    {
        if n == 0 {
            0
        } else {
            self.rounds_gates((n - 1) as nat) + self.round_gates((n - 1) as nat)
        }
    }

    /// The number of gates of the permutation.
    pub open spec fn permute_gates(self) -> nat {
        self.rounds_gates(self.total_rounds())
    }

    /// The circuit of round `r`.
    pub open spec fn round_circuit(self, r: nat, s: CsState, words: Seq<Seq<Term>>) -> (
        CsState,
        Seq<Seq<Term>>,
    ) {
        if self.is_full_round(r) {
            let (after, outputs) = sbox_all_circuit(s, words, words.len());
            (after, lc_mat_vec(self.mds, outputs))
        } else {
            let (after, output) = sbox_circuit(s, words[0]);
            (after, lc_mat_vec(self.mds, words.update(0, output)))
        }
    }

    /// The circuit of the first `n` rounds.
    pub open spec fn rounds_circuit(self, s: CsState, words: Seq<Seq<Term>>, n: nat) -> (
        CsState,
        Seq<Seq<Term>>,
    )
        decreases n,
    {
        if n == 0 {
            (s, words)
        } else {
            let (before, state) = self.rounds_circuit(s, words, (n - 1) as nat);
            self.round_circuit((n - 1) as nat, before, state)
        }
    }

    /// The circuit of the permutation.
    pub open spec fn permute_circuit(self, s: CsState, words: Seq<Seq<Term>>) -> (
        CsState,
        Seq<Seq<Term>>,
    ) {
        self.rounds_circuit(s, words, self.total_rounds())
    }

    /// The circuit of a hash: the permutation, of which word 1 is the
    /// result.
    pub open spec fn hash_circuit(self, s: CsState, words: Seq<Seq<Term>>) -> (CsState, Seq<Term>) {
        let (after, outputs) = self.permute_circuit(s, words);
        (after, outputs[1])
    }

    /// The number of gates grows with the number of rounds.
    pub proof fn lemma_rounds_gates_monotone(self, n: nat, m: nat)
        requires
            n <= m,
        ensures
            self.rounds_gates(n) <= self.rounds_gates(m),
        decreases m,
    {
        if n < m {
            self.lemma_rounds_gates_monotone(n, (m - 1) as nat);
        }
    }
}

/// The system after four constants have been committed for a hash, and the
/// input of the hash: `[0, xl, xr, PADDING_CONST, 0, 0]` with a committed
/// variable for each constant. The constants are committed under the
/// blinding factor zero, so that a verifier can make the same commitments.
pub open spec fn hash_inputs_circuit(s: CsState, xl: Seq<Term>, xr: Seq<Term>) -> (
    CsState,
    Seq<Seq<Term>>,
) {
    let first = s.committed as usize;
    (
        s.commit_to(0, 0).commit_to(101, 0).commit_to(0, 0).commit_to(0, 0),
        seq![
            unit_term(Variable::Committed(first)),
            xl,
            xr,
            unit_term(Variable::Committed((first + 1) as usize)),
            unit_term(Variable::Committed((first + 2) as usize)),
            unit_term(Variable::Committed((first + 3) as usize)),
        ],
    )
}

/// The commitments to the constants of a hash: to 0, to the padding
/// constant, to 0 and to 0, in this order, each under the blinding factor
/// zero.
pub open spec fn constant_commitments() -> Seq<Seq<u8>> {
    seq![
        pedersen_commitment(0, 0),
        pedersen_commitment(101, 0),
        pedersen_commitment(0, 0),
        pedersen_commitment(0, 0),
    ]
}

/// What the constants of a hash are committed to. The system with the
/// input of a hash has four more commitments, the same for a prover and
/// for a verifier; a prover holds the values 0, 101, 0 and 0 behind them,
/// and four blinding factors zero.
pub proof fn lemma_hash_constants_committed(s: CsState, xl: Seq<Term>, xr: Seq<Term>)
    ensures
        hash_inputs_circuit(s, xl, xr).0.commitments == s.commitments + constant_commitments(),
        s.witness matches Some(w) ==> {
            &&& hash_inputs_circuit(s, xl, xr).0.blindings == s.blindings + seq![0nat, 0, 0, 0]
            &&& hash_inputs_circuit(s, xl, xr).0.witness matches Some(v) && v.committed
                == w.committed + seq![0nat, 101, 0, 0]
        },
        s.witness is None ==> hash_inputs_circuit(s, xl, xr).0.blindings == s.blindings,
{
    let after = hash_inputs_circuit(s, xl, xr).0;
    assert(after.commitments =~= s.commitments + constant_commitments());
    if let Some(w) = s.witness {
        assert(after.blindings =~= s.blindings + seq![0nat, 0, 0, 0]);
        assert(after.witness->0.committed =~= w.committed + seq![0nat, 101, 0, 0]);
    }
}

/// A linear combination in range stays in range when variables are added.
pub proof fn lemma_in_range_grows(terms: Seq<Term>, s: CsState, t: CsState)
    requires
        s.in_range(terms),
        s.committed <= t.committed,
        s.gates <= t.gates,
    ensures
        t.in_range(terms),
{
    assert forall|k: int| 0 <= k < terms.len() implies crate::circuit::var_in_range(
        (#[trigger] terms[k]).0,
        t.committed,
        t.gates,
    ) by {
        assert(crate::circuit::var_in_range(terms[k].0, s.committed, s.gates));
    }
}

/// The inner product of a row with words in range is in range.
pub proof fn lemma_dot_terms_in_range(row: Seq<nat>, words: Seq<Seq<Term>>, n: nat, s: CsState)
    requires
        n <= words.len(),
        words_in_range(s, words),
    ensures
        s.in_range(lc_dot_terms(row, words, n)),
    decreases n,
{
    if n > 0 {
        lemma_dot_terms_in_range(row, words, (n - 1) as nat, s);
        let head = lc_dot_terms(row, words, (n - 1) as nat);
        let tail = scale_terms(words[n - 1], row[n - 1]);
        assert(s.in_range(words[n - 1]));
        assert forall|k: int| 0 <= k < (head + tail).len() implies crate::circuit::var_in_range(
            (#[trigger] (head + tail)[k]).0,
            s.committed,
            s.gates,
        ) by {
            if k < head.len() {
                assert((head + tail)[k] == head[k]);
            } else {
                assert((head + tail)[k] == tail[k - head.len()]);
                assert(tail[k - head.len()].0 == words[n - 1][k - head.len()].0);
            }
        }
    }
}

/// The product of a matrix with words in range is in range.
pub proof fn lemma_mat_vec_in_range(m: Seq<Seq<nat>>, words: Seq<Seq<Term>>, s: CsState)
    requires
        words_in_range(s, words),
    ensures
        words_in_range(s, lc_mat_vec(m, words)),
{
    assert forall|i: int| 0 <= i < lc_mat_vec(m, words).len() implies s.in_range(
        #[trigger] lc_mat_vec(m, words)[i],
    ) by {
        lemma_dot_terms_in_range(m[i], words, words.len(), s);
        lemma_simplify_in_range(lc_dot_terms(m[i], words, words.len()), s.committed, s.gates);
    }
}

/// The product of a matrix and a vector of linear combinations: `r[i]` is
/// the sum over `j` of `lhs[i][j]` times `rhs[j]`, merged by variable.
pub fn mat_mul_lc(lhs: &Vec<Vec<FieldElement>>, rhs: Vec<LinComb>) -> (r: Vec<LinComb>)
    requires
        forall|i: int| 0 <= i < lhs.len() ==> (#[trigger] lhs@[i]).len() == rhs.len(),
    ensures
        r.len() == lhs.len(),
        r.deep_view() == lc_mat_vec(lhs.deep_view(), rhs.deep_view()),
{
    let mut out: Vec<LinComb> = Vec::new();
    let mut i: usize = 0;
    while i < lhs.len()
        invariant
            i <= lhs.len(),
            out.len() == i,
            forall|k: int| 0 <= k < lhs.len() ==> (#[trigger] lhs@[k]).len() == rhs.len(),
            forall|k: int|
                0 <= k < i ==> (#[trigger] out@[k])@ == lc_mat_vec(
                    lhs.deep_view(),
                    rhs.deep_view(),
                )[k],
        decreases lhs.len() - i,
    {
        let row = &lhs[i];
        let mut sum = LinComb::zero();
        let mut j: usize = 0;
        while j < rhs.len()
            invariant
                j <= rhs.len(),
                row.len() == rhs.len(),
                sum@ == lc_dot_terms(row.deep_view(), rhs.deep_view(), j as nat),
            decreases rhs.len() - j,
        {
            let scaled = rhs[j].scale(&row[j]);
            sum = sum.add(&scaled);
            j += 1;
        }
        assert(row.deep_view() == lhs.deep_view()[i as int]);
        out.push(simplify(sum));
        i += 1;
    }
    assert(out.deep_view() =~= lc_mat_vec(lhs.deep_view(), rhs.deep_view()));
    out
}

impl Poseidon {
    /// Adds the circuit of one S-box to the system and returns the linear
    /// combination that stands for the cube of `input_var`.
    pub fn synthesize_sbox(&self, cs: &mut ConstraintSystem, input_var: LinComb) -> (r: LinComb)
        requires
            old(cs).state().wf(),
            old(cs).state().in_range(input_var@),
            old(cs).state().gates + 2 <= usize::MAX,
        ensures
            (final(cs).state(), r@) == sbox_circuit(old(cs).state(), input_var@),
            final(cs).state().wf(),
            final(cs).state().in_range(r@),
            *final(cs) is Proving <==> *old(cs) is Proving,
    {
        let (i, _, sqr) = cs.multiply(&input_var, &input_var);
        let left = LinComb::from_variable(sqr);
        let right = LinComb::from_variable(i);
        let (_, _, cube) = cs.multiply(&left, &right);
        LinComb::from_variable(cube)
    }

    /// Adds the circuit of the S-boxes of all words to the system.
    fn synthesize_sbox_all(&self, cs: &mut ConstraintSystem, words: Vec<LinComb>) -> (r: Vec<
        LinComb,
    >)
        requires
            old(cs).state().wf(),
            words_in_range(old(cs).state(), words.deep_view()),
            old(cs).state().gates + 2 * words.len() <= usize::MAX,
        ensures
            (final(cs).state(), r.deep_view()) == sbox_all_circuit(
                old(cs).state(),
                words.deep_view(),
                words.len() as nat,
            ),
            r.len() == words.len(),
            final(cs).state().wf(),
            final(cs).state().committed == old(cs).state().committed,
            final(cs).state().gates == old(cs).state().gates + 2 * words.len(),
            words_in_range(final(cs).state(), r.deep_view()),
            *final(cs) is Proving <==> *old(cs) is Proving,
    {
        let ghost start = cs.state();
        let ghost inputs = words.deep_view();
        let mut out: Vec<LinComb> = Vec::new();
        let mut k: usize = 0;
        assert(out.deep_view() =~= Seq::<Seq<Term>>::empty());
        while k < words.len()
            invariant
                k <= words.len(),
                inputs == words.deep_view(),
                start == old(cs).state(),
                start.gates + 2 * words.len() <= usize::MAX,
                words_in_range(start, inputs),
                out.len() == k,
                (cs.state(), out.deep_view()) == sbox_all_circuit(start, inputs, k as nat),
                cs.state().wf(),
                cs.state().committed == start.committed,
                cs.state().gates == start.gates + 2 * k,
                words_in_range(cs.state(), out.deep_view()),
                *cs is Proving <==> *old(cs) is Proving,
            decreases words.len() - k,
        {
            let ghost before = cs.state();
            let ghost outputs = out.deep_view();
            let word = words[k].duplicate();
            proof {
                assert(start.in_range(inputs[k as int]));
                lemma_in_range_grows(inputs[k as int], start, before);
            }
            let cubed = self.synthesize_sbox(cs, word);
            out.push(cubed);
            proof {
                assert(out.deep_view() =~= outputs.push(cubed@));
                assert forall|i: int| 0 <= i < out.deep_view().len() implies cs.state().in_range(
                    #[trigger] out.deep_view()[i],
                ) by {
                    if i < k {
                        assert(before.in_range(outputs[i]));
                        lemma_in_range_grows(outputs[i], before, cs.state());
                    }
                }
            }
            k += 1;
        }
        out
    }

    /// Adds the circuit of the permutation to the system and returns the
    /// linear combinations that stand for the words of the result.
    pub fn permute_constraints(&self, cs: &mut ConstraintSystem, inputs: Vec<LinComb>) -> (r: Vec<
        LinComb,
    >)
        requires
            self.wf(),
            inputs.len() == self.width,
            old(cs).state().wf(),
            words_in_range(old(cs).state(), inputs.deep_view()),
            old(cs).state().gates + self@.permute_gates() <= usize::MAX,
        ensures
            (final(cs).state(), r.deep_view()) == self@.permute_circuit(
                old(cs).state(),
                inputs.deep_view(),
            ),
            r.len() == self.width,
            final(cs).state().wf(),
            final(cs).state().committed == old(cs).state().committed,
            final(cs).state().gates == old(cs).state().gates + self@.permute_gates(),
            words_in_range(final(cs).state(), r.deep_view()),
            *final(cs) is Proving <==> *old(cs) is Proving,
    {
        let ghost start = cs.state();
        let ghost words = inputs.deep_view();
        let rounds = self.full_rounds + self.partial_rounds;
        let full_rounds_per_side = self.full_rounds / 2;
        let mut current = inputs;
        let mut round: usize = 0;
        while round < rounds
            invariant
                round <= rounds,
                self.wf(),
                rounds == self.full_rounds + self.partial_rounds,
                full_rounds_per_side == self.full_rounds / 2,
                start == old(cs).state(),
                start.gates + self@.permute_gates() <= usize::MAX,
                current.len() == self.width,
                (cs.state(), current.deep_view()) == self@.rounds_circuit(
                    start,
                    words,
                    round as nat,
                ),
                cs.state().wf(),
                cs.state().committed == start.committed,
                cs.state().gates == start.gates + self@.rounds_gates(round as nat),
                words_in_range(cs.state(), current.deep_view()),
                *cs is Proving <==> *old(cs) is Proving,
            decreases rounds - round,
        {
            let ghost before = cs.state();
            let ghost state = current.deep_view();
            proof {
                self@.lemma_rounds_gates_monotone((round + 1) as nat, rounds as nat);
            }
            // Sub words layer.
            let full = round < full_rounds_per_side || round >= rounds - full_rounds_per_side;
            assert(full == self@.is_full_round(round as nat));
            if full {
                current = self.synthesize_sbox_all(cs, current);
            } else {
                let first = current[0].duplicate();
                assert(before.in_range(state[0]));
                let cubed = self.synthesize_sbox(cs, first);
                current[0] = cubed;
                proof {
                    assert(current.deep_view() =~= state.update(0, cubed@));
                    assert forall|i: int|
                        0 <= i < current.deep_view().len() implies cs.state().in_range(
                        #[trigger] current.deep_view()[i],
                    ) by {
                        if i > 0 {
                            assert(before.in_range(state[i]));
                            lemma_in_range_grows(state[i], before, cs.state());
                        }
                    }
                }
            }

            // Mix layer.
            proof {
                assert forall|i: int| 0 <= i < self.mds_matrix.len() implies (
                #[trigger] self.mds_matrix@[i]).len() == current.len() by {
                    assert(self@.mds[i].len() == self.width);
                }
                lemma_mat_vec_in_range(self@.mds, current.deep_view(), cs.state());
            }
            current = mat_mul_lc(&self.mds_matrix, current);
            round += 1;
        }
        current
    }

    /// Adds the circuit of a hash to the system: the permutation of
    /// `inputs`, of which word 1 is returned.
    pub fn constrain(&self, cs: &mut ConstraintSystem, inputs: Vec<LinComb>) -> (r: LinComb)
        requires
            self.wf(),
            self.width >= 2,
            inputs.len() == self.width,
            old(cs).state().wf(),
            words_in_range(old(cs).state(), inputs.deep_view()),
            old(cs).state().gates + self@.permute_gates() <= usize::MAX,
        ensures
            (final(cs).state(), r@) == self@.hash_circuit(old(cs).state(), inputs.deep_view()),
            final(cs).state().wf(),
            final(cs).state().committed == old(cs).state().committed,
            final(cs).state().gates == old(cs).state().gates + self@.permute_gates(),
            final(cs).state().in_range(r@),
            *final(cs) is Proving <==> *old(cs) is Proving,
    {
        let permutation_output = self.permute_constraints(cs, inputs);
        assert(cs.state().in_range(permutation_output.deep_view()[1]));
        permutation_output[1].duplicate()
    }

    /// Commits the constants of a hash input to a prover, with blinding
    /// factor zero, and returns the input `[0, xl, xr, PADDING_CONST, 0, 0]`.
    pub fn prover_constrain_inputs(prover: &mut ConstraintSystem, xl: LinComb, xr: LinComb) -> (r:
        Vec<LinComb>)
        requires
            *old(prover) is Proving,
            old(prover).state().wf(),
        ensures
            (final(prover).state(), r.deep_view()) == hash_inputs_circuit(
                old(prover).state(),
                xl@,
                xr@,
            ),
            final(prover).state().commitments == old(prover).state().commitments
                + constant_commitments(),
            r.len() == HASH_WIDTH,
            final(prover).state().wf(),
            final(prover).state().gates == old(prover).state().gates,
            old(prover).state().in_range(xl@) && old(prover).state().in_range(xr@) ==> words_in_range(
                final(prover).state(),
                r.deep_view(),
            ),
            *final(prover) is Proving,
    {
        let ghost start = prover.state();
        proof {
            lemma_hash_constants_committed(start, xl@, xr@);
        }
        let zero = FieldElement::from_u64(ZERO_CONST);
        let padding = FieldElement::from_u64(PADDING_CONST);
        let (_, var1) = prover.commit_value(&zero, &zero);
        let (_, var4) = prover.commit_value(&padding, &zero);
        let (_, var5) = prover.commit_value(&zero, &zero);
        let (_, var6) = prover.commit_value(&zero, &zero);
        let inputs = vec![
            LinComb::from_variable(var1),
            xl,
            xr,
            LinComb::from_variable(var4),
            LinComb::from_variable(var5),
            LinComb::from_variable(var6),
        ];
        proof {
            assert(inputs.deep_view() =~= hash_inputs_circuit(start, xl@, xr@).1);
            if start.in_range(xl@) && start.in_range(xr@) {
                lemma_in_range_grows(xl@, start, prover.state());
                lemma_in_range_grows(xr@, start, prover.state());
            }
        }
        inputs
    }

    /// Commits the constants of a hash input to a verifier, as commitments
    /// with blinding factor zero, and returns the input
    /// `[0, xl, xr, PADDING_CONST, 0, 0]`.
    pub fn verifier_constrain_inputs(
        verifier: &mut ConstraintSystem,
        pc_gens: &Generators,
        xl: LinComb,
        xr: LinComb,
    ) -> (r: Vec<LinComb>)
        requires
            *old(verifier) is Verifying,
            old(verifier).state().wf(),
        ensures
            (final(verifier).state(), r.deep_view()) == hash_inputs_circuit(
                old(verifier).state(),
                xl@,
                xr@,
            ),
            final(verifier).state().commitments == old(verifier).state().commitments
                + constant_commitments(),
            r.len() == HASH_WIDTH,
            final(verifier).state().wf(),
            final(verifier).state().gates == old(verifier).state().gates,
            old(verifier).state().in_range(xl@) && old(verifier).state().in_range(xr@) ==> words_in_range(
                final(verifier).state(),
                r.deep_view(),
            ),
            *final(verifier) is Verifying,
    {
        let ghost start = verifier.state();
        proof {
            lemma_hash_constants_committed(start, xl@, xr@);
        }
        let zero = FieldElement::from_u64(ZERO_CONST);
        let padding = FieldElement::from_u64(PADDING_CONST);
        let com_zero = pc_gens.commit(&zero, &zero);
        let com_pad = pc_gens.commit(&padding, &zero);
        let var1 = verifier.commit_point(&com_zero);
        let var4 = verifier.commit_point(&com_pad);
        let var5 = verifier.commit_point(&com_zero);
        let var6 = verifier.commit_point(&com_zero);
        let inputs = vec![
            LinComb::from_variable(var1),
            xl,
            xr,
            LinComb::from_variable(var4),
            LinComb::from_variable(var5),
            LinComb::from_variable(var6),
        ];
        proof {
            assert(inputs.deep_view() =~= hash_inputs_circuit(start, xl@, xr@).1);
            if start.in_range(xl@) && start.in_range(xr@) {
                lemma_in_range_grows(xl@, start, verifier.state());
                lemma_in_range_grows(xr@, start, verifier.state());
            }
        }
        inputs
    }

    /// Adds the circuit of the hash of `xl` and `xr` to a prover.
    pub fn constrain_prover(&self, prover: &mut ConstraintSystem, xl: LinComb, xr: LinComb) -> (r:
        LinComb)
        requires
            self.wf(),
            self.width == HASH_WIDTH,
            *old(prover) is Proving,
            old(prover).state().wf(),
            old(prover).state().in_range(xl@),
            old(prover).state().in_range(xr@),
            old(prover).state().gates + self@.permute_gates() <= usize::MAX,
        ensures
            (final(prover).state(), r@) == hash2_circuit(self@, old(prover).state(), xl@, xr@),
            final(prover).state().wf(),
            final(prover).state().committed == old(prover).state().committed + 4,
            final(prover).state().gates == old(prover).state().gates + self@.permute_gates(),
            final(prover).state().in_range(r@),
            *final(prover) is Proving,
    {
        let inputs = Poseidon::prover_constrain_inputs(prover, xl, xr);
        self.constrain(prover, inputs)
    }

    /// Adds the circuit of the hash of `xl` and `xr` to a verifier.
    pub fn constrain_verifier(
        &self,
        verifier: &mut ConstraintSystem,
        pc_gens: &Generators,
        xl: LinComb,
        xr: LinComb,
    ) -> (r: LinComb)
        requires
            self.wf(),
            self.width == HASH_WIDTH,
            *old(verifier) is Verifying,
            old(verifier).state().wf(),
            old(verifier).state().in_range(xl@),
            old(verifier).state().in_range(xr@),
            old(verifier).state().gates + self@.permute_gates() <= usize::MAX,
        ensures
            (final(verifier).state(), r@) == hash2_circuit(self@, old(verifier).state(), xl@, xr@),
            final(verifier).state().wf(),
            final(verifier).state().committed == old(verifier).state().committed + 4,
            final(verifier).state().gates == old(verifier).state().gates + self@.permute_gates(),
            final(verifier).state().in_range(r@),
            *final(verifier) is Verifying,
    {
        let inputs = Poseidon::verifier_constrain_inputs(verifier, pc_gens, xl, xr);
        self.constrain(verifier, inputs)
    }

    /// Adds the circuit of the hash of `xl` and `xr` to a system of either
    /// role.
    pub fn constrain_hash(
        &self,
        cs: &mut ConstraintSystem,
        pc_gens: &Generators,
        xl: LinComb,
        xr: LinComb,
    ) -> (r: LinComb)
        requires
            self.wf(),
            self.width == HASH_WIDTH,
            old(cs).state().wf(),
            old(cs).state().in_range(xl@),
            old(cs).state().in_range(xr@),
            old(cs).state().gates + self@.permute_gates() <= usize::MAX,
        ensures
            (final(cs).state(), r@) == hash2_circuit(self@, old(cs).state(), xl@, xr@),
            final(cs).state().wf(),
            final(cs).state().committed == old(cs).state().committed + 4,
            final(cs).state().gates == old(cs).state().gates + self@.permute_gates(),
            final(cs).state().in_range(r@),
            *final(cs) is Proving <==> *old(cs) is Proving,
    {
        let proving = match cs {
            ConstraintSystem::Proving(_) => true,
            ConstraintSystem::Verifying(_) => false,
        };
        if proving {
            self.constrain_prover(cs, xl, xr)
        } else {
            self.constrain_verifier(cs, pc_gens, xl, xr)
        }
    }
}

/// The circuit of the 2-to-1 hash of `xl` and `xr`: four committed
/// constants, then the permutation.
pub open spec fn hash2_circuit(p: PoseidonParams, s: CsState, xl: Seq<Term>, xr: Seq<Term>) -> (
    CsState,
    Seq<Term>,
) {
    let (committed, inputs) = hash_inputs_circuit(s, xl, xr);
    p.hash_circuit(committed, inputs)
}

} // verus!

//! What the Poseidon circuit computes.
//!
//! Soundness: under every assignment that satisfies the system after the
//! circuit has been added, the results of the circuit evaluate to the
//! permutation of what its inputs evaluate to. Completeness: the values that
//! a prover gives to the new gates satisfy the new constraints, so a prover
//! whose values satisfied the system before still has satisfying values
//! after.

use crate::circuit::{
    eval, lemma_cube_by_squaring, lemma_eval_concat, lemma_eval_extends, lemma_eval_push,
    lemma_eval_reduced, lemma_eval_scale, lemma_eval_unit, lemma_field_cancel,
    lemma_field_mul_assoc, lemma_simplify_eval, scale_terms, Assignment, Term, Variable,
};
use crate::field::{field_add, field_mul, group_order};
use crate::poseidon::{cube, dot_sum, mat_vec, PoseidonParams, HASH_WIDTH};
use crate::poseidon_gadget::{
    hash2_circuit, hash_inputs_circuit, lc_dot_terms, lc_mat_vec, lemma_in_range_grows,
    lemma_mat_vec_in_range, sbox_all_circuit, sbox_circuit, unit_term, words_in_range,
};
use crate::r1cs::{gate_witness, minus_one, pedersen_commitment, CsState};
use vstd::arithmetic::div_mod::{lemma_add_mod_noop, lemma_small_mod};
use vstd::prelude::*;

verus! {

/// The four constants of a hash input have their values at the committed
/// variables from index `at` on.
pub open spec fn hash_constants_at(a: Assignment, at: int) -> bool {
    &&& a.committed[at] == 0
    &&& a.committed[at + 1] == 101
    &&& a.committed[at + 2] == 0
    &&& a.committed[at + 3] == 0
}

/// What each word evaluates to.
pub open spec fn eval_words(a: Assignment, words: Seq<Seq<Term>>) -> Seq<nat> {
    words.map_values(|w: Seq<Term>| eval(a, w))
}

/// An assignment that satisfies a system after a gate has been added
/// satisfies the system before, and gives the new gate the values of its
/// inputs and their product.
pub proof fn lemma_gate_sound(s: CsState, left: Seq<Term>, right: Seq<Term>, a: Assignment)
    requires
        s.gates < usize::MAX,
        s.multiply(left, right).satisfied_by(a),
    ensures
        s.satisfied_by(a),
        a.left[s.gates as int] == eval(a, left),
        a.right[s.gates as int] == eval(a, right),
        a.output[s.gates as int] == field_mul(eval(a, left), eval(a, right)),
{
    let t = s.multiply(left, right);
    let g = s.gates as int;
    let n = s.constraints.len() as int;
    let c1 = left.push((Variable::MultiplierLeft(s.gates as usize), minus_one()));
    let c2 = right.push((Variable::MultiplierRight(s.gates as usize), minus_one()));
    assert(t.constraints[n] == c1);
    assert(t.constraints[n + 1] == c2);
    assert(eval(a, t.constraints[n]) == 0);
    assert(eval(a, t.constraints[n + 1]) == 0);
    lemma_eval_push(a, left, (Variable::MultiplierLeft(s.gates as usize), minus_one()));
    lemma_eval_push(a, right, (Variable::MultiplierRight(s.gates as usize), minus_one()));
    lemma_eval_reduced(a, left);
    lemma_eval_reduced(a, right);
    assert(a.left[g] < group_order());
    assert(a.right[g] < group_order());
    lemma_field_cancel(eval(a, left), a.left[g]);
    lemma_field_cancel(eval(a, right), a.right[g]);
    assert(a.output[g] == field_mul(a.left[g], a.right[g]));
    assert forall|k: int| 0 <= k < s.constraints.len() implies eval(
        a,
        #[trigger] s.constraints[k],
    ) == 0 by {
        assert(t.constraints[k] == s.constraints[k]);
    }
}

/// Under an assignment that satisfies the system with the circuit of an
/// S-box, the result of the circuit evaluates to the cube of what the input
/// evaluates to.
pub proof fn lemma_sbox_sound(s: CsState, input: Seq<Term>, a: Assignment)
    requires
        s.gates + 2 <= usize::MAX,
        sbox_circuit(s, input).0.satisfied_by(a),
    ensures
        s.satisfied_by(a),
        eval(a, sbox_circuit(s, input).1) == cube(eval(a, input)),
{
    let first = s.gates as usize;
    let squared = s.multiply(input, input);
    let second = squared.gates as usize;
    let sqr = unit_term(Variable::MultiplierOutput(first));
    let i = unit_term(Variable::MultiplierLeft(first));
    lemma_gate_sound(squared, sqr, i, a);
    lemma_gate_sound(s, input, input, a);
    let e = eval(a, input);
    lemma_eval_unit(a, Variable::MultiplierOutput(first));
    lemma_eval_unit(a, Variable::MultiplierLeft(first));
    lemma_eval_unit(a, Variable::MultiplierOutput(second));
    assert(a.output[first as int] < group_order());
    assert(a.left[first as int] < group_order());
    assert(a.output[second as int] < group_order());
    lemma_small_mod(a.output[first as int], group_order());
    lemma_small_mod(a.left[first as int], group_order());
    lemma_small_mod(a.output[second as int], group_order());
    lemma_cube_by_squaring(e);
}

/// The circuit of `n` S-boxes adds two gates for each and no committed
/// variable, and has `n` results.
pub proof fn lemma_sbox_all_shape(s: CsState, words: Seq<Seq<Term>>, n: nat)
    ensures
        sbox_all_circuit(s, words, n).0.gates == s.gates + 2 * n,
        sbox_all_circuit(s, words, n).0.committed == s.committed,
        sbox_all_circuit(s, words, n).0.commitments == s.commitments,
        sbox_all_circuit(s, words, n).1.len() == n,
    decreases n,
{
    if n > 0 {
        lemma_sbox_all_shape(s, words, (n - 1) as nat);
    }
}

/// Under an assignment that satisfies the system with the circuit of `n`
/// S-boxes, each result evaluates to the cube of what its input evaluates
/// to.
pub proof fn lemma_sbox_all_sound(s: CsState, words: Seq<Seq<Term>>, n: nat, a: Assignment)
    requires
        n <= words.len(),
        s.gates + 2 * n <= usize::MAX,
        sbox_all_circuit(s, words, n).0.satisfied_by(a),
    ensures
        s.satisfied_by(a),
        forall|i: int|
            0 <= i < n ==> eval(a, #[trigger] sbox_all_circuit(s, words, n).1[i]) == cube(
                eval(a, words[i]),
            ),
    decreases n,
{
    if n > 0 {
        let (before, outputs) = sbox_all_circuit(s, words, (n - 1) as nat);
        lemma_sbox_all_shape(s, words, (n - 1) as nat);
        lemma_sbox_sound(before, words[n - 1], a);
        lemma_sbox_all_sound(s, words, (n - 1) as nat, a);
        let outs = sbox_all_circuit(s, words, n).1;
        assert forall|i: int| 0 <= i < n implies eval(a, #[trigger] outs[i]) == cube(
            eval(a, words[i]),
        ) by {
            if i < n - 1 {
                assert(outs[i] == outputs[i]);
            }
        }
    }
}

/// The inner product of a row with linear combinations evaluates to the
/// inner product of the row with what they evaluate to.
pub proof fn lemma_dot_eval(a: Assignment, row: Seq<nat>, words: Seq<Seq<Term>>, n: nat)
    requires
        n <= words.len(),
    ensures
        eval(a, lc_dot_terms(row, words, n)) == dot_sum(row, eval_words(a, words), n)
            % group_order(),
    decreases n,
{
    if n == 0 {
        lemma_small_mod(0, group_order());
    } else {
        let head = lc_dot_terms(row, words, (n - 1) as nat);
        let tail = scale_terms(words[n - 1], row[n - 1]);
        let e = eval(a, words[n - 1]);
        let r = row[n - 1];
        let sum = dot_sum(row, eval_words(a, words), (n - 1) as nat);
        lemma_dot_eval(a, row, words, (n - 1) as nat);
        lemma_eval_concat(a, head, tail);
        lemma_eval_scale(a, words[n - 1], r);
        lemma_field_mul_assoc(e, r, 0);
        lemma_add_mod_noop(sum as int, (r * e) as int, group_order() as int);
        lemma_small_mod(field_mul(r, e), group_order());
        assert(eval_words(a, words)[n - 1] == e);
        assert(field_add(sum % group_order(), field_mul(r, e)) == (sum + r * e) % group_order());
    }
}

/// The product of a matrix with linear combinations evaluates to the
/// product of the matrix with what they evaluate to.
pub proof fn lemma_mat_vec_eval(a: Assignment, m: Seq<Seq<nat>>, words: Seq<Seq<Term>>)
    ensures
        eval_words(a, lc_mat_vec(m, words)) == mat_vec(m, eval_words(a, words)),
{
    let left = eval_words(a, lc_mat_vec(m, words));
    let right = mat_vec(m, eval_words(a, words));
    assert forall|i: int| 0 <= i < m.len() implies left[i] == right[i] by {
        lemma_dot_eval(a, m[i], words, words.len());
        lemma_simplify_eval(a, lc_dot_terms(m[i], words, words.len()));
    }
    assert(left =~= right);
}

impl PoseidonParams {
    /// The circuit of `n` rounds adds the gates of the rounds and no
    /// committed variable, and keeps the number of words.
    pub proof fn lemma_rounds_shape(self, s: CsState, words: Seq<Seq<Term>>, n: nat)
        requires
            self.wf(),
            words.len() == self.width,
        ensures
            self.rounds_circuit(s, words, n).0.gates == s.gates + self.rounds_gates(n),
            self.rounds_circuit(s, words, n).0.committed == s.committed,
            self.rounds_circuit(s, words, n).0.commitments == s.commitments,
            self.rounds_circuit(s, words, n).1.len() == self.width,
        decreases n,
    {
        if n > 0 {
            self.lemma_rounds_shape(s, words, (n - 1) as nat);
            let (before, state) = self.rounds_circuit(s, words, (n - 1) as nat);
            lemma_sbox_all_shape(before, state, state.len());
        }
    }

    /// Under an assignment that satisfies the system with the circuit of a
    /// round, the results evaluate to the round applied to what the inputs
    /// evaluate to.
    pub proof fn lemma_round_sound(self, r: nat, s: CsState, words: Seq<Seq<Term>>, a: Assignment)
        requires
            words.len() == self.width,
            self.width >= 1,
            s.gates + self.round_gates(r) <= usize::MAX,
            self.round_circuit(r, s, words).0.satisfied_by(a),
        ensures
            s.satisfied_by(a),
            eval_words(a, self.round_circuit(r, s, words).1) == self.round(
                r,
                eval_words(a, words),
            ),
    {
        let values = eval_words(a, words);
        if self.is_full_round(r) {
            let (after, outputs) = sbox_all_circuit(s, words, words.len());
            lemma_sbox_all_shape(s, words, words.len());
            lemma_sbox_all_sound(s, words, words.len(), a);
            lemma_mat_vec_eval(a, self.mds, outputs);
            assert(eval_words(a, outputs) =~= values.map_values(|x: nat| cube(x)));
        } else {
            let (after, output) = sbox_circuit(s, words[0]);
            lemma_sbox_sound(s, words[0], a);
            lemma_mat_vec_eval(a, self.mds, words.update(0, output));
            assert(eval_words(a, words.update(0, output)) =~= values.update(0, cube(values[0])));
        }
    }

    /// Under an assignment that satisfies the system with the circuit of
    /// `n` rounds, the results evaluate to the `n` rounds applied to what
    /// the inputs evaluate to.
    pub proof fn lemma_rounds_sound(self, s: CsState, words: Seq<Seq<Term>>, n: nat, a: Assignment)
        requires
            self.wf(),
            words.len() == self.width,
            s.gates + self.rounds_gates(n) <= usize::MAX,
            self.rounds_circuit(s, words, n).0.satisfied_by(a),
        ensures
            s.satisfied_by(a),
            eval_words(a, self.rounds_circuit(s, words, n).1) == self.rounds(
                eval_words(a, words),
                n,
            ),
        decreases n,
    {
        if n > 0 {
            let (before, state) = self.rounds_circuit(s, words, (n - 1) as nat);
            self.lemma_rounds_shape(s, words, (n - 1) as nat);
            self.lemma_round_sound((n - 1) as nat, before, state, a);
            self.lemma_rounds_sound(s, words, (n - 1) as nat, a);
        }
    }

    /// Under an assignment that satisfies the system with the circuit of
    /// the permutation, the results evaluate to the permutation of what the
    /// inputs evaluate to.
    pub proof fn lemma_permute_sound(self, s: CsState, words: Seq<Seq<Term>>, a: Assignment)
        requires
            self.wf(),
            words.len() == self.width,
            s.gates + self.permute_gates() <= usize::MAX,
            self.permute_circuit(s, words).0.satisfied_by(a),
        ensures
            s.satisfied_by(a),
            eval_words(a, self.permute_circuit(s, words).1) == self.permute(eval_words(a, words)),
    {
        self.lemma_rounds_sound(s, words, self.total_rounds(), a);
    }

    /// Under an assignment that satisfies the system with the circuit of a
    /// hash, and gives the four committed constants their values, the
    /// result evaluates to the hash of what the two inputs evaluate to.
    pub proof fn lemma_hash2_sound(self, s: CsState, xl: Seq<Term>, xr: Seq<Term>, a: Assignment)
        requires
            self.wf(),
            self.width == HASH_WIDTH,
            s.committed + 4 <= usize::MAX,
            s.gates + self.permute_gates() <= usize::MAX,
            hash2_circuit(self, s, xl, xr).0.satisfied_by(a),
            hash_constants_at(a, s.committed as int),
        ensures
            s.satisfied_by(a),
            eval(a, hash2_circuit(self, s, xl, xr).1) == self.hash2(eval(a, xl), eval(a, xr)),
    {
        let (committed, inputs) = hash_inputs_circuit(s, xl, xr);
        let first = s.committed as usize;
        self.lemma_permute_sound(committed, inputs, a);
        lemma_eval_unit(a, Variable::Committed(first));
        lemma_eval_unit(a, Variable::Committed((first + 1) as usize));
        lemma_eval_unit(a, Variable::Committed((first + 2) as usize));
        lemma_eval_unit(a, Variable::Committed((first + 3) as usize));
        lemma_small_mod(0, group_order());
        lemma_small_mod(101, group_order());
        assert(eval_words(a, inputs) =~= seq![
            0nat,
            eval(a, xl),
            eval(a, xr),
            101nat,
            0nat,
            0nat,
        ]);
        let outputs = self.permute_circuit(committed, inputs).1;
        self.lemma_rounds_shape(committed, inputs, self.total_rounds());
        assert(eval_words(a, outputs)[1] == eval(a, outputs[1]));
        assert(committed.satisfied_by(a));
        assert(committed.constraints == s.constraints);
        assert forall|k: int| 0 <= k < s.constraints.len() implies eval(
            a,
            #[trigger] s.constraints[k],
        ) == 0 by {
            assert(eval(a, committed.constraints[k]) == 0);
        }
    }
}

/// A prover's system in good order: it is well formed and the prover's
/// values satisfy it.
pub open spec fn witnessed(s: CsState) -> bool {
    &&& s.wf()
    &&& s.witness.is_some()
    &&& s.satisfied_by(s.witness->0)
}

/// Extending is transitive.
pub proof fn lemma_extends_transitive(a: Assignment, b: Assignment, c: Assignment)
    requires
        c.extends(b),
        b.extends(a),
    ensures
        c.extends(a),
{
    assert(a.committed.is_prefix_of(c.committed)) by {
        assert(a.committed =~= c.committed.subrange(0, a.committed.len() as int)) by {
            assert(a.committed =~= b.committed.subrange(0, a.committed.len() as int));
            assert(b.committed =~= c.committed.subrange(0, b.committed.len() as int));
        }
    }
    assert(a.left.is_prefix_of(c.left)) by {
        assert(a.left =~= b.left.subrange(0, a.left.len() as int));
        assert(b.left =~= c.left.subrange(0, b.left.len() as int));
        assert(a.left =~= c.left.subrange(0, a.left.len() as int));
    }
    assert(a.right.is_prefix_of(c.right)) by {
        assert(a.right =~= b.right.subrange(0, a.right.len() as int));
        assert(b.right =~= c.right.subrange(0, b.right.len() as int));
        assert(a.right =~= c.right.subrange(0, a.right.len() as int));
    }
    assert(a.output.is_prefix_of(c.output)) by {
        assert(a.output =~= b.output.subrange(0, a.output.len() as int));
        assert(b.output =~= c.output.subrange(0, b.output.len() as int));
        assert(a.output =~= c.output.subrange(0, a.output.len() as int));
    }
}

/// What the words evaluate to does not change when values are added for
/// new variables.
pub proof fn lemma_eval_words_extends(
    s: CsState,
    small: Assignment,
    large: Assignment,
    words: Seq<Seq<Term>>,
)
    requires
        s.wf(),
        s.witness == Some(small),
        large.extends(small),
        words_in_range(s, words),
    ensures
        eval_words(large, words) == eval_words(small, words),
{
    assert forall|i: int| 0 <= i < words.len() implies eval(large, words[i]) == eval(
        small,
        words[i],
    ) by {
        assert(s.in_range(words[i]));
        lemma_eval_extends(small, large, words[i]);
    }
    assert(eval_words(large, words) =~= eval_words(small, words));
}

/// A prover's values still satisfy its system after a committed variable
/// with a reduced value has been added.
pub proof fn lemma_commit_complete(s: CsState, value: nat, blinding: nat, commitment: Seq<u8>)
    requires
        witnessed(s),
        value < group_order(),
    ensures
        witnessed(s.commit(value, blinding, commitment)),
        s.commit(value, blinding, commitment).witness->0.extends(s.witness->0),
{
    let w = s.witness->0;
    let t = s.commit(value, blinding, commitment);
    let v = t.witness->0;
    assert(v.extends(w)) by {
        assert(w.committed =~= v.committed.subrange(0, w.committed.len() as int));
        assert(w.left =~= v.left.subrange(0, w.left.len() as int));
        assert(w.right =~= v.right.subrange(0, w.right.len() as int));
        assert(w.output =~= v.output.subrange(0, w.output.len() as int));
    }
    assert forall|k: int| 0 <= k < t.constraints.len() implies t.in_range(
        #[trigger] t.constraints[k],
    ) && eval(v, t.constraints[k]) == 0 by {
        assert(s.in_range(s.constraints[k]));
        lemma_in_range_grows(s.constraints[k], s, t);
        lemma_eval_extends(w, v, s.constraints[k]);
    }
}

/// A prover's values still satisfy its system after a gate has been added:
/// the prover gives the new gate the values of its inputs and their product.
pub proof fn lemma_gate_complete(s: CsState, left: Seq<Term>, right: Seq<Term>)
    requires
        witnessed(s),
        s.gates < usize::MAX,
        s.in_range(left),
        s.in_range(right),
    ensures
        witnessed(s.multiply(left, right)),
        s.multiply(left, right).witness->0.extends(s.witness->0),
{
    let w = s.witness->0;
    let t = s.multiply(left, right);
    let v = gate_witness(w, left, right);
    let g = s.gates as int;
    let n = s.constraints.len() as int;
    let l = eval(w, left);
    let r = eval(w, right);
    lemma_eval_reduced(w, left);
    lemma_eval_reduced(w, right);
    crate::circuit::lemma_field_reduced_args(l, r);
    assert(v.extends(w)) by {
        assert(w.committed =~= v.committed.subrange(0, w.committed.len() as int));
        assert(w.left =~= v.left.subrange(0, w.left.len() as int));
        assert(w.right =~= v.right.subrange(0, w.right.len() as int));
        assert(w.output =~= v.output.subrange(0, w.output.len() as int));
    }
    assert(v.multiplies()) by {
        assert forall|i: int| 0 <= i < v.left.len() implies #[trigger] v.output[i] == field_mul(
            v.left[i],
            v.right[i],
        ) by {
            if i < g {
                assert(w.output[i] == field_mul(w.left[i], w.right[i]));
            }
        }
    }
    assert(v.reduced()) by {
        assert forall|i: int| 0 <= i < v.left.len() implies #[trigger] v.left[i] < group_order() by {
            if i < g {
                assert(w.left[i] < group_order());
            }
        }
        assert forall|i: int| 0 <= i < v.right.len() implies #[trigger] v.right[i]
            < group_order() by {
            if i < g {
                assert(w.right[i] < group_order());
            }
        }
        assert forall|i: int| 0 <= i < v.output.len() implies #[trigger] v.output[i]
            < group_order() by {
            if i < g {
                assert(w.output[i] < group_order());
            }
        }
    }
    lemma_eval_extends(w, v, left);
    lemma_eval_extends(w, v, right);
    lemma_eval_push(v, left, (Variable::MultiplierLeft(s.gates as usize), minus_one()));
    lemma_eval_push(v, right, (Variable::MultiplierRight(s.gates as usize), minus_one()));
    lemma_field_cancel(l, l);
    lemma_field_cancel(r, r);
    assert forall|k: int| 0 <= k < t.constraints.len() implies t.in_range(
        #[trigger] t.constraints[k],
    ) && eval(v, t.constraints[k]) == 0 by {
        if k < n {
            assert(t.constraints[k] == s.constraints[k]);
            assert(s.in_range(s.constraints[k]));
            lemma_in_range_grows(s.constraints[k], s, t);
            lemma_eval_extends(w, v, s.constraints[k]);
        } else if k == n {
            lemma_in_range_grows(left, s, t);
        } else {
            lemma_in_range_grows(right, s, t);
        }
    }
}

/// A prover's values still satisfy its system after the circuit of an
/// S-box has been added.
pub proof fn lemma_sbox_complete(s: CsState, input: Seq<Term>)
    requires
        witnessed(s),
        s.gates + 2 <= usize::MAX,
        s.in_range(input),
    ensures
        witnessed(sbox_circuit(s, input).0),
        sbox_circuit(s, input).0.witness->0.extends(s.witness->0),
        sbox_circuit(s, input).0.in_range(sbox_circuit(s, input).1),
        sbox_circuit(s, input).0.gates == s.gates + 2,
        sbox_circuit(s, input).0.committed == s.committed,
{
    let first = s.gates as usize;
    let squared = s.multiply(input, input);
    let sqr = unit_term(Variable::MultiplierOutput(first));
    let i = unit_term(Variable::MultiplierLeft(first));
    lemma_gate_complete(s, input, input);
    lemma_gate_complete(squared, sqr, i);
    lemma_extends_transitive(
        s.witness->0,
        squared.witness->0,
        sbox_circuit(s, input).0.witness->0,
    );
}

/// A prover's values still satisfy its system after the circuit of `n`
/// S-boxes has been added.
pub proof fn lemma_sbox_all_complete(s: CsState, words: Seq<Seq<Term>>, n: nat)
    requires
        witnessed(s),
        n <= words.len(),
        s.gates + 2 * n <= usize::MAX,
        words_in_range(s, words),
    ensures
        witnessed(sbox_all_circuit(s, words, n).0),
        sbox_all_circuit(s, words, n).0.witness->0.extends(s.witness->0),
        words_in_range(sbox_all_circuit(s, words, n).0, sbox_all_circuit(s, words, n).1),
    decreases n,
{
    if n == 0 {
        let w = s.witness->0;
        assert(w.extends(w)) by {
            assert(w.committed =~= w.committed.subrange(0, w.committed.len() as int));
            assert(w.left =~= w.left.subrange(0, w.left.len() as int));
            assert(w.right =~= w.right.subrange(0, w.right.len() as int));
            assert(w.output =~= w.output.subrange(0, w.output.len() as int));
        }
    } else {
        let (before, outputs) = sbox_all_circuit(s, words, (n - 1) as nat);
        let (after, output) = sbox_circuit(before, words[n - 1]);
        lemma_sbox_all_complete(s, words, (n - 1) as nat);
        lemma_sbox_all_shape(s, words, (n - 1) as nat);
        assert(s.in_range(words[n - 1]));
        lemma_in_range_grows(words[n - 1], s, before);
        lemma_sbox_complete(before, words[n - 1]);
        lemma_extends_transitive(s.witness->0, before.witness->0, after.witness->0);
        let outs = outputs.push(output);
        assert forall|i: int| 0 <= i < outs.len() implies after.in_range(#[trigger] outs[i]) by {
            if i < n - 1 {
                assert(before.in_range(outputs[i]));
                lemma_in_range_grows(outputs[i], before, after);
            }
        }
    }
}

impl PoseidonParams {
    /// A prover's values still satisfy its system after the circuit of a
    /// round has been added.
    pub proof fn lemma_round_complete(self, r: nat, s: CsState, words: Seq<Seq<Term>>)
        requires
            witnessed(s),
            words.len() == self.width,
            self.width >= 1,
            s.gates + self.round_gates(r) <= usize::MAX,
            words_in_range(s, words),
        ensures
            witnessed(self.round_circuit(r, s, words).0),
            self.round_circuit(r, s, words).0.witness->0.extends(s.witness->0),
            words_in_range(self.round_circuit(r, s, words).0, self.round_circuit(r, s, words).1),
    {
        if self.is_full_round(r) {
            let (after, outputs) = sbox_all_circuit(s, words, words.len());
            lemma_sbox_all_complete(s, words, words.len());
            lemma_mat_vec_in_range(self.mds, outputs, after);
        } else {
            let (after, output) = sbox_circuit(s, words[0]);
            assert(s.in_range(words[0]));
            lemma_sbox_complete(s, words[0]);
            let state = words.update(0, output);
            assert forall|i: int| 0 <= i < state.len() implies after.in_range(
                #[trigger] state[i],
            ) by {
                if i > 0 {
                    assert(s.in_range(words[i]));
                    lemma_in_range_grows(words[i], s, after);
                }
            }
            lemma_mat_vec_in_range(self.mds, state, after);
        }
    }

    /// A prover's values still satisfy its system after the circuit of `n`
    /// rounds has been added.
    pub proof fn lemma_rounds_complete(self, s: CsState, words: Seq<Seq<Term>>, n: nat)
        requires
            self.wf(),
            witnessed(s),
            words.len() == self.width,
            s.gates + self.rounds_gates(n) <= usize::MAX,
            words_in_range(s, words),
        ensures
            witnessed(self.rounds_circuit(s, words, n).0),
            self.rounds_circuit(s, words, n).0.witness->0.extends(s.witness->0),
            words_in_range(self.rounds_circuit(s, words, n).0, self.rounds_circuit(s, words, n).1),
        decreases n,
    {
        if n == 0 {
            let w = s.witness->0;
            assert(w.extends(w)) by {
                assert(w.committed =~= w.committed.subrange(0, w.committed.len() as int));
                assert(w.left =~= w.left.subrange(0, w.left.len() as int));
                assert(w.right =~= w.right.subrange(0, w.right.len() as int));
                assert(w.output =~= w.output.subrange(0, w.output.len() as int));
            }
        } else {
            let (before, state) = self.rounds_circuit(s, words, (n - 1) as nat);
            self.lemma_rounds_complete(s, words, (n - 1) as nat);
            self.lemma_rounds_shape(s, words, (n - 1) as nat);
            self.lemma_round_complete((n - 1) as nat, before, state);
            lemma_extends_transitive(
                s.witness->0,
                before.witness->0,
                self.rounds_circuit(s, words, n).0.witness->0,
            );
        }
    }

    /// After a prover has added the circuit of the permutation, its values
    /// satisfy the system as they did before, and under them the results
    /// evaluate to the permutation of what the inputs evaluated to.
    pub proof fn lemma_permute_witness(self, s: CsState, words: Seq<Seq<Term>>)
        requires
            self.wf(),
            witnessed(s),
            words.len() == self.width,
            s.gates + self.permute_gates() <= usize::MAX,
            words_in_range(s, words),
        ensures
            witnessed(self.permute_circuit(s, words).0),
            self.permute_circuit(s, words).0.witness->0.extends(s.witness->0),
            eval_words(
                self.permute_circuit(s, words).0.witness->0,
                self.permute_circuit(s, words).1,
            ) == self.permute(eval_words(s.witness->0, words)),
    {
        let (after, outputs) = self.permute_circuit(s, words);
        self.lemma_rounds_complete(s, words, self.total_rounds());
        self.lemma_permute_sound(s, words, after.witness->0);
        lemma_eval_words_extends(s, s.witness->0, after.witness->0, words);
    }

    /// After a prover has added the circuit of a hash, its values satisfy
    /// the system as they did before, and under them the result evaluates
    /// to the hash of what the two inputs evaluated to.
    pub proof fn lemma_hash2_witness(self, s: CsState, xl: Seq<Term>, xr: Seq<Term>)
        requires
            self.wf(),
            self.width == HASH_WIDTH,
            witnessed(s),
            s.committed + 4 <= usize::MAX,
            s.gates + self.permute_gates() <= usize::MAX,
            s.in_range(xl),
            s.in_range(xr),
        ensures
            witnessed(hash2_circuit(self, s, xl, xr).0),
            hash2_circuit(self, s, xl, xr).0.witness->0.extends(s.witness->0),
            hash2_circuit(self, s, xl, xr).0.in_range(hash2_circuit(self, s, xl, xr).1),
            eval(hash2_circuit(self, s, xl, xr).0.witness->0, hash2_circuit(self, s, xl, xr).1)
                == self.hash2(eval(s.witness->0, xl), eval(s.witness->0, xr)),
            hash_constants_at(hash2_circuit(self, s, xl, xr).0.witness->0, s.committed as int),
    {
        let (committed, inputs) = hash_inputs_circuit(s, xl, xr);
        let (after, result) = hash2_circuit(self, s, xl, xr);
        let w = s.witness->0;
        let c1 = s.commit_to(0, 0);
        let c2 = c1.commit_to(101, 0);
        let c3 = c2.commit_to(0, 0);
        lemma_commit_complete(s, 0, 0, pedersen_commitment(0, 0));
        lemma_commit_complete(c1, 101, 0, pedersen_commitment(101, 0));
        lemma_commit_complete(c2, 0, 0, pedersen_commitment(0, 0));
        lemma_commit_complete(c3, 0, 0, pedersen_commitment(0, 0));
        lemma_extends_transitive(w, c1.witness->0, c2.witness->0);
        lemma_extends_transitive(w, c2.witness->0, c3.witness->0);
        lemma_extends_transitive(w, c3.witness->0, committed.witness->0);
        lemma_in_range_grows(xl, s, committed);
        lemma_in_range_grows(xr, s, committed);
        assert(words_in_range(committed, inputs));
        self.lemma_rounds_complete(committed, inputs, self.total_rounds());
        self.lemma_rounds_shape(committed, inputs, self.total_rounds());
        lemma_extends_transitive(w, committed.witness->0, after.witness->0);
        let v = after.witness->0;
        let cw = committed.witness->0;
        let base = s.committed as int;
        assert(w.committed.len() == s.committed);
        assert(cw.committed == w.committed.push(0).push(101).push(0).push(0));
        assert(cw.committed[base] == 0 && cw.committed[base + 1] == 101 && cw.committed[base + 2]
            == 0 && cw.committed[base + 3] == 0);
        assert(v.extends(cw));
        assert(cw.committed =~= v.committed.subrange(0, cw.committed.len() as int));
        assert(v.committed.subrange(0, cw.committed.len() as int)[base] == v.committed[base]);
        assert(v.committed.subrange(0, cw.committed.len() as int)[base + 1] == v.committed[base
            + 1]);
        assert(v.committed.subrange(0, cw.committed.len() as int)[base + 2] == v.committed[base
            + 2]);
        assert(v.committed.subrange(0, cw.committed.len() as int)[base + 3] == v.committed[base
            + 3]);
        assert(v.committed[s.committed as int] == 0);
        assert(v.committed[s.committed as int + 1] == 101);
        assert(v.committed[s.committed as int + 2] == 0);
        assert(v.committed[s.committed as int + 3] == 0);
        self.lemma_hash2_sound(s, xl, xr, v);
        lemma_eval_extends(w, v, xl);
        lemma_eval_extends(w, v, xr);
        let outputs = self.permute_circuit(committed, inputs).1;
        assert(after.in_range(outputs[1]));
    }
}

} // verus!

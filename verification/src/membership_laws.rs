//! What the membership circuit proves.
//!
//! Under every assignment that satisfies the circuit, the leaf is the hash
//! of the secret and the seed, the nullifier is the hash of the seed with
//! itself, every position bit is 0 or 1, and the path that the bits and the
//! siblings describe leads from the leaf to the root. The statement about
//! the bits rests on the group order being prime, which is stated as a
//! hypothesis: a product in the field is zero only if a factor is.

use crate::circuit::{
    eval, lemma_eval_concat, lemma_eval_extends, lemma_eval_negate, lemma_eval_push,
    lemma_eval_reduced,
    lemma_eval_unit, lemma_field_reduced_args, lemma_field_sub_is_add_neg, lemma_field_units,
    negate_terms, var_in_range, Assignment, Term, Variable,
};
use crate::field::{field_add, field_mul, field_sub, group_order};
use crate::gadget_laws::{
    hash_constants_at, lemma_extends_transitive, lemma_gate_complete, lemma_gate_sound, witnessed,
};
use crate::membership::{
    commitments_to, constant_term, lemma_sum_in_range, lemma_unit_in_range, level_circuit,
    level_gates, membership_circuit, membership_gates, path_circuit, position_bit, prover_circuit,
    prover_inputs, prover_start, standard_vars, verifier_circuit, verifier_start, MembershipVars,
    PRIVATE_INPUTS,
};
use crate::merkle::{
    capacity, lemma_generated_path_verifies, merkle_root, node, path_of, path_root, MAX_DEPTH,
};
use crate::poseidon::{PoseidonParams, HASH_WIDTH};
use crate::poseidon_gadget::{
    constant_commitments, hash2_circuit, hash_inputs_circuit, lemma_hash_constants_committed,
    lemma_in_range_grows, sbox_all_circuit, unit_term,
};
use crate::r1cs::CsState;
use vstd::arithmetic::div_mod::{
    lemma_add_mod_noop_right, lemma_small_mod, lemma_sub_mod_noop_right,
};
use vstd::prelude::*;

verus! {

/// A product of reduced elements is zero only if a factor is zero. This
/// is so because the group order is prime, which this library does not
/// prove: the lemmas that need it take it as a premise, and their
/// conclusions hold only as far as it does.
pub open spec fn no_zero_divisors() -> bool {
    forall|x: nat, y: nat|
        x < group_order() && y < group_order() && #[trigger] field_mul(x, y) == 0 ==> x == 0 || y
            == 0
}

/// The constants of `count` hashes have their values at the committed
/// variables from index `from` on, four for each hash.
pub open spec fn hash_constants(a: Assignment, from: nat, count: nat) -> bool {
    forall|k: int| 0 <= k < count ==> #[trigger] hash_constants_at(a, from + 4 * k)
}

/// The path that an assignment gives to the bits and the siblings: at each
/// level, whether the node is a left child, which is when the bit is 0, and
/// the sibling.
pub open spec fn assigned_path(a: Assignment, bits: Seq<Variable>, siblings: Seq<Variable>) -> Seq<
    (bool, nat),
> {
    Seq::new(bits.len(), |i: int| (a.value(bits[i]) == 0, a.value(siblings[i])))
}

/// A constant evaluates to itself, reduced.
pub proof fn lemma_eval_constant(a: Assignment, c: nat)
    ensures
        eval(a, constant_term(c)) == c % group_order(),
{
    lemma_eval_push(a, Seq::<Term>::empty(), (Variable::One, c));
    assert(Seq::<Term>::empty().push((Variable::One, c)) =~= constant_term(c));
    lemma_field_units(c);
    lemma_field_units(c % group_order());
    vstd::arithmetic::div_mod::lemma_mod_twice(c as int, group_order() as int);
}

/// A difference of linear combinations evaluates to the difference of
/// their values.
pub proof fn lemma_eval_difference(a: Assignment, x: Seq<Term>, y: Seq<Term>)
    ensures
        eval(a, x + negate_terms(y)) == field_sub(eval(a, x), eval(a, y)),
{
    lemma_eval_concat(a, x, negate_terms(y));
    lemma_eval_negate(a, y);
    lemma_field_sub_is_add_neg(eval(a, x), eval(a, y));
}

/// A linear combination that is constrained to zero as a difference: the
/// two sides have the same value.
pub proof fn lemma_difference_zero(x: nat, y: nat)
    requires
        x < group_order(),
        y < group_order(),
        field_sub(x, y) == 0,
    ensures
        x == y,
{
    lemma_field_sub_is_add_neg(x, y);
    lemma_small_mod(x, group_order());
    lemma_field_units(y);
    lemma_small_mod(y, group_order());
}

/// With `shift = bit * (sibling - node)`, the pair `(node + shift, sibling
/// - shift)` is `(node, sibling)` for bit 0 and `(sibling, node)` for bit 1.
pub proof fn lemma_swap(bit: nat, node: nat, sibling: nat)
    requires
        bit == 0 || bit == 1,
        node < group_order(),
        sibling < group_order(),
    ensures
        ({
            let shift = field_mul(bit, field_sub(sibling, node));
            &&& field_add(node, shift) == if bit == 0 {
                node
            } else {
                sibling
            }
            &&& field_sub(sibling, shift) == if bit == 0 {
                sibling
            } else {
                node
            }
        }),
{
    let m = group_order() as int;
    let (n, s) = (node as int, sibling as int);
    let delta = field_sub(sibling, node);
    lemma_field_units(delta);
    lemma_field_sub_is_add_neg(sibling, node);
    lemma_small_mod(delta, group_order());
    lemma_small_mod(node, group_order());
    lemma_small_mod(sibling, group_order());
    if bit == 0 {
        lemma_field_units(node);
        assert(field_sub(sibling, 0) == sibling);
    } else {
        assert(field_mul(1, delta) == delta);
        lemma_add_mod_noop_right(n, s - n, m);
        assert(n + (s - n) == s);
        lemma_sub_mod_noop_right(s, s - n, m);
        assert(s - (s - n) == n);
    }
}

/// A reduced element `b` with `b * (1 - b) = 0` is 0 or 1.
///
/// Premise, not proved here: `no_zero_divisors()`, the primality of the
/// group order.
pub proof fn lemma_boolean(b: nat)
    requires
        no_zero_divisors(),
        b < group_order(),
        field_mul(b, field_sub(1, b)) == 0,
    ensures
        b == 0 || b == 1,
{
    lemma_field_sub_is_add_neg(1, b);
    if b != 0 {
        assert(field_sub(1, b) == 0);
        lemma_small_mod(1, group_order());
        lemma_difference_zero(1, b);
    }
}

/// The commitments to the constants of `n` hashes, one hash after the
/// other.
pub open spec fn constants_of_hashes(n: nat) -> Seq<Seq<u8>>
    decreases n,
{
    if n == 0 {
        Seq::empty()
    } else {
        constants_of_hashes((n - 1) as nat) + constant_commitments()
    }
}

/// The constants of `a + b` hashes are those of `a` hashes, then those of
/// `b` hashes.
pub proof fn lemma_constants_of_hashes_split(a: nat, b: nat)
    ensures
        constants_of_hashes(a + b) == constants_of_hashes(a) + constants_of_hashes(b),
    decreases b,
{
    if b == 0 {
        assert(constants_of_hashes(a) + constants_of_hashes(0) =~= constants_of_hashes(a));
    } else {
        lemma_constants_of_hashes_split(a, (b - 1) as nat);
        assert(constants_of_hashes(a + b) =~= constants_of_hashes(a) + constants_of_hashes(b));
    }
}

/// The circuit of `n` levels adds the gates of the levels and four
/// committed variables for each.
pub proof fn lemma_path_shape(
    p: PoseidonParams,
    s: CsState,
    leaf: Seq<Term>,
    bits: Seq<Variable>,
    siblings: Seq<Variable>,
    n: nat,
)
    requires
        p.wf(),
        p.width == HASH_WIDTH,
    ensures
        path_circuit(p, s, leaf, bits, siblings, n).0.gates == s.gates + n * level_gates(p),
        path_circuit(p, s, leaf, bits, siblings, n).0.committed == s.committed + 4 * n,
        path_circuit(p, s, leaf, bits, siblings, n).0.commitments == s.commitments
            + constants_of_hashes(n),
    decreases n,
{
    if n == 0 {
        assert(s.commitments + constants_of_hashes(0) =~= s.commitments);
    } else {
        lemma_path_shape(p, s, leaf, bits, siblings, (n - 1) as nat);
        assert(s.commitments + constants_of_hashes(n) =~= s.commitments + constants_of_hashes(
            (n - 1) as nat,
        ) + constant_commitments());
        let (before, node) = path_circuit(p, s, leaf, bits, siblings, (n - 1) as nat);
        lemma_level_shape(p, before, node, bits[n - 1], siblings[n - 1]);
        assert(n * level_gates(p) == (n - 1) * level_gates(p) + level_gates(p))
            by (nonlinear_arith);
    }
}

/// The circuit of a level adds the gates of a level and four committed
/// variables, for the constants of its hash.
pub proof fn lemma_level_shape(
    p: PoseidonParams,
    s: CsState,
    node: Seq<Term>,
    bit: Variable,
    sibling: Variable,
)
    requires
        p.wf(),
        p.width == HASH_WIDTH,
    ensures
        level_circuit(p, s, node, bit, sibling).0.gates == s.gates + level_gates(p),
        level_circuit(p, s, node, bit, sibling).0.committed == s.committed + 4,
        level_circuit(p, s, node, bit, sibling).0.commitments == s.commitments
            + constant_commitments(),
{
    lemma_hash2_shape(
        p,
        s.multiply(unit_term(bit), constant_term(1) + negate_terms(unit_term(bit))).constrain(
            unit_term(Variable::MultiplierOutput(s.gates as usize)),
        ).multiply(unit_term(bit), unit_term(sibling) + negate_terms(node)),
        node + unit_term(Variable::MultiplierOutput((s.gates + 1) as usize)),
        unit_term(sibling) + negate_terms(
            unit_term(Variable::MultiplierOutput((s.gates + 1) as usize)),
        ),
    );
}

/// The circuit of a hash adds the gates of the permutation and four
/// committed variables, for its constants.
pub proof fn lemma_hash2_shape(p: PoseidonParams, s: CsState, xl: Seq<Term>, xr: Seq<Term>)
    requires
        p.wf(),
        p.width == HASH_WIDTH,
    ensures
        hash2_circuit(p, s, xl, xr).0.gates == s.gates + p.permute_gates(),
        hash2_circuit(p, s, xl, xr).0.committed == s.committed + 4,
        hash2_circuit(p, s, xl, xr).0.commitments == s.commitments + constant_commitments(),
{
    let (committed, inputs) = crate::poseidon_gadget::hash_inputs_circuit(s, xl, xr);
    p.lemma_rounds_shape(committed, inputs, p.total_rounds());
    lemma_hash_constants_committed(s, xl, xr);
}

/// Under an assignment that satisfies the system with the circuit of a
/// level, the product of the bit and its complement is zero.
pub proof fn lemma_level_bit(
    p: PoseidonParams,
    s: CsState,
    node: Seq<Term>,
    bit: Variable,
    sibling: Variable,
    a: Assignment,
)
    requires
        p.wf(),
        p.width == HASH_WIDTH,
        var_in_range(bit, s.committed, s.gates),
        s.committed + 4 <= usize::MAX,
        s.gates + level_gates(p) <= usize::MAX,
        level_circuit(p, s, node, bit, sibling).0.satisfied_by(a),
        hash_constants_at(a, s.committed as int),
    ensures
        s.satisfied_by(a),
        a.value(bit) < group_order(),
        field_mul(a.value(bit), field_sub(1, a.value(bit))) == 0,
{
    let bit_lc = unit_term(bit);
    let sibling_lc = unit_term(sibling);
    let not_bit = constant_term(1) + negate_terms(bit_lc);
    let boolean = s.multiply(bit_lc, not_bit);
    let product = unit_term(Variable::MultiplierOutput(s.gates as usize));
    let checked = boolean.constrain(product);
    let delta = sibling_lc + negate_terms(node);
    let swapped = checked.multiply(bit_lc, delta);
    let shift = unit_term(Variable::MultiplierOutput(checked.gates as usize));
    let left = node + shift;
    let right = sibling_lc + negate_terms(shift);

    p.lemma_hash2_sound(swapped, left, right, a);
    lemma_gate_sound(checked, bit_lc, delta, a);
    assert(boolean.satisfied_by(a)) by {
        assert forall|k: int| 0 <= k < boolean.constraints.len() implies eval(
            a,
            #[trigger] boolean.constraints[k],
        ) == 0 by {
            assert(checked.constraints[k] == boolean.constraints[k]);
        }
    }
    assert(eval(a, product) == 0) by {
        assert(checked.constraints[boolean.constraints.len() as int] == product);
    }
    lemma_gate_sound(s, bit_lc, not_bit, a);
    let b = a.value(bit);
    assert(b < group_order());
    lemma_small_mod(b, group_order());
    lemma_eval_unit(a, bit);
    lemma_eval_unit(a, Variable::MultiplierOutput(s.gates as usize));
    lemma_eval_constant(a, 1);
    lemma_small_mod(1, group_order());
    lemma_eval_difference(a, constant_term(1), bit_lc);
    let g = s.gates as int;
    assert(a.output[g] < group_order());
    lemma_small_mod(a.output[g], group_order());
}

/// Under an assignment that satisfies the system with the circuit of a
/// level and gives the bit the value 0 or 1, the result evaluates to the
/// hash of the node and the sibling, the node first if the bit is 0.
pub proof fn lemma_level_hash(
    p: PoseidonParams,
    s: CsState,
    node: Seq<Term>,
    bit: Variable,
    sibling: Variable,
    a: Assignment,
)
    requires
        p.wf(),
        p.width == HASH_WIDTH,
        var_in_range(bit, s.committed, s.gates),
        var_in_range(sibling, s.committed, s.gates),
        s.committed + 4 <= usize::MAX,
        s.gates + level_gates(p) <= usize::MAX,
        level_circuit(p, s, node, bit, sibling).0.satisfied_by(a),
        hash_constants_at(a, s.committed as int),
        a.value(bit) == 0 || a.value(bit) == 1,
    ensures
        eval(a, level_circuit(p, s, node, bit, sibling).1) == if a.value(bit) == 0 {
            p.hash2(eval(a, node), a.value(sibling))
        } else {
            p.hash2(a.value(sibling), eval(a, node))
        },
{
    let bit_lc = unit_term(bit);
    let sibling_lc = unit_term(sibling);
    let not_bit = constant_term(1) + negate_terms(bit_lc);
    let boolean = s.multiply(bit_lc, not_bit);
    let product = unit_term(Variable::MultiplierOutput(s.gates as usize));
    let checked = boolean.constrain(product);
    let delta = sibling_lc + negate_terms(node);
    let swapped = checked.multiply(bit_lc, delta);
    let shift = unit_term(Variable::MultiplierOutput(checked.gates as usize));
    let left = node + shift;
    let right = sibling_lc + negate_terms(shift);

    p.lemma_hash2_sound(swapped, left, right, a);
    lemma_gate_sound(checked, bit_lc, delta, a);

    let b = a.value(bit);
    let n = eval(a, node);
    let sb = a.value(sibling);
    assert(b < group_order() && sb < group_order());
    lemma_eval_reduced(a, node);
    lemma_small_mod(b, group_order());
    lemma_small_mod(sb, group_order());
    lemma_eval_unit(a, bit);
    lemma_eval_unit(a, sibling);
    lemma_eval_unit(a, Variable::MultiplierOutput(checked.gates as usize));
    lemma_eval_difference(a, sibling_lc, node);
    let g2 = checked.gates as int;
    let t = a.output[g2];
    assert(t < group_order());
    lemma_small_mod(t, group_order());
    assert(t == field_mul(b, field_sub(sb, n)));
    lemma_eval_concat(a, node, shift);
    lemma_eval_difference(a, sibling_lc, shift);
    lemma_swap(b, n, sb);
}

/// Under an assignment that satisfies the system with the circuit of a
/// level, the bit is 0 or 1 and the result evaluates to the hash of the
/// node and the sibling, the node first if the bit is 0.
///
/// Premise, not proved here: `no_zero_divisors()`, the primality of the
/// group order.
pub proof fn lemma_level_sound(
    p: PoseidonParams,
    s: CsState,
    node: Seq<Term>,
    bit: Variable,
    sibling: Variable,
    a: Assignment,
)
    requires
        p.wf(),
        p.width == HASH_WIDTH,
        no_zero_divisors(),
        var_in_range(bit, s.committed, s.gates),
        var_in_range(sibling, s.committed, s.gates),
        s.committed + 4 <= usize::MAX,
        s.gates + level_gates(p) <= usize::MAX,
        level_circuit(p, s, node, bit, sibling).0.satisfied_by(a),
        hash_constants_at(a, s.committed as int),
    ensures
        s.satisfied_by(a),
        a.value(bit) == 0 || a.value(bit) == 1,
        eval(a, level_circuit(p, s, node, bit, sibling).1) == if a.value(bit) == 0 {
            p.hash2(eval(a, node), a.value(sibling))
        } else {
            p.hash2(a.value(sibling), eval(a, node))
        },
{
    lemma_level_bit(p, s, node, bit, sibling, a);
    lemma_boolean(a.value(bit));
    lemma_level_hash(p, s, node, bit, sibling, a);
}

/// Under an assignment that satisfies the system with the circuit of `n`
/// levels, the first `n` bits are 0 or 1, and the result evaluates to the
/// node that the first `n` steps of the assigned path lead to.
///
/// Premise, not proved here: `no_zero_divisors()`, the primality of the
/// group order.
pub proof fn lemma_path_sound(
    p: PoseidonParams,
    s: CsState,
    leaf: Seq<Term>,
    bits: Seq<Variable>,
    siblings: Seq<Variable>,
    n: nat,
    a: Assignment,
)
    requires
        p.wf(),
        p.width == HASH_WIDTH,
        no_zero_divisors(),
        n <= bits.len() == siblings.len(),
        forall|i: int| 0 <= i < bits.len() ==> var_in_range(#[trigger] bits[i], s.committed, s.gates),
        forall|i: int|
            0 <= i < siblings.len() ==> var_in_range(#[trigger] siblings[i], s.committed, s.gates),
        s.committed + 4 * n <= usize::MAX,
        s.gates + n * level_gates(p) <= usize::MAX,
        path_circuit(p, s, leaf, bits, siblings, n).0.satisfied_by(a),
        hash_constants(a, s.committed, n),
    ensures
        s.satisfied_by(a),
        forall|i: int| 0 <= i < n ==> a.value(#[trigger] bits[i]) == 0 || a.value(bits[i]) == 1,
        eval(a, path_circuit(p, s, leaf, bits, siblings, n).1) == path_root(
            p,
            eval(a, leaf),
            assigned_path(a, bits, siblings).take(n as int),
        ),
    decreases n,
{
    let path = assigned_path(a, bits, siblings);
    if n == 0 {
        assert(path.take(0) =~= Seq::<(bool, nat)>::empty());
    } else {
        let below = (n - 1) as nat;
        let (before, node) = path_circuit(p, s, leaf, bits, siblings, below);
        lemma_path_shape(p, s, leaf, bits, siblings, below);
        assert(n * level_gates(p) == below * level_gates(p) + level_gates(p)) by (nonlinear_arith)
            requires
                below == n - 1,
        ;
        assert(hash_constants_at(a, s.committed + 4 * (below as int)));
        assert(var_in_range(bits[n - 1], s.committed, s.gates));
        assert(var_in_range(siblings[n - 1], s.committed, s.gates));
        lemma_level_sound(p, before, node, bits[n - 1], siblings[n - 1], a);
        assert(hash_constants(a, s.committed, below)) by {
            assert forall|k: int| 0 <= k < below implies #[trigger] hash_constants_at(
                a,
                s.committed + 4 * k,
            ) by {}
        }
        lemma_path_sound(p, s, leaf, bits, siblings, below, a);
        let upto = path.take(n as int);
        assert(upto.drop_last() =~= path.take(below as int));
        assert(upto.last() == (a.value(bits[n - 1]) == 0, a.value(siblings[n - 1])));
    }
}

/// What the membership circuit proves. Under an assignment that satisfies
/// the circuit, with the constants of the hashes at their values: the leaf
/// is the hash of the secret and the seed; the nullifier is the hash of the
/// seed with itself; every bit is 0 or 1; and the assigned path leads from
/// the leaf to the root.
///
/// Premise, not proved here: `no_zero_divisors()`, the primality of the
/// group order.
pub proof fn lemma_membership_sound(
    p: PoseidonParams,
    s: CsState,
    vars: MembershipVars,
    root: nat,
    nullifier: nat,
    a: Assignment,
)
    requires
        p.wf(),
        p.width == HASH_WIDTH,
        no_zero_divisors(),
        vars.wf(s),
        root < group_order(),
        nullifier < group_order(),
        s.committed + 4 * (vars.bits.len() + 2) <= usize::MAX,
        s.gates + membership_gates(p, vars.bits.len()) <= usize::MAX,
        membership_circuit(p, s, vars, root, nullifier).satisfied_by(a),
        hash_constants(a, s.committed, vars.bits.len() + 2),
    ensures
        s.satisfied_by(a),
        a.value(vars.leaf) == p.hash2(a.value(vars.secret), a.value(vars.seed)),
        nullifier == p.hash2(a.value(vars.seed), a.value(vars.seed)),
        forall|i: int|
            0 <= i < vars.bits.len() ==> a.value(#[trigger] vars.bits[i]) == 0 || a.value(
                vars.bits[i],
            ) == 1,
        root == path_root(p, a.value(vars.leaf), assigned_path(a, vars.bits, vars.siblings)),
{
    let depth = vars.bits.len();
    let (hashed, leaf_lc) = hash2_circuit(p, s, unit_term(vars.secret), unit_term(vars.seed));
    let leaf_check = leaf_lc + negate_terms(unit_term(vars.leaf));
    let bound = hashed.constrain(leaf_check);
    let (nullified, nullifier_lc) = hash2_circuit(
        p,
        bound,
        unit_term(vars.seed),
        unit_term(vars.seed),
    );
    let nullifier_check = nullifier_lc + negate_terms(constant_term(nullifier));
    let spent = nullified.constrain(nullifier_check);
    let (climbed, top) = path_circuit(
        p,
        spent,
        unit_term(vars.leaf),
        vars.bits,
        vars.siblings,
        depth,
    );
    let root_check = top + negate_terms(constant_term(root));
    let done = climbed.constrain(root_check);

    lemma_hash2_shape(p, s, unit_term(vars.secret), unit_term(vars.seed));
    lemma_hash2_shape(p, bound, unit_term(vars.seed), unit_term(vars.seed));
    lemma_path_shape(p, spent, unit_term(vars.leaf), vars.bits, vars.siblings, depth);
    assert(depth * level_gates(p) >= 0) by (nonlinear_arith)
        requires
            depth >= 0,
            level_gates(p) >= 0,
    ;

    // The root.
    assert(climbed.satisfied_by(a) && eval(a, root_check) == 0) by {
        assert(done.constraints[climbed.constraints.len() as int] == root_check);
        assert forall|k: int| 0 <= k < climbed.constraints.len() implies eval(
            a,
            #[trigger] climbed.constraints[k],
        ) == 0 by {
            assert(done.constraints[k] == climbed.constraints[k]);
        }
    }
    assert(hash_constants(a, spent.committed, depth)) by {
        assert forall|k: int| 0 <= k < depth implies #[trigger] hash_constants_at(
            a,
            spent.committed + 4 * k,
        ) by {
            assert(hash_constants_at(a, s.committed + 4 * (k + 2)));
        }
    }
    assert forall|i: int| 0 <= i < vars.bits.len() implies var_in_range(
        #[trigger] vars.bits[i],
        spent.committed,
        spent.gates,
    ) by {
        assert(var_in_range(vars.bits[i], s.committed, s.gates));
    }
    assert forall|i: int| 0 <= i < vars.siblings.len() implies var_in_range(
        #[trigger] vars.siblings[i],
        spent.committed,
        spent.gates,
    ) by {
        assert(var_in_range(vars.siblings[i], s.committed, s.gates));
    }
    lemma_path_sound(p, spent, unit_term(vars.leaf), vars.bits, vars.siblings, depth, a);
    let path = assigned_path(a, vars.bits, vars.siblings);
    assert(path.take(depth as int) =~= path);
    lemma_eval_difference(a, top, constant_term(root));
    lemma_eval_constant(a, root);
    lemma_small_mod(root, group_order());
    lemma_eval_reduced(a, top);
    lemma_difference_zero(eval(a, top), root);
    lemma_eval_unit(a, vars.leaf);
    assert(a.value(vars.leaf) < group_order());
    lemma_small_mod(a.value(vars.leaf), group_order());

    // The nullifier.
    assert(nullified.satisfied_by(a) && eval(a, nullifier_check) == 0) by {
        assert(spent.constraints[nullified.constraints.len() as int] == nullifier_check);
        assert forall|k: int| 0 <= k < nullified.constraints.len() implies eval(
            a,
            #[trigger] nullified.constraints[k],
        ) == 0 by {
            assert(spent.constraints[k] == nullified.constraints[k]);
        }
    }
    assert(hash_constants_at(a, s.committed + 4 * 1int));
    p.lemma_hash2_sound(bound, unit_term(vars.seed), unit_term(vars.seed), a);
    lemma_eval_difference(a, nullifier_lc, constant_term(nullifier));
    lemma_eval_constant(a, nullifier);
    lemma_small_mod(nullifier, group_order());
    lemma_eval_reduced(a, nullifier_lc);
    lemma_difference_zero(eval(a, nullifier_lc), nullifier);
    lemma_eval_unit(a, vars.seed);
    assert(a.value(vars.seed) < group_order());
    lemma_small_mod(a.value(vars.seed), group_order());

    // The leaf.
    assert(hashed.satisfied_by(a) && eval(a, leaf_check) == 0) by {
        assert(bound.constraints[hashed.constraints.len() as int] == leaf_check);
        assert forall|k: int| 0 <= k < hashed.constraints.len() implies eval(
            a,
            #[trigger] hashed.constraints[k],
        ) == 0 by {
            assert(bound.constraints[k] == hashed.constraints[k]);
        }
    }
    assert(hash_constants_at(a, s.committed + 4 * 0int));
    p.lemma_hash2_sound(s, unit_term(vars.secret), unit_term(vars.seed), a);
    lemma_eval_difference(a, leaf_lc, unit_term(vars.leaf));
    lemma_eval_reduced(a, leaf_lc);
    lemma_difference_zero(eval(a, leaf_lc), a.value(vars.leaf));
    lemma_eval_unit(a, vars.secret);
    assert(a.value(vars.secret) < group_order());
    lemma_small_mod(a.value(vars.secret), group_order());
}

/// A variable that has a value keeps it when values are added for new
/// variables.
pub proof fn lemma_value_extends(small: Assignment, large: Assignment, v: Variable)
    requires
        large.extends(small),
        small.right.len() == small.left.len(),
        small.output.len() == small.left.len(),
        var_in_range(v, small.committed.len(), small.gates()),
    ensures
        large.value(v) == small.value(v),
{
    match v {
        Variable::Committed(i) => {
            assert(small.committed =~= large.committed.subrange(0, small.committed.len() as int));
            assert(large.committed.subrange(0, small.committed.len() as int)[i as int]
                == large.committed[i as int]);
        },
        Variable::MultiplierLeft(i) => {
            assert(small.left =~= large.left.subrange(0, small.left.len() as int));
            assert(large.left.subrange(0, small.left.len() as int)[i as int] == large.left[i as int]);
        },
        Variable::MultiplierRight(i) => {
            assert(small.right =~= large.right.subrange(0, small.right.len() as int));
            assert(large.right.subrange(0, small.right.len() as int)[i as int]
                == large.right[i as int]);
        },
        Variable::MultiplierOutput(i) => {
            assert(small.output =~= large.output.subrange(0, small.output.len() as int));
            assert(large.output.subrange(0, small.output.len() as int)[i as int]
                == large.output[i as int]);
        },
        Variable::One => {},
    }
}

/// An assignment extends itself.
pub proof fn lemma_extends_reflexive(w: Assignment)
    ensures
        w.extends(w),
{
    assert(w.committed =~= w.committed.subrange(0, w.committed.len() as int));
    assert(w.left =~= w.left.subrange(0, w.left.len() as int));
    assert(w.right =~= w.right.subrange(0, w.right.len() as int));
    assert(w.output =~= w.output.subrange(0, w.output.len() as int));
}

/// A prover's values still satisfy its system after a linear combination
/// that they evaluate to zero has been constrained to zero.
pub proof fn lemma_constrain_complete(s: CsState, lc: Seq<Term>)
    requires
        witnessed(s),
        s.in_range(lc),
        eval(s.witness->0, lc) == 0,
    ensures
        witnessed(s.constrain(lc)),
        s.constrain(lc).witness == s.witness,
{
    let t = s.constrain(lc);
    assert forall|k: int| 0 <= k < t.constraints.len() implies t.in_range(
        #[trigger] t.constraints[k],
    ) && eval(s.witness->0, t.constraints[k]) == 0 by {
        if k < s.constraints.len() {
            assert(t.constraints[k] == s.constraints[k]);
            assert(s.in_range(s.constraints[k]));
        }
    }
}

/// A difference of equal reduced elements is zero.
pub proof fn lemma_difference_of_equals(x: nat)
    ensures
        field_sub(x, x) == 0,
{
    lemma_small_mod(0, group_order());
}

/// For a bit that is 0 or 1, the product of the bit and its complement is
/// zero.
pub proof fn lemma_boolean_product(b: nat)
    requires
        b == 0 || b == 1,
    ensures
        field_mul(b, field_sub(1, b)) == 0,
{
    lemma_small_mod(0, group_order());
    lemma_small_mod(1, group_order());
    lemma_field_units(field_sub(1, b));
    lemma_field_units(1);
}

/// A prover whose bit is 0 or 1 still has satisfying values after the
/// circuit of a level has been added, and under them the result is the
/// hash of the node and the sibling, the node first if the bit is 0.
pub proof fn lemma_level_complete(
    p: PoseidonParams,
    s: CsState,
    node: Seq<Term>,
    bit: Variable,
    sibling: Variable,
)
    requires
        p.wf(),
        p.width == HASH_WIDTH,
        witnessed(s),
        s.in_range(node),
        var_in_range(bit, s.committed, s.gates),
        var_in_range(sibling, s.committed, s.gates),
        s.committed + 4 <= usize::MAX,
        s.gates + level_gates(p) <= usize::MAX,
        s.witness->0.value(bit) == 0 || s.witness->0.value(bit) == 1,
    ensures
        witnessed(level_circuit(p, s, node, bit, sibling).0),
        level_circuit(p, s, node, bit, sibling).0.witness->0.extends(s.witness->0),
        level_circuit(p, s, node, bit, sibling).0.in_range(
            level_circuit(p, s, node, bit, sibling).1,
        ),
        eval(
            level_circuit(p, s, node, bit, sibling).0.witness->0,
            level_circuit(p, s, node, bit, sibling).1,
        ) == if s.witness->0.value(bit) == 0 {
            p.hash2(eval(s.witness->0, node), s.witness->0.value(sibling))
        } else {
            p.hash2(s.witness->0.value(sibling), eval(s.witness->0, node))
        },
{
    let w = s.witness->0;
    let bit_lc = unit_term(bit);
    let sibling_lc = unit_term(sibling);
    let not_bit = constant_term(1) + negate_terms(bit_lc);
    let boolean = s.multiply(bit_lc, not_bit);
    let product = unit_term(Variable::MultiplierOutput(s.gates as usize));
    let checked = boolean.constrain(product);
    let delta = sibling_lc + negate_terms(node);
    let swapped = checked.multiply(bit_lc, delta);
    let shift = unit_term(Variable::MultiplierOutput(checked.gates as usize));
    let left = node + shift;
    let right = sibling_lc + negate_terms(shift);
    let (done, out) = hash2_circuit(p, swapped, left, right);
    let b = w.value(bit);

    // One gate checks the bit.
    lemma_unit_in_range(bit, s);
    lemma_unit_in_range(sibling, s);
    assert(s.in_range(constant_term(1)));
    lemma_sum_in_range(constant_term(1), bit_lc, s);
    lemma_gate_complete(s, bit_lc, not_bit);
    let w1 = boolean.witness->0;
    assert(b < group_order());
    lemma_small_mod(b, group_order());
    lemma_eval_unit(w, bit);
    lemma_eval_constant(w, 1);
    lemma_small_mod(1, group_order());
    lemma_eval_difference(w, constant_term(1), bit_lc);
    lemma_boolean_product(b);
    lemma_eval_unit(w1, Variable::MultiplierOutput(s.gates as usize));
    assert(w1.output[s.gates as int] == 0);
    lemma_small_mod(0, group_order());
    lemma_constrain_complete(boolean, product);

    // One gate computes the shift.
    lemma_in_range_grows(node, s, checked);
    lemma_in_range_grows(bit_lc, s, checked);
    lemma_in_range_grows(sibling_lc, s, checked);
    lemma_sum_in_range(sibling_lc, node, checked);
    lemma_gate_complete(checked, bit_lc, delta);
    let w2 = swapped.witness->0;

    // The hash.
    lemma_in_range_grows(node, checked, swapped);
    lemma_in_range_grows(sibling_lc, checked, swapped);
    assert(swapped.in_range(shift));
    lemma_sum_in_range(node, shift, swapped);
    lemma_sum_in_range(sibling_lc, shift, swapped);
    p.lemma_hash2_witness(swapped, left, right);
    let w3 = done.witness->0;
    lemma_extends_transitive(w, w1, w2);
    lemma_extends_transitive(w, w2, w3);

    // What the result evaluates to.
    lemma_value_extends(w, w3, bit);
    lemma_value_extends(w, w3, sibling);
    lemma_eval_extends(w, w3, node);
    lemma_level_hash(p, s, node, bit, sibling, w3);
}

/// A prover whose bits are 0 or 1 still has satisfying values after the
/// circuit of `n` levels has been added, and under them the result is the
/// node that the first `n` steps of the assigned path lead to.
pub proof fn lemma_path_complete(
    p: PoseidonParams,
    s: CsState,
    leaf: Seq<Term>,
    bits: Seq<Variable>,
    siblings: Seq<Variable>,
    n: nat,
)
    requires
        p.wf(),
        p.width == HASH_WIDTH,
        witnessed(s),
        s.in_range(leaf),
        n <= bits.len() == siblings.len(),
        forall|i: int| 0 <= i < bits.len() ==> var_in_range(#[trigger] bits[i], s.committed, s.gates),
        forall|i: int|
            0 <= i < siblings.len() ==> var_in_range(#[trigger] siblings[i], s.committed, s.gates),
        s.committed + 4 * n <= usize::MAX,
        s.gates + n * level_gates(p) <= usize::MAX,
        forall|i: int|
            0 <= i < n ==> s.witness->0.value(#[trigger] bits[i]) == 0 || s.witness->0.value(
                bits[i],
            ) == 1,
    ensures
        witnessed(path_circuit(p, s, leaf, bits, siblings, n).0),
        path_circuit(p, s, leaf, bits, siblings, n).0.witness->0.extends(s.witness->0),
        path_circuit(p, s, leaf, bits, siblings, n).0.in_range(
            path_circuit(p, s, leaf, bits, siblings, n).1,
        ),
        eval(
            path_circuit(p, s, leaf, bits, siblings, n).0.witness->0,
            path_circuit(p, s, leaf, bits, siblings, n).1,
        ) == path_root(
            p,
            eval(s.witness->0, leaf),
            assigned_path(s.witness->0, bits, siblings).take(n as int),
        ),
    decreases n,
{
    let w = s.witness->0;
    let path = assigned_path(w, bits, siblings);
    if n == 0 {
        lemma_extends_reflexive(w);
        assert(path.take(0) =~= Seq::<(bool, nat)>::empty());
    } else {
        let below = (n - 1) as nat;
        let (before, node) = path_circuit(p, s, leaf, bits, siblings, below);
        lemma_path_shape(p, s, leaf, bits, siblings, below);
        assert(n * level_gates(p) == below * level_gates(p) + level_gates(p)) by (nonlinear_arith)
            requires
                below == n - 1,
        ;
        lemma_path_complete(p, s, leaf, bits, siblings, below);
        let v = before.witness->0;
        assert(var_in_range(bits[n - 1], s.committed, s.gates));
        assert(var_in_range(siblings[n - 1], s.committed, s.gates));
        lemma_value_extends(w, v, bits[n - 1]);
        lemma_value_extends(w, v, siblings[n - 1]);
        lemma_level_complete(p, before, node, bits[n - 1], siblings[n - 1]);
        let (after, out) = level_circuit(p, before, node, bits[n - 1], siblings[n - 1]);
        lemma_extends_transitive(w, v, after.witness->0);
        let upto = path.take(n as int);
        assert(upto.drop_last() =~= path.take(below as int));
        assert(upto.last() == (w.value(bits[n - 1]) == 0, w.value(siblings[n - 1])));
    }
}

/// An honest prover can prove. If the prover's values satisfy its system
/// before the membership circuit is added, and the leaf is the hash of the
/// secret and the seed, the nullifier the hash of the seed with itself,
/// every bit 0 or 1, and the root what the assigned path leads to from the
/// leaf, then the prover's values satisfy the system with the circuit.
pub proof fn lemma_membership_complete(
    p: PoseidonParams,
    s: CsState,
    vars: MembershipVars,
    root: nat,
    nullifier: nat,
)
    requires
        p.wf(),
        p.width == HASH_WIDTH,
        witnessed(s),
        vars.wf(s),
        s.committed + 4 * (vars.bits.len() + 2) <= usize::MAX,
        s.gates + membership_gates(p, vars.bits.len()) <= usize::MAX,
        s.witness->0.value(vars.leaf) == p.hash2(
            s.witness->0.value(vars.secret),
            s.witness->0.value(vars.seed),
        ),
        nullifier == p.hash2(s.witness->0.value(vars.seed), s.witness->0.value(vars.seed)),
        forall|i: int|
            0 <= i < vars.bits.len() ==> s.witness->0.value(#[trigger] vars.bits[i]) == 0
                || s.witness->0.value(vars.bits[i]) == 1,
        root == path_root(
            p,
            s.witness->0.value(vars.leaf),
            assigned_path(s.witness->0, vars.bits, vars.siblings),
        ),
    ensures
        witnessed(membership_circuit(p, s, vars, root, nullifier)),
        membership_circuit(p, s, vars, root, nullifier).witness->0.extends(s.witness->0),
{
    let w = s.witness->0;
    let depth = vars.bits.len();
    let secret_lc = unit_term(vars.secret);
    let seed_lc = unit_term(vars.seed);
    let leaf_var_lc = unit_term(vars.leaf);
    let (hashed, leaf_lc) = hash2_circuit(p, s, secret_lc, seed_lc);
    let leaf_check = leaf_lc + negate_terms(leaf_var_lc);
    let bound = hashed.constrain(leaf_check);
    let (nullified, nullifier_lc) = hash2_circuit(p, bound, seed_lc, seed_lc);
    let nullifier_check = nullifier_lc + negate_terms(constant_term(nullifier));
    let spent = nullified.constrain(nullifier_check);
    let (climbed, top) = path_circuit(p, spent, leaf_var_lc, vars.bits, vars.siblings, depth);
    let root_check = top + negate_terms(constant_term(root));

    lemma_hash2_shape(p, s, secret_lc, seed_lc);
    lemma_hash2_shape(p, bound, seed_lc, seed_lc);
    assert(depth * level_gates(p) >= 0) by (nonlinear_arith)
        requires
            depth >= 0,
            level_gates(p) >= 0,
    ;
    lemma_unit_in_range(vars.secret, s);
    lemma_unit_in_range(vars.seed, s);
    lemma_unit_in_range(vars.leaf, s);
    let secret = w.value(vars.secret);
    let seed = w.value(vars.seed);
    let leaf = w.value(vars.leaf);
    assert(secret < group_order() && seed < group_order() && leaf < group_order());
    lemma_small_mod(secret, group_order());
    lemma_small_mod(seed, group_order());
    lemma_small_mod(leaf, group_order());
    lemma_eval_unit(w, vars.secret);
    lemma_eval_unit(w, vars.seed);
    lemma_eval_unit(w, vars.leaf);

    // The leaf.
    p.lemma_hash2_witness(s, secret_lc, seed_lc);
    let w1 = hashed.witness->0;
    lemma_in_range_grows(leaf_var_lc, s, hashed);
    lemma_in_range_grows(seed_lc, s, hashed);
    lemma_sum_in_range(leaf_lc, leaf_var_lc, hashed);
    lemma_eval_difference(w1, leaf_lc, leaf_var_lc);
    lemma_eval_extends(w, w1, leaf_var_lc);
    lemma_difference_of_equals(leaf);
    lemma_constrain_complete(hashed, leaf_check);

    // The nullifier.
    lemma_eval_extends(w, w1, seed_lc);
    p.lemma_hash2_witness(bound, seed_lc, seed_lc);
    let w2 = nullified.witness->0;
    assert(nullified.in_range(constant_term(nullifier)));
    lemma_sum_in_range(nullifier_lc, constant_term(nullifier), nullified);
    lemma_eval_difference(w2, nullifier_lc, constant_term(nullifier));
    lemma_eval_constant(w2, nullifier);
    lemma_field_reduced_args(0, 0);
    p.lemma_hash2_reduced(seed, seed);
    lemma_small_mod(nullifier, group_order());
    lemma_difference_of_equals(nullifier);
    lemma_constrain_complete(nullified, nullifier_check);
    lemma_extends_transitive(w, w1, w2);

    // The path.
    lemma_in_range_grows(leaf_var_lc, s, spent);
    assert forall|i: int| 0 <= i < vars.bits.len() implies var_in_range(
        #[trigger] vars.bits[i],
        spent.committed,
        spent.gates,
    ) && (w2.value(vars.bits[i]) == 0 || w2.value(vars.bits[i]) == 1) by {
        assert(var_in_range(vars.bits[i], s.committed, s.gates));
        lemma_value_extends(w, w2, vars.bits[i]);
    }
    assert forall|i: int| 0 <= i < vars.siblings.len() implies var_in_range(
        #[trigger] vars.siblings[i],
        spent.committed,
        spent.gates,
    ) by {
        assert(var_in_range(vars.siblings[i], s.committed, s.gates));
    }
    lemma_path_complete(p, spent, leaf_var_lc, vars.bits, vars.siblings, depth);
    let w3 = climbed.witness->0;
    lemma_extends_transitive(w, w2, w3);
    let path = assigned_path(w, vars.bits, vars.siblings);
    let later = assigned_path(w2, vars.bits, vars.siblings);
    assert(later =~= path) by {
        assert forall|i: int| 0 <= i < vars.bits.len() implies later[i] == path[i] by {
            assert(var_in_range(vars.bits[i], s.committed, s.gates));
            assert(var_in_range(vars.siblings[i], s.committed, s.gates));
            lemma_value_extends(w, w2, vars.bits[i]);
            lemma_value_extends(w, w2, vars.siblings[i]);
        }
    }
    assert(path.take(depth as int) =~= path);
    lemma_eval_extends(w, w2, leaf_var_lc);

    // The root.
    assert(climbed.in_range(constant_term(root)));
    lemma_sum_in_range(top, constant_term(root), climbed);
    lemma_eval_difference(w3, top, constant_term(root));
    lemma_eval_constant(w3, root);
    lemma_eval_reduced(w3, top);
    lemma_small_mod(root, group_order());
    lemma_difference_of_equals(root);
    lemma_constrain_complete(climbed, root_check);
}

/// A system without the values of its variables and without the blinding
/// factors of its commitments: what a verifier holds of what a prover
/// holds.
pub open spec fn erase(s: CsState) -> CsState {
    CsState { witness: None, blindings: Seq::empty(), ..s }
}

/// The circuit of the S-boxes does not depend on the values of the
/// variables.
pub proof fn lemma_sbox_all_erase(s: CsState, words: Seq<Seq<Term>>, n: nat)
    ensures
        sbox_all_circuit(erase(s), words, n) == (
            erase(sbox_all_circuit(s, words, n).0),
            sbox_all_circuit(s, words, n).1,
        ),
    decreases n,
{
    if n > 0 {
        lemma_sbox_all_erase(s, words, (n - 1) as nat);
    }
}

/// The circuit of the rounds does not depend on the values of the
/// variables.
pub proof fn lemma_rounds_erase(p: PoseidonParams, s: CsState, words: Seq<Seq<Term>>, n: nat)
    ensures
        p.rounds_circuit(erase(s), words, n) == (
            erase(p.rounds_circuit(s, words, n).0),
            p.rounds_circuit(s, words, n).1,
        ),
    decreases n,
{
    if n > 0 {
        lemma_rounds_erase(p, s, words, (n - 1) as nat);
        let (before, state) = p.rounds_circuit(s, words, (n - 1) as nat);
        lemma_sbox_all_erase(before, state, state.len());
    }
}

/// The circuit of a hash does not depend on the values of the variables.
pub proof fn lemma_hash2_erase(p: PoseidonParams, s: CsState, xl: Seq<Term>, xr: Seq<Term>)
    ensures
        hash2_circuit(p, erase(s), xl, xr) == (
            erase(hash2_circuit(p, s, xl, xr).0),
            hash2_circuit(p, s, xl, xr).1,
        ),
{
    let (committed, inputs) = hash_inputs_circuit(s, xl, xr);
    assert(hash_inputs_circuit(erase(s), xl, xr) == (erase(committed), inputs));
    lemma_rounds_erase(p, committed, inputs, p.total_rounds());
}

/// The circuit of the path does not depend on the values of the
/// variables.
pub proof fn lemma_path_erase(
    p: PoseidonParams,
    s: CsState,
    leaf: Seq<Term>,
    bits: Seq<Variable>,
    siblings: Seq<Variable>,
    n: nat,
)
    ensures
        path_circuit(p, erase(s), leaf, bits, siblings, n) == (
            erase(path_circuit(p, s, leaf, bits, siblings, n).0),
            path_circuit(p, s, leaf, bits, siblings, n).1,
        ),
    decreases n,
{
    if n > 0 {
        lemma_path_erase(p, s, leaf, bits, siblings, (n - 1) as nat);
        let (before, node) = path_circuit(p, s, leaf, bits, siblings, (n - 1) as nat);
        let bit = bits[n - 1];
        let sibling = siblings[n - 1];
        let boolean = before.multiply(
            unit_term(bit),
            constant_term(1) + negate_terms(unit_term(bit)),
        );
        let checked = boolean.constrain(
            unit_term(Variable::MultiplierOutput(before.gates as usize)),
        );
        let swapped = checked.multiply(unit_term(bit), unit_term(sibling) + negate_terms(node));
        let shift = unit_term(Variable::MultiplierOutput(checked.gates as usize));
        lemma_hash2_erase(p, swapped, node + shift, unit_term(sibling) + negate_terms(shift));
    }
}

/// Prover and verifier build the same circuit: the membership circuit that
/// a prover adds to its system has the variables, gates and constraints of
/// the one that a verifier adds to a system with the same variables.
pub proof fn lemma_roles_agree(
    p: PoseidonParams,
    s: CsState,
    vars: MembershipVars,
    root: nat,
    nullifier: nat,
)
    ensures
        membership_circuit(p, erase(s), vars, root, nullifier) == erase(
            membership_circuit(p, s, vars, root, nullifier),
        ),
{
    let (hashed, leaf_lc) = hash2_circuit(p, s, unit_term(vars.secret), unit_term(vars.seed));
    let bound = hashed.constrain(leaf_lc + negate_terms(unit_term(vars.leaf)));
    let (nullified, nullifier_lc) = hash2_circuit(
        p,
        bound,
        unit_term(vars.seed),
        unit_term(vars.seed),
    );
    let spent = nullified.constrain(nullifier_lc + negate_terms(constant_term(nullifier)));
    lemma_hash2_erase(p, s, unit_term(vars.secret), unit_term(vars.seed));
    lemma_hash2_erase(p, bound, unit_term(vars.seed), unit_term(vars.seed));
    lemma_path_erase(p, spent, unit_term(vars.leaf), vars.bits, vars.siblings, vars.bits.len());
}

/// A verifier that is given the commitments of a prover checks the system
/// that the prover proved from: for the commitments to the prover's inputs
/// under the prover's blinding factors, and for the same root and
/// nullifier, the verifier's system is the prover's without the values
/// and the blinding factors.
pub proof fn lemma_verifier_rebuilds_prover_circuit(
    p: PoseidonParams,
    secret: nat,
    seed: nat,
    path: Seq<(bool, nat)>,
    root: nat,
    blindings: Seq<nat>,
)
    ensures
        verifier_circuit(
            p,
            path.len(),
            root,
            p.hash2(seed, seed),
            commitments_to(prover_inputs(secret, seed, p.hash2(secret, seed), path), blindings),
        ) == erase(prover_circuit(p, secret, seed, path, root, blindings)),
{
    let inputs = prover_inputs(secret, seed, p.hash2(secret, seed), path);
    let start = prover_start(inputs, blindings);
    assert(erase(start) == verifier_start(commitments_to(inputs, blindings)));
    lemma_roles_agree(p, start, standard_vars(path.len()), root, p.hash2(seed, seed));
}

/// The commitments of a membership circuit: those that the system had,
/// then those to the constants of its hashes, one hash for the leaf, one
/// for the nullifier and one for each level.
pub proof fn lemma_membership_commitments(
    p: PoseidonParams,
    s: CsState,
    vars: MembershipVars,
    root: nat,
    nullifier: nat,
)
    requires
        p.wf(),
        p.width == HASH_WIDTH,
    ensures
        membership_circuit(p, s, vars, root, nullifier).commitments == s.commitments
            + constants_of_hashes(vars.bits.len() + 2),
{
    let (hashed, leaf_lc) = hash2_circuit(p, s, unit_term(vars.secret), unit_term(vars.seed));
    let bound = hashed.constrain(leaf_lc + negate_terms(unit_term(vars.leaf)));
    let (nullified, nullifier_lc) = hash2_circuit(
        p,
        bound,
        unit_term(vars.seed),
        unit_term(vars.seed),
    );
    let spent = nullified.constrain(nullifier_lc + negate_terms(constant_term(nullifier)));
    lemma_hash2_shape(p, s, unit_term(vars.secret), unit_term(vars.seed));
    lemma_hash2_shape(p, bound, unit_term(vars.seed), unit_term(vars.seed));
    lemma_path_shape(p, spent, unit_term(vars.leaf), vars.bits, vars.siblings, vars.bits.len());
    lemma_constants_of_hashes_split(2, vars.bits.len());
    assert(constants_of_hashes(2) =~= constant_commitments() + constant_commitments()) by {
        reveal_with_fuel(constants_of_hashes, 3);
    }
    assert(s.commitments + constants_of_hashes(vars.bits.len() + 2) =~= s.commitments
        + constant_commitments() + constant_commitments() + constants_of_hashes(
        vars.bits.len(),
    ));
}

/// What a verifier of a membership proof holds commitments to: what was
/// submitted, in the order of the inputs, then the constants of the hashes.
pub proof fn lemma_verifier_commitments(
    p: PoseidonParams,
    depth: nat,
    root: nat,
    nullifier: nat,
    submitted: Seq<Seq<u8>>,
)
    requires
        p.wf(),
        p.width == HASH_WIDTH,
    ensures
        verifier_circuit(p, depth, root, nullifier, submitted).commitments == submitted
            + constants_of_hashes(depth + 2),
{
    lemma_membership_commitments(
        p,
        verifier_start(submitted),
        standard_vars(depth),
        root,
        nullifier,
    );
}

/// Whether the hash keeps two seeds apart: whether their nullifiers
/// differ if the seeds do.
pub open spec fn separates_seeds(p: PoseidonParams, first: nat, second: nat) -> bool {
    first != second ==> p.hash2(first, first) != p.hash2(second, second)
}

/// The nullifiers of two seeds are equal exactly if the seeds are.
///
/// Premise, not proved here: that the hash keeps the two seeds apart. It
/// does not follow from the shape of the parameters, as
/// `lemma_zero_row_hashes_to_zero` shows.
pub proof fn lemma_nullifiers_differ(p: PoseidonParams, first: nat, second: nat)
    requires
        separates_seeds(p, first, second),
    ensures
        p.hash2(first, first) == p.hash2(second, second) <==> first == second,
{
}

/// Two roots cannot both be proven for one leaf and one path: assignments
/// that satisfy the circuits for two roots and agree on the leaf and on
/// the bits and siblings of the path prove the same root. Likewise, two
/// nullifiers cannot both be proven for one seed.
///
/// Premise, not proved here: `no_zero_divisors()`, the primality of the
/// group order.
pub proof fn lemma_root_and_nullifier_are_determined(
    p: PoseidonParams,
    s: CsState,
    vars: MembershipVars,
    root: nat,
    nullifier: nat,
    a: Assignment,
    other_root: nat,
    other_nullifier: nat,
    b: Assignment,
)
    requires
        p.wf(),
        p.width == HASH_WIDTH,
        no_zero_divisors(),
        vars.wf(s),
        root < group_order(),
        nullifier < group_order(),
        other_root < group_order(),
        other_nullifier < group_order(),
        s.committed + 4 * (vars.bits.len() + 2) <= usize::MAX,
        s.gates + membership_gates(p, vars.bits.len()) <= usize::MAX,
        membership_circuit(p, s, vars, root, nullifier).satisfied_by(a),
        membership_circuit(p, s, vars, other_root, other_nullifier).satisfied_by(b),
        hash_constants(a, s.committed, vars.bits.len() + 2),
        hash_constants(b, s.committed, vars.bits.len() + 2),
    ensures
        a.value(vars.seed) == b.value(vars.seed) ==> nullifier == other_nullifier,
        a.value(vars.leaf) == b.value(vars.leaf) && assigned_path(a, vars.bits, vars.siblings)
            == assigned_path(b, vars.bits, vars.siblings) ==> root == other_root,
{
    lemma_membership_sound(p, s, vars, root, nullifier, a);
    lemma_membership_sound(p, s, vars, other_root, other_nullifier, b);
}

/// The nodes of a tree over reduced leaves are reduced.
pub proof fn lemma_node_reduced(p: PoseidonParams, leaves: Seq<nat>, level: nat, index: nat)
    requires
        p.wf(),
        p.width == HASH_WIDTH,
        forall|i: int| 0 <= i < leaves.len() ==> #[trigger] leaves[i] < group_order(),
    ensures
        node(p, leaves, level, index) < group_order(),
    decreases level,
{
    if level == 0 {
        p.lemma_hash2_reduced(0, 0);
    } else {
        lemma_node_reduced(p, leaves, (level - 1) as nat, 2 * index);
        p.lemma_hash2_reduced(
            node(p, leaves, (level - 1) as nat, 2 * index),
            node(p, leaves, (level - 1) as nat, 2 * index + 1),
        );
    }
}

/// An honest prover's values satisfy its system. If the leaf at the
/// position of a tree is the hash of the secret and the seed, then the
/// values that the prover commits to and gives to the gates satisfy the
/// membership circuit for the root of the tree and the nullifier of the
/// seed.
pub proof fn lemma_honest_prover(
    p: PoseidonParams,
    depth: nat,
    leaves: Seq<nat>,
    position: nat,
    secret: nat,
    seed: nat,
    blindings: Seq<nat>,
)
    requires
        p.wf(),
        p.width == HASH_WIDTH,
        depth <= MAX_DEPTH,
        blindings.len() == PRIVATE_INPUTS + 2 * depth,
        position < leaves.len() <= capacity(depth),
        forall|i: int| 0 <= i < leaves.len() ==> #[trigger] leaves[i] < group_order(),
        secret < group_order(),
        seed < group_order(),
        leaves[position as int] == p.hash2(secret, seed),
        membership_gates(p, depth) <= usize::MAX,
    ensures
        witnessed(
            prover_circuit(
                p,
                secret,
                seed,
                path_of(p, leaves, position, depth),
                merkle_root(p, depth, leaves),
                blindings,
            ),
        ),
{
    let steps = path_of(p, leaves, position, depth);
    let leaf = p.hash2(secret, seed);
    let root = merkle_root(p, depth, leaves);
    let nullifier = p.hash2(seed, seed);
    let inputs = prover_inputs(secret, seed, leaf, steps);
    let s = prover_start(inputs, blindings);
    let vars = standard_vars(depth);
    let w = s.witness->0;

    p.lemma_hash2_reduced(secret, seed);
    assert forall|i: int| 0 <= i < inputs.len() implies #[trigger] inputs[i] < group_order() by {
        if i >= PRIVATE_INPUTS + depth {
            let l = i - PRIVATE_INPUTS - depth;
            assert(inputs[i] == steps[l].1);
            lemma_node_reduced(
                p,
                leaves,
                l as nat,
                crate::merkle::sibling(crate::merkle::ancestor(position, l as nat)),
            );
        } else if i >= PRIVATE_INPUTS {
            assert(inputs[i] == position_bit(steps[i - PRIVATE_INPUTS].0));
        }
    }
    assert(witnessed(s));
    assert(vars.wf(s));
    assert(w.value(vars.secret) == secret);
    assert(w.value(vars.seed) == seed);
    assert(w.value(vars.leaf) == leaf);
    assert forall|i: int| 0 <= i < depth implies w.value(#[trigger] vars.bits[i]) == 0 || w.value(
        vars.bits[i],
    ) == 1 by {
        assert(inputs[PRIVATE_INPUTS + i] == position_bit(steps[i].0));
    }
    assert(assigned_path(w, vars.bits, vars.siblings) =~= steps) by {
        assert forall|i: int| 0 <= i < depth implies assigned_path(w, vars.bits, vars.siblings)[i]
            == steps[i] by {
            assert(inputs[PRIVATE_INPUTS + i] == position_bit(steps[i].0));
            assert(inputs[PRIVATE_INPUTS + depth + i] == steps[i].1);
        }
    }
    lemma_generated_path_verifies(p, depth, leaves, position);
    lemma_membership_complete(p, s, vars, root, nullifier);
}

} // verus!

//! Variables and linear combinations of an arithmetic circuit, and what they
//! evaluate to under an assignment of the variables.
//!
//! A circuit has committed variables (inputs fixed by a commitment), and for
//! each multiplication gate a left, a right and an output variable. A linear
//! combination is a list of terms, each a variable with a coefficient in the
//! field; the variable `One` stands for the constant 1.

use crate::field::{field_add, field_mul, field_sub, group_order, FieldElement};
use vstd::arithmetic::div_mod::{
    lemma_add_mod_noop, lemma_mul_mod_noop_general, lemma_small_mod, lemma_sub_mod_noop,
};
use vstd::arithmetic::mul::lemma_mul_is_distributive_add;
use vstd::prelude::*;

verus! {

/// A variable of a constraint system.
#[derive(Clone, Copy, Debug, PartialEq, Eq, Structural)]
pub enum Variable {
    /// An external input specified by a commitment.
    Committed(usize),
    /// The left input of a multiplication gate.
    MultiplierLeft(usize),
    /// The right input of a multiplication gate.
    MultiplierRight(usize),
    /// The output of a multiplication gate.
    MultiplierOutput(usize),
    /// The constant 1.
    One,
}

impl DeepView for Variable {
    type V = Variable;

    open spec fn deep_view(&self) -> Variable {
        *self
    }
}

/// A term of a linear combination, as mathematical values.
pub type Term = (Variable, nat);

/// The position of a variable's kind in the order of variables.
pub open spec fn var_rank(v: Variable) -> nat {
    match v {
        Variable::Committed(_) => 0,
        Variable::MultiplierLeft(_) => 1,
        Variable::MultiplierRight(_) => 2,
        Variable::MultiplierOutput(_) => 3,
        Variable::One => 4,
    }
}

/// The index of a variable within its kind; 0 for `One`.
pub open spec fn var_index(v: Variable) -> nat {
    match v {
        Variable::Committed(i) => i as nat,
        Variable::MultiplierLeft(i) => i as nat,
        Variable::MultiplierRight(i) => i as nat,
        Variable::MultiplierOutput(i) => i as nat,
        Variable::One => 0,
    }
}

/// The order of variables: by kind, then by index.
pub open spec fn var_lt(a: Variable, b: Variable) -> bool {
    var_rank(a) < var_rank(b) || (var_rank(a) == var_rank(b) && var_index(a) < var_index(b))
}

/// Two variables that neither precedes the other are the same.
pub proof fn lemma_var_order_total(a: Variable, b: Variable)
    ensures
        var_lt(a, b) || var_lt(b, a) || a == b,
        !(var_lt(a, b) && var_lt(b, a)),
        !var_lt(a, a),
{
}

/// Values for the variables of a circuit.
pub struct Assignment {
    pub committed: Seq<nat>,
    pub left: Seq<nat>,
    pub right: Seq<nat>,
    pub output: Seq<nat>,
}

impl Assignment {
    /// The value of a variable.
    pub open spec fn value(self, v: Variable) -> nat {
        match v {
            Variable::Committed(i) => self.committed[i as int],
            Variable::MultiplierLeft(i) => self.left[i as int],
            Variable::MultiplierRight(i) => self.right[i as int],
            Variable::MultiplierOutput(i) => self.output[i as int],
            Variable::One => 1,
        }
    }

    /// The number of multiplication gates that have values.
    pub open spec fn gates(self) -> nat {
        self.left.len()
    }

    /// Every gate has a left, a right and an output value, and the output
    /// is the product of the inputs.
    pub open spec fn multiplies(self) -> bool {
        &&& self.right.len() == self.left.len()
        &&& self.output.len() == self.left.len()
        &&& forall|i: int|
            0 <= i < self.left.len() ==> #[trigger] self.output[i] == field_mul(
                self.left[i],
                self.right[i],
            )
    }

    /// Every value is a reduced field element.
    pub open spec fn reduced(self) -> bool {
        &&& forall|i: int| 0 <= i < self.committed.len() ==> #[trigger] self.committed[i] < group_order()
        &&& forall|i: int| 0 <= i < self.left.len() ==> #[trigger] self.left[i] < group_order()
        &&& forall|i: int| 0 <= i < self.right.len() ==> #[trigger] self.right[i] < group_order()
        &&& forall|i: int| 0 <= i < self.output.len() ==> #[trigger] self.output[i] < group_order()
    }

    /// The assignment gives `other`'s value to every variable that `other`
    /// has a value for.
    pub open spec fn extends(self, other: Assignment) -> bool {
        &&& other.committed.is_prefix_of(self.committed)
        &&& other.left.is_prefix_of(self.left)
        &&& other.right.is_prefix_of(self.right)
        &&& other.output.is_prefix_of(self.output)
    }
}

/// Whether the variable exists in a circuit with `committed` committed
/// variables and `gates` multiplication gates.
pub open spec fn var_in_range(v: Variable, committed: nat, gates: nat) -> bool {
    match v {
        Variable::Committed(i) => i < committed,
        Variable::MultiplierLeft(i) => i < gates,
        Variable::MultiplierRight(i) => i < gates,
        Variable::MultiplierOutput(i) => i < gates,
        Variable::One => true,
    }
}

/// Whether every variable of the terms exists in such a circuit.
pub open spec fn terms_in_range(terms: Seq<Term>, committed: nat, gates: nat) -> bool {
    forall|k: int| 0 <= k < terms.len() ==> var_in_range((#[trigger] terms[k]).0, committed, gates)
}

/// The value of a linear combination: the sum, in the field, of the
/// coefficients times the values of their variables.
pub open spec fn eval(a: Assignment, terms: Seq<Term>) -> nat
    decreases terms.len(),
{
    if terms.len() == 0 {
        0
    } else {
        field_add(
            eval(a, terms.drop_last()),
            field_mul(terms.last().1, a.value(terms.last().0)),
        )
    }
}

/// The terms with every coefficient multiplied by `s`.
pub open spec fn scale_terms(terms: Seq<Term>, s: nat) -> Seq<Term> {
    terms.map_values(|t: Term| (t.0, field_mul(t.1, s)))
}

/// The terms with every coefficient negated.
pub open spec fn negate_terms(terms: Seq<Term>) -> Seq<Term> {
    terms.map_values(|t: Term| (t.0, field_sub(0, t.1)))
}

/// Addition in the field is associative.
pub proof fn lemma_field_add_assoc(a: nat, b: nat, c: nat)
    ensures
        field_add(field_add(a, b), c) == field_add(a, field_add(b, c)),
        field_add(field_add(a, b), c) == (a + b + c) % group_order(),
{
    let m = group_order() as int;
    let (x, y, z) = (a as int, b as int, c as int);
    lemma_add_mod_noop(x + y, z, m);
    lemma_add_mod_noop(x, y + z, m);
    lemma_add_mod_noop((x + y) % m, z, m);
    lemma_add_mod_noop(x, (y + z) % m, m);
    vstd::arithmetic::div_mod::lemma_mod_twice(x + y, m);
    vstd::arithmetic::div_mod::lemma_mod_twice(y + z, m);
    assert(((x + y) % m + z) % m == (x + y + z) % m);
    assert((x + (y + z) % m) % m == (x + y + z) % m);
}

/// Multiplication in the field distributes over addition.
pub proof fn lemma_field_mul_distributes(s: nat, a: nat, b: nat)
    ensures
        field_mul(s, field_add(a, b)) == field_add(field_mul(s, a), field_mul(s, b)),
        field_mul(field_add(a, b), s) == field_add(field_mul(a, s), field_mul(b, s)),
{
    let m = group_order() as int;
    lemma_mul_mod_noop_general(s as int, (a + b) as int, m);
    lemma_mul_mod_noop_general((a + b) as int, s as int, m);
    lemma_mul_is_distributive_add(s as int, a as int, b as int);
    lemma_add_mod_noop((s * a) as int, (s * b) as int, m);
    assert(s * (a + b) == (a + b) * s) by (nonlinear_arith);
    assert(a * s == s * a) by (nonlinear_arith);
    assert(b * s == s * b) by (nonlinear_arith);
}

/// Multiplication in the field is associative and commutative.
pub proof fn lemma_field_mul_assoc(a: nat, b: nat, c: nat)
    ensures
        field_mul(field_mul(a, b), c) == field_mul(a, field_mul(b, c)),
        field_mul(a, b) == field_mul(b, a),
{
    let m = group_order() as int;
    lemma_mul_mod_noop_general((a * b) as int, c as int, m);
    lemma_mul_mod_noop_general(a as int, (b * c) as int, m);
    assert((a * b) * c == a * (b * c)) by (nonlinear_arith);
    assert(a * b == b * a) by (nonlinear_arith);
}

/// A reduced element plus zero, and times one, is itself; the operations
/// see their arguments only modulo the group order.
pub proof fn lemma_field_units(a: nat)
    ensures
        field_add(a, 0) == a % group_order(),
        field_add(0, a) == a % group_order(),
        field_mul(a, 1) == a % group_order(),
        field_mul(1, a) == a % group_order(),
        field_mul(a, 0) == 0,
        field_mul(0, a) == 0,
{
    assert(a * 1 == a && 1 * a == a && a * 0 == 0 && 0 * a == 0) by (nonlinear_arith);
    lemma_small_mod(0, group_order());
}

/// The operations see their arguments only modulo the group order.
pub proof fn lemma_field_reduced_args(a: nat, b: nat)
    ensures
        field_add(a % group_order(), b) == field_add(a, b),
        field_add(a, b % group_order()) == field_add(a, b),
        field_mul(a % group_order(), b) == field_mul(a, b),
        field_mul(a, b % group_order()) == field_mul(a, b),
        field_add(a, b) < group_order(),
        field_mul(a, b) < group_order(),
{
    let m = group_order() as int;
    lemma_add_mod_noop(a as int, b as int, m);
    lemma_add_mod_noop((a % group_order()) as int, b as int, m);
    lemma_add_mod_noop(a as int, (b % group_order()) as int, m);
    vstd::arithmetic::div_mod::lemma_mod_twice(a as int, m);
    vstd::arithmetic::div_mod::lemma_mod_twice(b as int, m);
    lemma_mul_mod_noop_general(a as int, b as int, m);
}

/// Subtracting is adding the negation.
pub proof fn lemma_field_sub_is_add_neg(a: nat, b: nat)
    ensures
        field_sub(a, b) == field_add(a, field_sub(0, b)),
        field_sub(a, b) < group_order(),
        field_add(field_sub(a, b), b) == a % group_order(),
{
    let m = group_order() as int;
    lemma_sub_mod_noop(0, b as int, m);
    lemma_add_mod_noop(a as int, -(b as int), m);
    lemma_add_mod_noop(a as int, (0 - b) % m, m);
    vstd::arithmetic::div_mod::lemma_mod_twice(0 - b, m);
    lemma_add_mod_noop(a - b, b as int, m);
    vstd::arithmetic::div_mod::lemma_mod_twice(a - b, m);
    lemma_add_mod_noop((a - b) % m, b as int, m);
}

/// Two reduced elements whose difference is zero are equal: `x + (-1) * y`
/// is zero exactly if `x` is `y`.
pub proof fn lemma_field_cancel(x: nat, y: nat)
    requires
        x < group_order(),
        y < group_order(),
    ensures
        field_add(x, field_mul((group_order() - 1) as nat, y)) == 0 <==> x == y,
{
    let m = group_order() as int;
    let (xi, yi) = (x as int, y as int);
    vstd::arithmetic::div_mod::lemma_add_mod_noop_right(xi, (m - 1) * yi, m);
    assert(xi + (m - 1) * yi == m * yi + (xi - yi)) by (nonlinear_arith);
    vstd::arithmetic::div_mod::lemma_mod_multiples_vanish(yi, xi - yi, m);
    assert(field_add(x, field_mul((group_order() - 1) as nat, y)) == (xi - yi) % m);
    if xi >= yi {
        lemma_small_mod((xi - yi) as nat, m as nat);
    } else {
        vstd::arithmetic::div_mod::lemma_mod_multiples_vanish(1, xi - yi, m);
        assert(m * 1 + (xi - yi) == xi - yi + m);
        lemma_small_mod((xi - yi + m) as nat, m as nat);
    }
}

/// The cube, computed with two multiplications in the field.
pub proof fn lemma_cube_by_squaring(x: nat)
    ensures
        field_mul(field_mul(x, x), x) == (x * x * x) % group_order(),
{
    vstd::arithmetic::div_mod::lemma_mul_mod_noop_left(
        (x * x) as int,
        x as int,
        group_order() as int,
    );
}

/// The value of a linear combination is a reduced field element.
pub proof fn lemma_eval_reduced(a: Assignment, terms: Seq<Term>)
    ensures
        eval(a, terms) < group_order(),
{
    if terms.len() > 0 {
        lemma_field_reduced_args(
            eval(a, terms.drop_last()),
            field_mul(terms.last().1, a.value(terms.last().0)),
        );
    }
}

/// Appending a term adds the value of the term.
pub proof fn lemma_eval_push(a: Assignment, terms: Seq<Term>, t: Term)
    ensures
        eval(a, terms.push(t)) == field_add(eval(a, terms), field_mul(t.1, a.value(t.0))),
{
    assert(terms.push(t).drop_last() =~= terms);
}

/// The value of a concatenation is the sum of the values.
pub proof fn lemma_eval_concat(a: Assignment, x: Seq<Term>, y: Seq<Term>)
    ensures
        eval(a, x + y) == field_add(eval(a, x), eval(a, y)),
    decreases y.len(),
{
    if y.len() == 0 {
        assert(x + y =~= x);
        lemma_eval_reduced(a, x);
        lemma_field_units(eval(a, x));
        lemma_small_mod(eval(a, x), group_order());
    } else {
        let t = y.last();
        assert((x + y).drop_last() =~= x + y.drop_last());
        lemma_eval_concat(a, x, y.drop_last());
        lemma_field_add_assoc(
            eval(a, x),
            eval(a, y.drop_last()),
            field_mul(t.1, a.value(t.0)),
        );
    }
}

/// Scaling the coefficients scales the value.
pub proof fn lemma_eval_scale(a: Assignment, terms: Seq<Term>, s: nat)
    ensures
        eval(a, scale_terms(terms, s)) == field_mul(eval(a, terms), s),
    decreases terms.len(),
{
    let scaled = scale_terms(terms, s);
    if terms.len() == 0 {
        lemma_field_units(s);
    } else {
        let t = terms.last();
        assert(scaled.drop_last() =~= scale_terms(terms.drop_last(), s));
        lemma_eval_scale(a, terms.drop_last(), s);
        let v = a.value(t.0);
        // (c * s) * v = (c * v) * s
        lemma_field_mul_assoc(t.1, s, v);
        lemma_field_mul_assoc(s, v, 0);
        lemma_field_mul_assoc(t.1, v, s);
        lemma_field_mul_distributes(s, eval(a, terms.drop_last()), field_mul(t.1, v));
    }
}

/// Negating the coefficients negates the value.
pub proof fn lemma_eval_negate(a: Assignment, terms: Seq<Term>)
    ensures
        eval(a, negate_terms(terms)) == field_sub(0, eval(a, terms)),
    decreases terms.len(),
{
    let m = group_order() as int;
    let negated = negate_terms(terms);
    if terms.len() == 0 {
        lemma_small_mod(0, group_order());
    } else {
        let t = terms.last();
        let rest = eval(a, terms.drop_last());
        let v = a.value(t.0);
        assert(negated.drop_last() =~= negate_terms(terms.drop_last()));
        lemma_eval_negate(a, terms.drop_last());
        // (0 - c) * v = 0 - c * v, modulo the group order
        lemma_mul_mod_noop_general(0 - t.1, v as int, m);
        assert((0 - t.1) * v == 0 - t.1 * v) by (nonlinear_arith);
        lemma_sub_mod_noop(0, (t.1 * v) as int, m);
        assert(field_mul(field_sub(0, t.1), v) == field_sub(0, field_mul(t.1, v)));
        // (0 - x) + (0 - y) = 0 - (x + y), modulo the group order
        let y = field_mul(t.1, v);
        lemma_add_mod_noop(0 - rest, 0 - y, m);
        lemma_sub_mod_noop(0, (rest + y) as int, m);
        assert((0 - rest) + (0 - y) == 0 - (rest + y));
    }
}

/// The value of a linear combination whose variables all have values under
/// `small` is the same under any assignment that extends `small`.
pub proof fn lemma_eval_extends(small: Assignment, large: Assignment, terms: Seq<Term>)
    requires
        large.extends(small),
        small.right.len() == small.left.len(),
        small.output.len() == small.left.len(),
        terms_in_range(terms, small.committed.len(), small.gates()),
    ensures
        eval(large, terms) == eval(small, terms),
    decreases terms.len(),
{
    if terms.len() > 0 {
        lemma_eval_extends(small, large, terms.drop_last());
        assert(var_in_range(terms[terms.len() - 1].0, small.committed.len(), small.gates()));
    }
}

/// A linear combination: a list of terms, each a variable and its
/// coefficient.
#[derive(Clone, Debug, PartialEq, Eq)]
pub struct LinComb {
    pub terms: Vec<(Variable, FieldElement)>,
}

impl View for LinComb {
    type V = Seq<Term>;

    open spec fn view(&self) -> Seq<Term> {
        self.terms.deep_view()
    }
}

impl DeepView for LinComb {
    type V = Seq<Term>;

    open spec fn deep_view(&self) -> Seq<Term> {
        self@
    }
}

impl LinComb {
    /// The combination without terms, whose value is 0.
    pub fn zero() -> (r: LinComb)
        ensures
            r@ == Seq::<Term>::empty(),
    {
        let r = LinComb { terms: Vec::new() };
        assert(r@ =~= Seq::<Term>::empty());
        r
    }

    /// The variable itself: one term with coefficient 1.
    pub fn from_variable(v: Variable) -> (r: LinComb)
        ensures
            r@ == seq![(v, 1nat)],
    {
        let r = LinComb { terms: vec![(v, FieldElement::one())] };
        assert(r@ =~= seq![(v, 1nat)]);
        r
    }

    /// The constant `c`: one term, `c` times the variable `One`.
    pub fn constant(c: FieldElement) -> (r: LinComb)
        ensures
            r@ == seq![(Variable::One, c@)],
    {
        let r = LinComb { terms: vec![(Variable::One, c)] };
        assert(r@ =~= seq![(Variable::One, c@)]);
        r
    }

    /// A copy of the combination.
    pub fn duplicate(&self) -> (r: LinComb)
        ensures
            r@ == self@,
    {
        let mut terms: Vec<(Variable, FieldElement)> = Vec::new();
        let mut k: usize = 0;
        while k < self.terms.len()
            invariant
                k <= self.terms.len(),
                terms.len() == k,
                forall|i: int| 0 <= i < k ==> terms@[i] == self.terms@[i],
            decreases self.terms.len() - k,
        {
            terms.push(self.terms[k]);
            k += 1;
        }
        let r = LinComb { terms };
        assert(r@ =~= self@);
        r
    }

    /// The sum: the terms of `self` followed by those of `other`.
    pub fn add(self, other: &LinComb) -> (r: LinComb)
        ensures
            r@ == self@ + other@,
    {
        let mut terms = self.terms;
        let ghost start = terms@;
        let mut k: usize = 0;
        while k < other.terms.len()
            invariant
                k <= other.terms.len(),
                terms@.len() == start.len() + k,
                forall|i: int| 0 <= i < start.len() ==> terms@[i] == start[i],
                forall|i: int| 0 <= i < k ==> terms@[start.len() + i] == other.terms@[i],
            decreases other.terms.len() - k,
        {
            terms.push(other.terms[k]);
            k += 1;
        }
        let r = LinComb { terms };
        assert(r@ =~= self@ + other@);
        r
    }

    /// The difference: the terms of `self` followed by those of `other`
    /// with negated coefficients.
    pub fn sub(self, other: &LinComb) -> (r: LinComb)
        ensures
            r@ == self@ + negate_terms(other@),
    {
        let zero = FieldElement::zero();
        let mut terms = self.terms;
        let ghost start = terms@;
        let mut k: usize = 0;
        while k < other.terms.len()
            invariant
                k <= other.terms.len(),
                zero@ == 0,
                terms@.len() == start.len() + k,
                forall|i: int| 0 <= i < start.len() ==> terms@[i] == start[i],
                forall|i: int|
                    0 <= i < k ==> (#[trigger] terms@[start.len() + i]).deep_view()
                        == negate_terms(other@)[i],
            decreases other.terms.len() - k,
        {
            let t = other.terms[k];
            terms.push((t.0, zero.sub(&t.1)));
            k += 1;
        }
        let r = LinComb { terms };
        assert forall|j: int| 0 <= j < r@.len() implies r@[j] == (self@ + negate_terms(
            other@,
        ))[j] by {
            if j >= start.len() {
                let i = j - start.len();
                assert(r.terms@[start.len() + i].deep_view() == negate_terms(other@)[i]);
            }
        }
        assert(r@ =~= self@ + negate_terms(other@));
        r
    }

    /// The combination with every coefficient multiplied by `s`.
    pub fn scale(&self, s: &FieldElement) -> (r: LinComb)
        ensures
            r@ == scale_terms(self@, s@),
    {
        let mut terms: Vec<(Variable, FieldElement)> = Vec::new();
        let mut k: usize = 0;
        while k < self.terms.len()
            invariant
                k <= self.terms.len(),
                terms.len() == k,
                forall|i: int|
                    0 <= i < k ==> (#[trigger] terms@[i]).deep_view() == scale_terms(self@, s@)[i],
            decreases self.terms.len() - k,
        {
            let t = self.terms[k];
            terms.push((t.0, t.1.mul(s)));
            k += 1;
        }
        let r = LinComb { terms };
        assert(r@ =~= scale_terms(self@, s@));
        r
    }
}

/// The value of a linear combination that is one variable is the value of
/// the variable, reduced.
pub proof fn lemma_eval_unit(a: Assignment, v: Variable)
    ensures
        eval(a, seq![(v, 1nat)]) == a.value(v) % group_order(),
{
    let x = a.value(v);
    lemma_eval_push(a, Seq::<Term>::empty(), (v, 1nat));
    assert(Seq::<Term>::empty().push((v, 1nat)) =~= seq![(v, 1nat)]);
    assert(eval(a, Seq::<Term>::empty()) == 0);
    lemma_field_units(x);
    lemma_field_units(x % group_order());
    vstd::arithmetic::div_mod::lemma_mod_twice(x as int, group_order() as int);
    assert(field_mul(1, x) == x % group_order());
    assert(field_add(0, x % group_order()) == x % group_order());
}

/// The terms are in the order of their variables, and no variable occurs
/// twice.
pub open spec fn is_sorted(terms: Seq<Term>) -> bool {
    forall|i: int, j: int| 0 <= i < j < terms.len() ==> var_lt(terms[i].0, terms[j].0)
}

/// A sorted list of terms with one more term: added to the coefficient of
/// its variable where the list has the variable, put at its place in the
/// order where it has not.
pub open spec fn insert_term(terms: Seq<Term>, t: Term) -> Seq<Term>
    decreases terms.len(),
{
    if terms.len() == 0 {
        seq![t]
    } else if terms.last().0 == t.0 {
        terms.drop_last().push((t.0, field_add(terms.last().1, t.1)))
    } else if var_lt(terms.last().0, t.0) {
        terms.push(t)
    } else {
        insert_term(terms.drop_last(), t).push(terms.last())
    }
}

/// The terms merged by variable: one term for each variable that occurs,
/// in the order of the variables, with the sum of the variable's
/// coefficients, added up in the order in which they occur.
pub open spec fn simplify_terms(terms: Seq<Term>) -> Seq<Term>
    decreases terms.len(),
{
    if terms.len() == 0 {
        Seq::empty()
    } else {
        insert_term(simplify_terms(terms.drop_last()), terms.last())
    }
}

/// Inserting a term adds its value.
pub proof fn lemma_insert_eval(a: Assignment, terms: Seq<Term>, t: Term)
    ensures
        eval(a, insert_term(terms, t)) == field_add(eval(a, terms), field_mul(t.1, a.value(t.0))),
    decreases terms.len(),
{
    let v = a.value(t.0);
    let y = field_mul(t.1, v);
    if terms.len() == 0 {
        lemma_eval_push(a, Seq::<Term>::empty(), t);
        assert(Seq::<Term>::empty().push(t) =~= seq![t]);
    } else if terms.last().0 == t.0 {
        let rest = terms.drop_last();
        let c = terms.last().1;
        let x = eval(a, rest);
        lemma_eval_push(a, rest, (t.0, field_add(c, t.1)));
        lemma_field_mul_distributes(v, c, t.1);
        lemma_field_add_assoc(x, field_mul(c, v), y);
        assert(eval(a, terms) == field_add(x, field_mul(c, v)));
        assert(eval(a, insert_term(terms, t)) == field_add(x, field_mul(field_add(c, t.1), v)));
    } else if var_lt(terms.last().0, t.0) {
        lemma_eval_push(a, terms, t);
    } else {
        let rest = terms.drop_last();
        let last = terms.last();
        lemma_insert_eval(a, rest, t);
        lemma_eval_push(a, insert_term(rest, t), last);
        let x = eval(a, rest);
        let z = field_mul(last.1, a.value(last.0));
        lemma_field_add_assoc(x, y, z);
        lemma_field_add_assoc(x, z, y);
        assert(x + y + z == x + z + y);
        assert(eval(a, terms) == field_add(x, z));
        assert(eval(a, insert_term(terms, t)) == field_add(field_add(x, y), z));
    }
}

/// Merging the terms by variable keeps the value.
pub proof fn lemma_simplify_eval(a: Assignment, terms: Seq<Term>)
    ensures
        eval(a, simplify_terms(terms)) == eval(a, terms),
    decreases terms.len(),
{
    if terms.len() > 0 {
        lemma_simplify_eval(a, terms.drop_last());
        lemma_insert_eval(a, simplify_terms(terms.drop_last()), terms.last());
    }
}

/// Every variable of the list with one more term is a variable of the
/// list or of the term.
pub proof fn lemma_insert_in_range(terms: Seq<Term>, t: Term, committed: nat, gates: nat)
    requires
        terms_in_range(terms, committed, gates),
        var_in_range(t.0, committed, gates),
    ensures
        terms_in_range(insert_term(terms, t), committed, gates),
    decreases terms.len(),
{
    if terms.len() == 0 {
    } else if terms.last().0 == t.0 {
        assert forall|k: int| 0 <= k < insert_term(terms, t).len() implies var_in_range(
            (#[trigger] insert_term(terms, t)[k]).0,
            committed,
            gates,
        ) by {
            if k < terms.len() - 1 {
                assert(insert_term(terms, t)[k] == terms[k]);
            }
        }
    } else if var_lt(terms.last().0, t.0) {
        assert forall|k: int| 0 <= k < insert_term(terms, t).len() implies var_in_range(
            (#[trigger] insert_term(terms, t)[k]).0,
            committed,
            gates,
        ) by {
            if k < terms.len() {
                assert(insert_term(terms, t)[k] == terms[k]);
            }
        }
    } else {
        let rest = terms.drop_last();
        assert forall|k: int| 0 <= k < rest.len() implies var_in_range(
            (#[trigger] rest[k]).0,
            committed,
            gates,
        ) by {
            assert(rest[k] == terms[k]);
        }
        lemma_insert_in_range(rest, t, committed, gates);
        let inner = insert_term(rest, t);
        assert(var_in_range(terms[terms.len() - 1].0, committed, gates));
        assert forall|k: int| 0 <= k < insert_term(terms, t).len() implies var_in_range(
            (#[trigger] insert_term(terms, t)[k]).0,
            committed,
            gates,
        ) by {
            if k < inner.len() {
                assert(insert_term(terms, t)[k] == inner[k]);
            }
        }
    }
}

/// Merging the terms by variable brings in no variable.
pub proof fn lemma_simplify_in_range(terms: Seq<Term>, committed: nat, gates: nat)
    requires
        terms_in_range(terms, committed, gates),
    ensures
        terms_in_range(simplify_terms(terms), committed, gates),
    decreases terms.len(),
{
    if terms.len() > 0 {
        let rest = terms.drop_last();
        assert forall|k: int| 0 <= k < rest.len() implies var_in_range(
            (#[trigger] rest[k]).0,
            committed,
            gates,
        ) by {
            assert(rest[k] == terms[k]);
        }
        lemma_simplify_in_range(rest, committed, gates);
        assert(var_in_range(terms[terms.len() - 1].0, committed, gates));
        lemma_insert_in_range(simplify_terms(rest), terms.last(), committed, gates);
    }
}

/// Inserting into a sorted list gives a sorted list, whose variables are
/// those of the list and that of the term.
pub proof fn lemma_insert_sorted(terms: Seq<Term>, t: Term)
    requires
        is_sorted(terms),
    ensures
        is_sorted(insert_term(terms, t)),
        forall|k: int|
            0 <= k < insert_term(terms, t).len() ==> (#[trigger] insert_term(terms, t)[k]).0 == t.0
                || exists|j: int| 0 <= j < terms.len() && terms[j].0 == insert_term(terms, t)[k].0,
    decreases terms.len(),
{
    let out = insert_term(terms, t);
    if terms.len() == 0 {
    } else if terms.last().0 == t.0 {
        assert forall|k: int| 0 <= k < out.len() implies (#[trigger] out[k]).0 == t.0 || exists|
            j: int,
        |
            0 <= j < terms.len() && terms[j].0 == out[k].0 by {
            if k < terms.len() - 1 {
                assert(out[k] == terms[k]);
            }
        }
        assert forall|i: int, j: int| 0 <= i < j < out.len() implies var_lt(out[i].0, out[j].0) by {
            assert(out[i].0 == terms[i].0);
            assert(out[j].0 == terms[j].0);
        }
    } else if var_lt(terms.last().0, t.0) {
        assert forall|k: int| 0 <= k < out.len() implies (#[trigger] out[k]).0 == t.0 || exists|
            j: int,
        |
            0 <= j < terms.len() && terms[j].0 == out[k].0 by {
            if k < terms.len() {
                assert(out[k] == terms[k]);
            }
        }
        assert forall|i: int, j: int| 0 <= i < j < out.len() implies var_lt(out[i].0, out[j].0) by {
            if j == terms.len() {
                if i < terms.len() - 1 {
                    assert(var_lt(terms[i].0, terms[terms.len() - 1].0));
                }
            }
        }
    } else {
        let rest = terms.drop_last();
        let last = terms.last();
        assert(is_sorted(rest)) by {
            assert forall|i: int, j: int| 0 <= i < j < rest.len() implies var_lt(
                rest[i].0,
                rest[j].0,
            ) by {
                assert(var_lt(terms[i].0, terms[j].0));
            }
        }
        lemma_insert_sorted(rest, t);
        let inner = insert_term(rest, t);
        lemma_var_order_total(last.0, t.0);
        assert forall|k: int| 0 <= k < out.len() implies (#[trigger] out[k]).0 == t.0 || exists|
            j: int,
        |
            0 <= j < terms.len() && terms[j].0 == out[k].0 by {
            if k < inner.len() {
                assert(out[k] == inner[k]);
                if inner[k].0 != t.0 {
                    let j = choose|j: int| 0 <= j < rest.len() && rest[j].0 == inner[k].0;
                    assert(terms[j].0 == out[k].0);
                }
            } else {
                assert(terms[terms.len() - 1].0 == out[k].0);
            }
        }
        assert forall|i: int, j: int| 0 <= i < j < out.len() implies var_lt(out[i].0, out[j].0) by {
            if j < inner.len() {
                assert(out[i] == inner[i] && out[j] == inner[j]);
            } else {
                assert(out[j] == last);
                assert(out[i] == inner[i]);
                if inner[i].0 != t.0 {
                    let k = choose|k: int| 0 <= k < rest.len() && rest[k].0 == inner[i].0;
                    assert(var_lt(terms[k].0, terms[terms.len() - 1].0));
                }
            }
        }
    }
}

/// Merged terms are in the order of their variables, and no variable occurs
/// twice.
pub proof fn lemma_simplify_sorted(terms: Seq<Term>)
    ensures
        is_sorted(simplify_terms(terms)),
    decreases terms.len(),
{
    if terms.len() > 0 {
        lemma_simplify_sorted(terms.drop_last());
        lemma_insert_sorted(simplify_terms(terms.drop_last()), terms.last());
    }
}

/// Whether `a` comes before `b` in the order of variables.
pub fn var_less(a: Variable, b: Variable) -> (r: bool)
    ensures
        r == var_lt(a, b),
{
    let (rank_a, index_a) = var_key(a);
    let (rank_b, index_b) = var_key(b);
    rank_a < rank_b || (rank_a == rank_b && index_a < index_b)
}

/// The kind and index by which a variable is ordered.
fn var_key(v: Variable) -> (r: (u8, usize))
    ensures
        r.0 == var_rank(v),
        r.1 == var_index(v),
{
    match v {
        Variable::Committed(i) => (0, i),
        Variable::MultiplierLeft(i) => (1, i),
        Variable::MultiplierRight(i) => (2, i),
        Variable::MultiplierOutput(i) => (3, i),
        Variable::One => (4, 0),
    }
}

} // verus!

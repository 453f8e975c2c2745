//! Merging the terms of a linear combination by variable, on an ordered map
//! keyed by the numbers of the variables, whose order is that of the
//! variables.

use crate::circuit::{
    insert_term, is_sorted, lemma_insert_sorted, lemma_simplify_sorted, simplify_terms, var_index,
    var_lt, var_rank, LinComb, Term, Variable,
};
use crate::field::{field_add, FieldElement};
use std::collections::BTreeMap;
use vstd::laws_cmp::obeys_cmp;
use vstd::prelude::*;
use vstd::std_specs::btree::*;
use vstd::std_specs::cmp::OrdSpec;
use vstd::std_specs::iter::IteratorSpec;

verus! {

broadcast use {vstd::std_specs::btree::group_btree_axioms, vstd::laws_cmp::group_laws_cmp};

/// The number of a variable: its kind times 2^64 plus its index.
pub open spec fn var_code(v: Variable) -> u128 {
    (var_rank(v) * 18446744073709551616nat + var_index(v)) as u128
}

/// The order of the numbers is the order of the variables, and two
/// variables with the same number are the same.
pub proof fn lemma_code_order(a: Variable, b: Variable)
    ensures
        var_lt(a, b) <==> var_code(a) < var_code(b),
        a == b <==> var_code(a) == var_code(b),
{
}

/// The number of a variable.
pub fn code_of(v: Variable) -> (r: u128)
    ensures
        r == var_code(v),
{
    match v {
        Variable::Committed(i) => i as u128,
        Variable::MultiplierLeft(i) => 18446744073709551616u128 + i as u128,
        Variable::MultiplierRight(i) => 36893488147419103232u128 + i as u128,
        Variable::MultiplierOutput(i) => 55340232221128654848u128 + i as u128,
        Variable::One => 73786976294838206464u128,
    }
}

/// A map of merged terms with one more term: added to the coefficient of
/// its variable where the map has the variable, entered where it has not.
pub open spec fn merge_term(m: Map<u128, Term>, t: Term) -> Map<u128, Term> {
    let k = var_code(t.0);
    if m.contains_key(k) {
        m.insert(k, (t.0, field_add(m[k].1, t.1)))
    } else {
        m.insert(k, t)
    }
}

/// The terms merged by variable: a map from the numbers of the variables
/// to their terms.
pub open spec fn merged(terms: Seq<Term>) -> Map<u128, Term>
    decreases terms.len(),
{
    if terms.len() == 0 {
        Map::empty()
    } else {
        merge_term(merged(terms.drop_last()), terms.last())
    }
}

/// Whether a list holds the entries of a map in the order of the variables:
/// it is sorted, each of its terms is the entry of its variable, and every
/// entry is among its terms.
pub open spec fn lists(q: Seq<Term>, m: Map<u128, Term>) -> bool {
    &&& is_sorted(q)
    &&& forall|i: int|
        0 <= i < q.len() ==> m.contains_key(var_code(#[trigger] q[i].0)) && m[var_code(q[i].0)]
            == q[i]
    &&& forall|k: u128| #[trigger]
        m.contains_key(k) ==> exists|i: int| 0 <= i < q.len() && var_code(#[trigger] q[i].0) == k
}

/// The entries of a map of terms with their coefficients viewed.
pub open spec fn entries(m: Map<u128, (Variable, FieldElement)>) -> Map<u128, Term> {
    Map::new(|k: u128| m.contains_key(k), |k: u128| (m[k].0, m[k].1@))
}

/// A list without its last term holds the entries of the map without the
/// entry of that term.
proof fn lemma_lists_drop_last(q: Seq<Term>, m: Map<u128, Term>)
    requires
        lists(q, m),
        q.len() > 0,
    ensures
        lists(q.drop_last(), m.remove(var_code(q.last().0))),
{
    let rest = q.drop_last();
    let last = q.last();
    let gone = var_code(last.0);
    let less = m.remove(gone);
    assert forall|i: int, j: int| 0 <= i < j < rest.len() implies var_lt(rest[i].0, rest[j].0) by {
        assert(var_lt(q[i].0, q[j].0));
    }
    assert forall|i: int| 0 <= i < rest.len() implies less.contains_key(
        var_code(#[trigger] rest[i].0),
    ) && less[var_code(rest[i].0)] == rest[i] by {
        assert(rest[i] == q[i]);
        assert(var_lt(q[i].0, q[q.len() - 1].0));
        lemma_code_order(q[i].0, last.0);
    }
    assert forall|k: u128| #[trigger] less.contains_key(k) implies exists|i: int|
        0 <= i < rest.len() && var_code(#[trigger] rest[i].0) == k by {
        assert(m.contains_key(k));
        let i = choose|i: int| 0 <= i < q.len() && var_code(#[trigger] q[i].0) == k;
        assert(i < q.len() - 1);
        assert(rest[i] == q[i]);
    }
}

/// Inserting a term into the list of a map gives the list of the map with
/// the term merged in.
pub proof fn lemma_insert_lists(q: Seq<Term>, m: Map<u128, Term>, t: Term)
    requires
        lists(q, m),
    ensures
        lists(insert_term(q, t), merge_term(m, t)),
    decreases q.len(),
{
    let out = insert_term(q, t);
    let more = merge_term(m, t);
    let kt = var_code(t.0);
    lemma_insert_sorted(q, t);
    if q.len() == 0 {
        assert(!m.contains_key(kt));
        assert(out[0] == t);
        assert forall|k: u128| #[trigger] more.contains_key(k) implies exists|i: int|
            0 <= i < out.len() && var_code(#[trigger] out[i].0) == k by {
            if k != kt {
                assert(m.contains_key(k));
            }
            assert(var_code(out[0].0) == kt);
        }
    } else if q.last().0 == t.0 {
        let n = q.len() - 1;
        assert(m.contains_key(var_code(q[n].0)) && m[var_code(q[n].0)] == q[n]);
        assert forall|i: int| 0 <= i < out.len() implies more.contains_key(
            var_code(#[trigger] out[i].0),
        ) && more[var_code(out[i].0)] == out[i] by {
            if i < n {
                assert(out[i] == q[i]);
                assert(var_lt(q[i].0, q[n].0));
                lemma_code_order(q[i].0, t.0);
            }
        }
        assert forall|k: u128| #[trigger] more.contains_key(k) implies exists|i: int|
            0 <= i < out.len() && var_code(#[trigger] out[i].0) == k by {
            assert(m.contains_key(k));
            let i = choose|i: int| 0 <= i < q.len() && var_code(#[trigger] q[i].0) == k;
            assert(out[i].0 == q[i].0);
        }
    } else if var_lt(q.last().0, t.0) {
        let n = q.len() - 1;
        if m.contains_key(kt) {
            let i = choose|i: int| 0 <= i < q.len() && var_code(#[trigger] q[i].0) == kt;
            lemma_code_order(q[i].0, t.0);
            if i < n {
                assert(var_lt(q[i].0, q[n].0));
            }
        }
        assert forall|i: int| 0 <= i < out.len() implies more.contains_key(
            var_code(#[trigger] out[i].0),
        ) && more[var_code(out[i].0)] == out[i] by {
            if i <= n {
                assert(out[i] == q[i]);
            }
        }
        assert forall|k: u128| #[trigger] more.contains_key(k) implies exists|i: int|
            0 <= i < out.len() && var_code(#[trigger] out[i].0) == k by {
            if k == kt {
                assert(var_code(out[n + 1].0) == kt);
            } else {
                assert(m.contains_key(k));
                let i = choose|i: int| 0 <= i < q.len() && var_code(#[trigger] q[i].0) == k;
                assert(out[i] == q[i]);
            }
        }
    } else {
        let rest = q.drop_last();
        let last = q.last();
        let gone = var_code(last.0);
        let less = m.remove(gone);
        let inner = insert_term(rest, t);
        lemma_lists_drop_last(q, m);
        lemma_insert_lists(rest, less, t);
        lemma_code_order(last.0, t.0);
        assert(m.contains_key(var_code(q[q.len() - 1].0)) && m[var_code(q[q.len() - 1].0)] == last);
        assert(more =~= merge_term(less, t).insert(gone, last));
        assert forall|i: int| 0 <= i < out.len() implies more.contains_key(
            var_code(#[trigger] out[i].0),
        ) && more[var_code(out[i].0)] == out[i] by {
            if i < inner.len() {
                assert(out[i] == inner[i]);
                assert(var_lt(out[i].0, out[out.len() - 1].0));
                lemma_code_order(out[i].0, last.0);
            }
        }
        assert forall|k: u128| #[trigger] more.contains_key(k) implies exists|i: int|
            0 <= i < out.len() && var_code(#[trigger] out[i].0) == k by {
            if k == gone {
                assert(var_code(out[out.len() - 1].0) == gone);
            } else {
                assert(merge_term(less, t).contains_key(k));
                let i = choose|i: int| 0 <= i < inner.len() && var_code(#[trigger] inner[i].0) == k;
                assert(out[i] == inner[i]);
            }
        }
    }
}

/// The merged terms of a list are the list of its merged map.
pub proof fn lemma_simplify_lists(terms: Seq<Term>)
    ensures
        lists(simplify_terms(terms), merged(terms)),
    decreases terms.len(),
{
    if terms.len() > 0 {
        lemma_simplify_lists(terms.drop_last());
        lemma_insert_lists(simplify_terms(terms.drop_last()), merged(terms.drop_last()), terms.last());
    }
}

/// A map has one list.
pub proof fn lemma_one_list(a: Seq<Term>, b: Seq<Term>, m: Map<u128, Term>)
    requires
        lists(a, m),
        lists(b, m),
    ensures
        a == b,
    decreases a.len(),
{
    if a.len() == 0 {
        if b.len() > 0 {
            assert(m.contains_key(var_code(b[0].0)));
        }
        assert(a =~= b);
    } else {
        let x = a.last();
        assert(m.contains_key(var_code(a[a.len() - 1].0)) && m[var_code(a[a.len() - 1].0)] == x);
        let j = choose|j: int| 0 <= j < b.len() && var_code(#[trigger] b[j].0) == var_code(x.0);
        let y = b.last();
        assert(m.contains_key(var_code(b[b.len() - 1].0)) && m[var_code(b[b.len() - 1].0)] == y);
        let i = choose|i: int| 0 <= i < a.len() && var_code(#[trigger] a[i].0) == var_code(y.0);
        lemma_code_order(a[i].0, y.0);
        lemma_code_order(b[j].0, x.0);
        lemma_code_order(x.0, y.0);
        if i < a.len() - 1 {
            assert(var_lt(a[i].0, a[a.len() - 1].0));
        }
        if j < b.len() - 1 {
            assert(var_lt(b[j].0, b[b.len() - 1].0));
        }
        assert(x.0 == y.0);
        assert(x == y);
        lemma_lists_drop_last(a, m);
        lemma_lists_drop_last(b, m);
        lemma_one_list(a.drop_last(), b.drop_last(), m.remove(var_code(x.0)));
        assert(a =~= a.drop_last().push(x));
        assert(b =~= b.drop_last().push(y));
    }
}

/// In an increasing list of numbers an earlier one is below a later one.
proof fn lemma_increasing_keys(keys: Seq<u128>, i: int, j: int)
    requires
        increasing_seq(keys),
        0 <= i < j < keys.len(),
    ensures
        keys[i] < keys[j],
{
    assert(obeys_cmp::<u128>());
    assert(keys[i].cmp_spec(&keys[j]) is Less);
}

/// Merges the terms of a linear combination by variable. The result has one
/// term for each variable that occurs, in the order of the variables, and
/// the same value under every assignment.
pub fn simplify(lc: LinComb) -> (r: LinComb)
    ensures
        r@ == simplify_terms(lc@),
{
    // Build an ordered map to hold unique variables with their values.
    let mut vars: BTreeMap<u128, (Variable, FieldElement)> = BTreeMap::new();
    let mut k: usize = 0;
    assert(entries(vars@) =~= merged(lc@.take(0)));
    while k < lc.terms.len()
        invariant
            k <= lc.terms.len(),
            entries(vars@) == merged(lc@.take(k as int)),
        decreases lc.terms.len() - k,
    {
        let (var, val) = lc.terms[k];
        let key = code_of(var);
        let ghost before = vars@;
        let sum = match vars.get(&key) {
            Some(entry) => entry.1.add(&val),
            None => val,
        };
        vars.insert(key, (var, sum));
        proof {
            let upto = lc@.take(k + 1);
            assert(upto.drop_last() =~= lc@.take(k as int));
            assert(upto.last() == (var, val@));
            assert(entries(vars@) =~= merge_term(entries(before), (var, val@)));
        }
        k += 1;
    }
    assert(lc@.take(lc.terms.len() as int) =~= lc@);
    let mut terms: Vec<(Variable, FieldElement)> = Vec::new();
    let walk = vars.iter();
    let ghost items = walk.remaining();
    let ghost keys = items.map_values(|kv: (&u128, &(Variable, FieldElement))| *kv.0);
    for kv in it: walk
        invariant
            it.seq() == items,
            terms.len() == it.index(),
            forall|i: int| 0 <= i < terms.len() ==> terms@[i] == *items[i].1,
    {
        terms.push(*kv.1);
    }
    proof {
        let q = terms.deep_view();
        let m = merged(lc@);
        lemma_simplify_lists(lc@);
        lemma_simplify_sorted(lc@);
        assert(increasing_seq(keys));
        assert forall|i: int| 0 <= i < q.len() implies m.contains_key(var_code(#[trigger] q[i].0))
            && m[var_code(q[i].0)] == q[i] && var_code(q[i].0) == keys[i] by {
            let key = *items[i].0;
            assert(vars@.contains_key(key) && vars@[key] == *items[i].1);
            assert(m.contains_key(key));
            assert(m[key] == q[i]);
            let at = choose|at: int|
                0 <= at < simplify_terms(lc@).len() && var_code(
                    #[trigger] simplify_terms(lc@)[at].0,
                ) == key;
            assert(m[var_code(simplify_terms(lc@)[at].0)] == simplify_terms(lc@)[at]);
        }
        assert forall|i: int, j: int| 0 <= i < j < q.len() implies var_lt(q[i].0, q[j].0) by {
            assert(var_code(q[i].0) == keys[i]);
            assert(var_code(q[j].0) == keys[j]);
            lemma_increasing_keys(keys, i, j);
            lemma_code_order(q[i].0, q[j].0);
        }
        assert forall|key: u128| #[trigger] m.contains_key(key) implies exists|i: int|
            0 <= i < q.len() && var_code(#[trigger] q[i].0) == key by {
            assert(vars@.contains_key(key));
            assert(items.contains((&key, &vars@[key])));
            let i = choose|i: int| 0 <= i < items.len() && items[i] == (&key, &vars@[key]);
            assert(var_code(q[i].0) == keys[i]);
        }
        lemma_one_list(q, simplify_terms(lc@), m);
    }
    LinComb { terms }
}

} // verus!

//! The normal form that expansion reaches.
//!
//! An expanded term holds no difference and no quotient, no product with a sum
//! among its factors, and no sum raised to a non-negative integer literal, at
//! any depth, and the operands of its sums and products stand in canonical
//! order. Expansion reaches that form in one pass and changes nothing that has
//! it.
use crate::expand::spec::{
    distribute, expand, expand_each, expand_power, first_sum, lemma_first_sum, lemma_first_sum_is,
    lemma_replacing_lightens, power_expansion, spread, weights,
};
use crate::simplify::spec::MINUS_ONE;
use crate::term::{canonical, is_canonical, lemma_canonical_fixed, lemma_canonical_permutes, Term};
use vstd::prelude::*;

verus! {

/// Whether a term is multiplied out: at every depth, no difference and no
/// quotient is left, no factor of a product is a sum, no sum is raised to a
/// non-negative integer literal, and the operands of each sum and product
/// stand in canonical order.
pub open spec fn is_expanded(t: Term) -> bool
    decreases t,
{
    match t {
        Term::Integer(_) => true,
        Term::Real(_) => true,
        Term::Constant(_, _) => true,
        Term::Variable(_) => true,
        Term::Power(a, b) => is_expanded(*a) && is_expanded(*b) && !(*a is Sum && *b is Integer
            && b->Integer_0 >= 0),
        Term::Logarithm(a, b) => is_expanded(*a) && is_expanded(*b),
        Term::Sine(a) => is_expanded(*a),
        Term::Cosine(a) => is_expanded(*a),
        Term::Product(ops) => is_canonical(ops) && forall|i: int|
            0 <= i < ops.len() ==> is_expanded(#[trigger] ops[i]) && !(ops[i] is Sum),
        Term::Sum(ops) => is_canonical(ops) && forall|i: int|
            0 <= i < ops.len() ==> is_expanded(#[trigger] ops[i]),
        Term::Quotient(_, _) => false,
        Term::Difference(_, _) => false,
    }
}

/// Every term of the list is multiplied out.
pub open spec fn all_expanded(ops: Seq<Term>) -> bool {
    forall|i: int| 0 <= i < ops.len() ==> is_expanded(#[trigger] ops[i])
}

/// The canonical arrangement of multiplied-out terms holds multiplied-out terms.
pub proof fn lemma_canonical_keeps_expanded(ops: Seq<Term>)
    requires
        all_expanded(ops),
    ensures
        all_expanded(canonical(ops)),
{
    lemma_canonical_permutes(ops);
    assert forall|i: int| 0 <= i < canonical(ops).len() implies is_expanded(
        #[trigger] canonical(ops)[i],
    ) by {
        let x = canonical(ops)[i];
        assert(ops.contains(x));
        let j = choose|j: int| 0 <= j < ops.len() && ops[j] == x;
        assert(is_expanded(ops[j]));
    }
}

/// A product of multiplied-out factors, distributed, is multiplied out.
pub proof fn lemma_distribute_expands(factors: Seq<Term>)
    requires
        all_expanded(factors),
    ensures
        is_expanded(distribute(factors)),
    decreases weights(factors), 0int,
{
    lemma_first_sum(factors);
    let k = first_sum(factors);
    if 0 <= k < factors.len() && factors[k] is Sum {
        let addends = factors[k]->Sum_0;
        let parts = spread(factors, k);
        assert(is_expanded(factors[k]));
        assert forall|j: int| 0 <= j < parts.len() implies is_expanded(#[trigger] parts[j]) by {
            let next = factors.update(k, addends[j]);
            lemma_replacing_lightens(factors, k, j);
            assert(is_expanded(addends[j]));
            assert forall|i: int| 0 <= i < next.len() implies is_expanded(#[trigger] next[i]) by {
                if i != k {
                    assert(next[i] == factors[i]);
                }
            }
            lemma_distribute_expands(next);
        }
        lemma_canonical_keeps_expanded(parts);
        lemma_canonical_permutes(parts);
    } else {
        lemma_canonical_permutes(factors);
        lemma_canonical_keeps_expanded(factors);
        assert forall|i: int| 0 <= i < canonical(factors).len() implies !(#[trigger] canonical(
            factors,
        )[i] is Sum) by {
            let x = canonical(factors)[i];
            assert(factors.contains(x));
            let j = choose|j: int| 0 <= j < factors.len() && factors[j] == x;
            assert(!(factors[j] is Sum));
        }
    }
}

/// A multiplied-out sum, multiplied by itself any number of times, is multiplied
/// out.
pub proof fn lemma_power_expansion_expands(x: Term, k: nat)
    requires
        is_expanded(x),
    ensures
        is_expanded(power_expansion(x, k)),
    decreases k,
{
    if k >= 2 {
        lemma_power_expansion_expands(x, (k - 1) as nat);
        let pair = seq![power_expansion(x, (k - 1) as nat), x];
        assert(all_expanded(pair));
        lemma_canonical_keeps_expanded(pair);
        lemma_distribute_expands(canonical(pair));
    }
}

/// The expansion of a power of multiplied-out parts is multiplied out.
pub proof fn lemma_expand_power_expands(x: Term, y: Term)
    requires
        is_expanded(x),
        is_expanded(y),
    ensures
        is_expanded(expand_power(x, y)),
{
    if x is Sum && y is Integer && y->Integer_0 >= 0 {
        lemma_power_expansion_expands(x, y->Integer_0 as nat);
    }
}

/// Expansion reaches its normal form: the expanded form of any term holds no
/// difference and no quotient, no product with a sum among its factors, and no
/// sum raised to a non-negative integer literal, and its operand lists are
/// canonical.
pub proof fn lemma_expand_reaches_normal_form(t: Term)
    ensures
        is_expanded(expand(t)),
    decreases t,
{
    match t {
        Term::Integer(_) => {},
        Term::Real(_) => {},
        Term::Constant(_, _) => {},
        Term::Variable(_) => {},
        Term::Power(a, b) => {
            lemma_expand_reaches_normal_form(*a);
            lemma_expand_reaches_normal_form(*b);
            lemma_expand_power_expands(expand(*a), expand(*b));
        },
        Term::Logarithm(a, b) => {
            lemma_expand_reaches_normal_form(*a);
            lemma_expand_reaches_normal_form(*b);
        },
        Term::Sine(a) => {
            lemma_expand_reaches_normal_form(*a);
        },
        Term::Cosine(a) => {
            lemma_expand_reaches_normal_form(*a);
        },
        Term::Product(ops) => {
            lemma_each_expanded(ops);
            lemma_canonical_keeps_expanded(expand_each(ops));
            lemma_distribute_expands(canonical(expand_each(ops)));
        },
        Term::Sum(ops) => {
            lemma_each_expanded(ops);
            lemma_canonical_keeps_expanded(expand_each(ops));
            lemma_canonical_permutes(expand_each(ops));
        },
        Term::Quotient(a, b) => {
            lemma_expand_reaches_normal_form(*a);
            lemma_expand_reaches_normal_form(*b);
            let inverse = Term::Power(Box::new(expand(*b)), Box::new(Term::Integer(MINUS_ONE)));
            assert(is_expanded(Term::Integer(MINUS_ONE)));
            assert(is_expanded(inverse));
            let pair = seq![expand(*a), inverse];
            assert(all_expanded(pair));
            lemma_canonical_keeps_expanded(pair);
            lemma_distribute_expands(canonical(pair));
        },
        Term::Difference(a, b) => {
            lemma_expand_reaches_normal_form(*a);
            lemma_expand_reaches_normal_form(*b);
            let inner = seq![Term::Integer(MINUS_ONE), expand(*b)];
            assert(is_expanded(Term::Integer(MINUS_ONE)));
            assert(all_expanded(inner));
            lemma_canonical_keeps_expanded(inner);
            lemma_distribute_expands(canonical(inner));
            let pair = seq![expand(*a), distribute(canonical(inner))];
            assert(all_expanded(pair));
            lemma_canonical_keeps_expanded(pair);
            lemma_canonical_permutes(pair);
        },
    }
}

/// The operands of a node, each expanded, are multiplied out.
pub proof fn lemma_each_expanded(ops: Seq<Term>)
    ensures
        all_expanded(expand_each(ops)),
    decreases ops,
{
    assert forall|i: int| 0 <= i < expand_each(ops).len() implies is_expanded(
        #[trigger] expand_each(ops)[i],
    ) by {
        lemma_expand_reaches_normal_form(ops[i]);
    }
}

/// Expansion changes nothing that is multiplied out.
pub proof fn lemma_expanded_is_fixed(t: Term)
    requires
        is_expanded(t),
    ensures
        expand(t) == t,
    decreases t,
{
    match t {
        Term::Integer(_) => {},
        Term::Real(_) => {},
        Term::Constant(_, _) => {},
        Term::Variable(_) => {},
        Term::Power(a, b) => {
            lemma_expanded_is_fixed(*a);
            lemma_expanded_is_fixed(*b);
        },
        Term::Logarithm(a, b) => {
            lemma_expanded_is_fixed(*a);
            lemma_expanded_is_fixed(*b);
        },
        Term::Sine(a) => {
            lemma_expanded_is_fixed(*a);
        },
        Term::Cosine(a) => {
            lemma_expanded_is_fixed(*a);
        },
        Term::Product(ops) => {
            lemma_each_fixed(ops);
            lemma_canonical_fixed(ops);
            lemma_first_sum_is(ops, ops.len() as int);
        },
        Term::Sum(ops) => {
            lemma_each_fixed(ops);
            lemma_canonical_fixed(ops);
        },
        Term::Quotient(_, _) => {},
        Term::Difference(_, _) => {},
    }
}

/// Expanding each of a list of multiplied-out operands gives the list back.
pub proof fn lemma_each_fixed(ops: Seq<Term>)
    requires
        all_expanded(ops),
    ensures
        expand_each(ops) == ops,
    decreases ops,
{
    assert forall|i: int| 0 <= i < ops.len() implies expand_each(ops)[i] == ops[i] by {
        lemma_expanded_is_fixed(ops[i]);
    }
    assert(expand_each(ops) =~= ops);
}

/// Expanding twice gives what expanding once gives.
pub proof fn lemma_expand_idempotent(t: Term)
    ensures
        expand(expand(t)) == expand(t),
{
    lemma_expand_reaches_normal_form(t);
    lemma_expanded_is_fixed(expand(t));
}

} // verus!

//! What expansion computes, as functions on terms.
//!
//! Expansion is structural and folds nothing. The children of a node are
//! expanded first. A product with a sum among its factors is distributed over
//! that sum, and the products that come of it are distributed again until no
//! factor is a sum. A sum raised to a non-negative integer literal is multiplied
//! out. A difference and a quotient are expanded as the sum and the product that
//! they stand for.
use crate::simplify::spec::MINUS_ONE;
use crate::term::{canonical, Term};
use vstd::prelude::*;

verus! {

/// How many sums a term holds at its top: a sum counts itself and the sums among
/// its operands in the same way; anything else counts nothing.
pub open spec fn weight(t: Term) -> nat
    decreases t,
{
    match t {
        Term::Sum(ops) => 1 + weights(ops),
        _ => 0,
    }
}

/// The weights of the terms of a list, added up.
pub open spec fn weights(ops: Seq<Term>) -> nat
    decreases ops,
{
    if ops.len() == 0 {
        0
    } else {
        weights(ops.drop_last()) + weight(ops.last())
    }
}

/// The position of the first factor that is a sum; the number of factors when
/// none is.
pub open spec fn first_sum(factors: Seq<Term>) -> int
    decreases factors.len(),
{
    if factors.len() == 0 {
        0
    } else if factors[0] is Sum {
        0
    } else {
        1 + first_sum(factors.drop_first())
    }
}

/// The weight of a list of which one term is replaced.
pub proof fn lemma_weights_update(s: Seq<Term>, k: int, x: Term)
    requires
        0 <= k < s.len(),
    ensures
        weights(s.update(k, x)) + weight(s[k]) == weights(s) + weight(x),
    decreases s.len(),
{
    if k == s.len() - 1 {
        assert(s.update(k, x).drop_last() =~= s.drop_last());
    } else {
        assert(s.update(k, x).drop_last() =~= s.drop_last().update(k, x));
        lemma_weights_update(s.drop_last(), k, x);
    }
}

/// The weight of a term of a list is at most the weight of the list.
pub proof fn lemma_weight_within(s: Seq<Term>, j: int)
    requires
        0 <= j < s.len(),
    ensures
        weight(s[j]) <= weights(s),
    decreases s.len(),
{
    if j < s.len() - 1 {
        lemma_weight_within(s.drop_last(), j);
    }
}

/// `first_sum` finds the first factor that is a sum.
pub proof fn lemma_first_sum(factors: Seq<Term>)
    ensures
        0 <= first_sum(factors) <= factors.len(),
        forall|j: int| 0 <= j < first_sum(factors) ==> !(#[trigger] factors[j] is Sum),
        first_sum(factors) < factors.len() ==> factors[first_sum(factors)] is Sum,
    decreases factors.len(),
{
    if factors.len() > 0 && !(factors[0] is Sum) {
        lemma_first_sum(factors.drop_first());
        let k = first_sum(factors.drop_first());
        assert forall|j: int| 0 <= j < 1 + k implies !(#[trigger] factors[j] is Sum) by {
            if j > 0 {
                assert(factors[j] == factors.drop_first()[j - 1]);
            }
        }
    }
}

/// A position that holds the first sum is the one `first_sum` finds.
pub proof fn lemma_first_sum_is(factors: Seq<Term>, k: int)
    requires
        0 <= k <= factors.len(),
        forall|j: int| 0 <= j < k ==> !(#[trigger] factors[j] is Sum),
        k < factors.len() ==> factors[k] is Sum,
    ensures
        first_sum(factors) == k,
{
    lemma_first_sum(factors);
    let p = first_sum(factors);
    if p < k {
        assert(!(factors[p] is Sum));
    }
}

/// Replacing a sum among the factors by one of its addends takes weight away.
pub proof fn lemma_replacing_lightens(factors: Seq<Term>, k: int, j: int)
    requires
        0 <= k < factors.len(),
        factors[k] is Sum,
        0 <= j < factors[k]->Sum_0.len(),
    ensures
        weights(factors.update(k, factors[k]->Sum_0[j])) < weights(factors),
{
    let addends = factors[k]->Sum_0;
    lemma_weights_update(factors, k, addends[j]);
    lemma_weight_within(addends, j);
}

/// The products that come of putting each addend of the sum at `k` in the
/// place of the sum, each multiplied out.
pub open spec fn spread(factors: Seq<Term>, k: int) -> Seq<Term>
    decreases weights(factors), 0int,
    via spread_decreases
{
    if 0 <= k < factors.len() && factors[k] is Sum {
        let addends = factors[k]->Sum_0;
        Seq::new(
            addends.len(),
            |j: int|
                if 0 <= j < addends.len() {
                    distribute(factors.update(k, addends[j]))
                } else {
                    Term::Integer(0)
                },
        )
    } else {
        Seq::empty()
    }
}

#[via_fn]
proof fn spread_decreases(factors: Seq<Term>, k: int) {
    if 0 <= k < factors.len() && factors[k] is Sum {
        let addends = factors[k]->Sum_0;
        assert forall|j: int| 0 <= j < addends.len() implies weights(
            #[trigger] factors.update(k, addends[j]),
        ) < weights(factors) by {
            lemma_replacing_lightens(factors, k, j);
        }
    }
}

/// The product of the factors, multiplied out over every sum among them.
pub open spec fn distribute(factors: Seq<Term>) -> Term
    decreases weights(factors), 1int,
{
    let k = first_sum(factors);
    if 0 <= k < factors.len() && factors[k] is Sum {
        Term::Sum(canonical(spread(factors, k)))
    } else {
        Term::Product(canonical(factors))
    }
}

/// A sum multiplied by itself `k` times and multiplied out.
pub open spec fn power_expansion(x: Term, k: nat) -> Term
    decreases k,
{
    if k == 0 {
        Term::Integer(1)
    } else if k == 1 {
        x
    } else {
        distribute(canonical(seq![power_expansion(x, (k - 1) as nat), x]))
    }
}

/// The expansion of a power whose base and exponent are expanded: a sum raised
/// to a non-negative integer literal is multiplied out, any other power stays.
pub open spec fn expand_power(x: Term, y: Term) -> Term {
    if x is Sum && y is Integer && y->Integer_0 >= 0 {
        power_expansion(x, y->Integer_0 as nat)
    } else {
        Term::Power(Box::new(x), Box::new(y))
    }
}

/// Each operand expanded, in the order given.
pub open spec fn expand_each(ops: Seq<Term>) -> Seq<Term>
    decreases ops,
{
    Seq::new(
        ops.len(),
        |i: int|
            if 0 <= i < ops.len() {
                expand(ops[i])
            } else {
                Term::Integer(0)
            },
    )
}

/// The expanded form of a term.
pub open spec fn expand(t: Term) -> Term
    decreases t,
{
    match t {
        Term::Integer(_) => t,
        Term::Real(_) => t,
        Term::Constant(_, _) => t,
        Term::Variable(_) => t,
        Term::Power(a, b) => expand_power(expand(*a), expand(*b)),
        Term::Logarithm(a, b) => Term::Logarithm(Box::new(expand(*a)), Box::new(expand(*b))),
        Term::Sine(a) => Term::Sine(Box::new(expand(*a))),
        Term::Cosine(a) => Term::Cosine(Box::new(expand(*a))),
        Term::Product(ops) => distribute(canonical(expand_each(ops))),
        Term::Sum(ops) => Term::Sum(canonical(expand_each(ops))),
        Term::Quotient(a, b) => distribute(
            canonical(
                seq![
                    expand(*a),
                    Term::Power(Box::new(expand(*b)), Box::new(Term::Integer(MINUS_ONE))),
                ],
            ),
        ),
        Term::Difference(a, b) => Term::Sum(
            canonical(
                seq![expand(*a), distribute(canonical(seq![Term::Integer(MINUS_ONE), expand(*b)]))],
            ),
        ),
    }
}

} // verus!

//! What differentiation computes, as functions on terms. The derivative is not
//! simplified.
//!
//! * A variable differentiates to one when it is the variable of
//!   differentiation; every other symbol and every literal differentiates to zero.
//! * The derivative of a sum is the sum of the derivatives of its operands.
//! * The derivative of a product is the sum, over its operands, of the product in
//!   which that operand is replaced by its derivative.
//! * A power with a literal exponent `n` differentiates to `n * base ^ (n - 1) *
//!   base'`; any other power to `base ^ exp * (exp' * ln(base) + exp * base' /
//!   base)`.
//! * A logarithm differentiates to `argument' * 1 / (argument * ln(base))`, and
//!   the natural logarithm to `argument' * 1 / argument`; the base is taken as
//!   constant.
//! * `sin(a)` differentiates to `a' * cos(a)` and `cos(a)` to `a' * (-1 * sin(a))`.
//! * A difference and a quotient differentiate as the sum and the product that
//!   they stand for.
use crate::simplify::spec::MINUS_ONE;
use crate::term::{canonical, Term};
use vstd::prelude::*;

verus! {

/// The bit pattern of Euler's number.
pub const EULER: u64 = 0x4005_BF0A_8B14_5769;

/// Euler's number as a bound constant.
pub open spec fn euler() -> Term {
    Term::Constant("e"@, EULER)
}

/// The natural logarithm of `t`.
pub open spec fn natural_logarithm(t: Term) -> Term {
    Term::Logarithm(Box::new(t), Box::new(euler()))
}

/// Whether a term is a literal or a bound constant.
pub open spec fn is_literal(t: Term) -> bool {
    t is Integer || t is Real || t is Constant
}

/// The product of the given factors, as written.
pub open spec fn product_of(factors: Seq<Term>) -> Term {
    Term::Product(canonical(factors))
}

/// The sum of the given addends, as written.
pub open spec fn sum_of(addends: Seq<Term>) -> Term {
    Term::Sum(canonical(addends))
}

/// The derivative of a product, from its operands and their derivatives: the
/// sum, over the operands, of the product in which that operand is replaced by
/// its derivative.
pub open spec fn product_rule(ops: Seq<Term>, ds: Seq<Term>) -> Term {
    sum_of(product_rule_terms(ops, ds))
}

/// The addends of the derivative of a product: for each operand, the product in
/// which that operand is replaced by its derivative.
pub open spec fn product_rule_terms(ops: Seq<Term>, ds: Seq<Term>) -> Seq<Term> {
    Seq::new(ops.len(), |i: int| product_of(ops.update(i, ds[i])))
}

/// The derivative of `b ^ e`, from the derivatives `db` of `b` and `de` of `e`.
pub open spec fn power_rule(b: Term, e: Term, db: Term, de: Term) -> Term {
    if is_literal(e) {
        product_of(
            seq![
                e,
                Term::Power(
                    Box::new(b),
                    Box::new(Term::Difference(Box::new(e), Box::new(Term::Integer(1)))),
                ),
                db,
            ],
        )
    } else {
        product_of(
            seq![
                Term::Power(Box::new(b), Box::new(e)),
                sum_of(
                    seq![
                        product_of(seq![de, natural_logarithm(b)]),
                        product_of(seq![e, Term::Quotient(Box::new(db), Box::new(b))]),
                    ],
                ),
            ],
        )
    }
}

/// The derivative of the logarithm of `a` to the base `base`, from the
/// derivative `da` of `a`.
pub open spec fn logarithm_rule(a: Term, base: Term, da: Term) -> Term {
    if base == euler() {
        product_of(seq![da, Term::Quotient(Box::new(Term::Integer(1)), Box::new(a))])
    } else {
        product_of(
            seq![
                da,
                Term::Quotient(
                    Box::new(Term::Integer(1)),
                    Box::new(product_of(seq![a, natural_logarithm(base)])),
                ),
            ],
        )
    }
}

/// The derivative of the sine of `a`, from the derivative `da` of `a`.
pub open spec fn sine_rule(a: Term, da: Term) -> Term {
    product_of(seq![da, Term::Cosine(Box::new(a))])
}

/// The derivative of the cosine of `a`, from the derivative `da` of `a`.
pub open spec fn cosine_rule(a: Term, da: Term) -> Term {
    product_of(seq![da, product_of(seq![Term::Integer(MINUS_ONE), Term::Sine(Box::new(a))])])
}

/// For each operand its derivative: `dkey` for the operands that are `key`,
/// `dother` for the others.
pub open spec fn aligned(ops: Seq<Term>, key: Term, dkey: Term, dother: Term) -> Seq<Term> {
    Seq::new(
        ops.len(),
        |i: int|
            if ops[i] == key {
                dkey
            } else {
                dother
            },
    )
}

/// The derivative of `-b`, from the derivative `db` of `b`: the product rule on
/// the product of `-1` and `b`.
pub open spec fn negation_rule(b: Term, db: Term) -> Term {
    let ops = canonical(seq![Term::Integer(MINUS_ONE), b]);
    product_rule(ops, aligned(ops, b, db, Term::Integer(0)))
}

/// The derivative of `a - b`, from the derivatives `da` of `a` and `db` of `b`:
/// that of the sum of `a` and `-b`.
pub open spec fn difference_rule(b: Term, da: Term, db: Term) -> Term {
    sum_of(seq![da, negation_rule(b, db)])
}

/// The derivative of `a / b`: that of the product of `a` and `b ^ -1`.
pub open spec fn quotient_rule(a: Term, b: Term, da: Term, db: Term) -> Term {
    let inverse = Term::Power(Box::new(b), Box::new(Term::Integer(MINUS_ONE)));
    let ops = canonical(seq![a, inverse]);
    product_rule(
        ops,
        aligned(ops, a, da, power_rule(b, Term::Integer(MINUS_ONE), db, Term::Integer(0))),
    )
}

/// The derivative of each operand, in the order given.
pub open spec fn derivative_each(ops: Seq<Term>, x: Seq<char>) -> Seq<Term>
    decreases ops,
{
    Seq::new(
        ops.len(),
        |i: int|
            if 0 <= i < ops.len() {
                derivative(ops[i], x)
            } else {
                Term::Integer(0)
            },
    )
}

/// The derivative of a term with respect to the variable named `x`.
pub open spec fn derivative(t: Term, x: Seq<char>) -> Term
    decreases t,
{
    match t {
        Term::Integer(_) => Term::Integer(0),
        Term::Real(_) => Term::Integer(0),
        Term::Constant(_, _) => Term::Integer(0),
        Term::Variable(label) => if label == x {
            Term::Integer(1)
        } else {
            Term::Integer(0)
        },
        Term::Power(b, e) => power_rule(*b, *e, derivative(*b, x), derivative(*e, x)),
        Term::Logarithm(a, base) => logarithm_rule(*a, *base, derivative(*a, x)),
        Term::Sine(a) => sine_rule(*a, derivative(*a, x)),
        Term::Cosine(a) => cosine_rule(*a, derivative(*a, x)),
        Term::Product(ops) => product_rule(ops, derivative_each(ops, x)),
        Term::Sum(ops) => sum_of(derivative_each(ops, x)),
        Term::Quotient(a, b) => quotient_rule(*a, *b, derivative(*a, x), derivative(*b, x)),
        Term::Difference(a, b) => difference_rule(*b, derivative(*a, x), derivative(*b, x)),
    }
}

/// The derivative of a sum of two terms is the sum of their derivatives.
pub proof fn lemma_derivative_of_sum(a: Term, b: Term, x: Seq<char>)
    ensures
        derivative(sum_of(seq![a, b]), x) == sum_of(seq![derivative(a, x), derivative(b, x)]),
{
    let ops = seq![a, b];
    let f = |t: Term| derivative(t, x);
    crate::term::lemma_canonical_of_mapped(ops, f);
    assert(derivative_each(canonical(ops), x) =~= canonical(ops).map_values(f));
    assert(ops.map_values(f) =~= seq![derivative(a, x), derivative(b, x)]);
}

/// The derivative of a sum is the sum of the derivatives of its operands, in
/// whatever order the operands are given.
pub proof fn lemma_derivative_is_linear(ops: Seq<Term>, x: Seq<char>)
    ensures
        derivative(sum_of(ops), x) == sum_of(derivative_each(ops, x)),
{
    let f = |t: Term| derivative(t, x);
    crate::term::lemma_canonical_of_mapped(ops, f);
    assert(derivative_each(canonical(ops), x) =~= canonical(ops).map_values(f));
    assert(derivative_each(ops, x) =~= ops.map_values(f));
}

/// Differentiating a sum of two terms and simplifying gives what simplifying
/// the sum of the two derivatives gives.
pub proof fn lemma_simplified_derivative_of_sum(a: Term, b: Term, x: Seq<char>)
    ensures
        crate::simplify::spec::simplify(derivative(sum_of(seq![a, b]), x))
            == crate::simplify::spec::simplify(sum_of(seq![derivative(a, x), derivative(b, x)])),
{
    lemma_derivative_of_sum(a, b, x);
}

/// A difference differentiates as the sum of the first term and the negation of
/// the second.
pub proof fn lemma_derivative_of_difference(a: Term, b: Term, x: Seq<char>)
    ensures
        derivative(Term::Difference(Box::new(a), Box::new(b)), x) == derivative(
            sum_of(seq![a, product_of(seq![Term::Integer(MINUS_ONE), b])]),
            x,
        ),
{
    let minus = Term::Integer(MINUS_ONE);
    let ops = canonical(seq![minus, b]);
    let negation = product_of(seq![minus, b]);
    lemma_derivative_of_sum(a, negation, x);
    crate::term::lemma_canonical_permutes(seq![minus, b]);
    assert(derivative_each(ops, x) =~= aligned(ops, b, derivative(b, x), Term::Integer(0))) by {
        assert forall|i: int| 0 <= i < ops.len() implies derivative_each(ops, x)[i] == aligned(
            ops,
            b,
            derivative(b, x),
            Term::Integer(0),
        )[i] by {
            assert(seq![minus, b].contains(ops[i]));
            let j = choose|j: int| 0 <= j < 2 && seq![minus, b][j] == ops[i];
            if j == 0 {
                assert(ops[i] == minus);
            } else {
                assert(ops[i] == b);
            }
        }
    }
}

/// A quotient differentiates as the product of the first term and the inverse
/// of the second.
pub proof fn lemma_derivative_of_quotient(a: Term, b: Term, x: Seq<char>)
    ensures
        derivative(Term::Quotient(Box::new(a), Box::new(b)), x) == derivative(
            product_of(seq![a, Term::Power(Box::new(b), Box::new(Term::Integer(MINUS_ONE)))]),
            x,
        ),
{
    let inverse = Term::Power(Box::new(b), Box::new(Term::Integer(MINUS_ONE)));
    let ops = canonical(seq![a, inverse]);
    let d_inverse = power_rule(b, Term::Integer(MINUS_ONE), derivative(b, x), Term::Integer(0));
    assert(derivative(inverse, x) == d_inverse);
    crate::term::lemma_canonical_permutes(seq![a, inverse]);
    assert(derivative_each(ops, x) =~= aligned(ops, a, derivative(a, x), d_inverse)) by {
        assert forall|i: int| 0 <= i < ops.len() implies derivative_each(ops, x)[i] == aligned(
            ops,
            a,
            derivative(a, x),
            d_inverse,
        )[i] by {
            assert(seq![a, inverse].contains(ops[i]));
            let j = choose|j: int| 0 <= j < 2 && seq![a, inverse][j] == ops[i];
            if j == 0 {
                assert(ops[i] == a);
            } else {
                assert(ops[i] == inverse);
            }
        }
    }
}

} // verus!

//! What simplification computes, as functions on terms.
//!
//! Simplification works bottom-up: the children of a node are simplified first,
//! a difference and a quotient are rewritten as a sum and a product, and then the
//! rules of the node are applied to its operands:
//!
//! * in a sum, the integer literals are added up, operands that are each other's
//!   negation cancel, and a literal zero beside other operands is left out;
//! * in a product, the integer literals are multiplied, the reciprocals of integer
//!   literals are multiplied, numerator and denominator are reduced to lowest
//!   terms with a positive denominator, a literal one beside other operands is
//!   left out, two equal negations `(-w) * (-w)` become `w ^ 2`, and a product of
//!   just two real literals `-1` becomes the real literal `1`;
//! * a sum or product that is left with no operand is the neutral literal, and one
//!   that is left with a single operand is that operand.
//!
//! Integer literals are only combined when the exact result is a 64-bit integer.
//! Real literals are never computed with.
use crate::fraction::{fits, reduced_denominator, reduced_numerator};
use crate::term::{canonical, Term};
use vstd::prelude::*;

verus! {

/// The integer `-1`, by which a term is negated.
pub const MINUS_ONE: i64 = -1;

/// The bit pattern of the real number `-1`.
pub const REAL_MINUS_ONE: u64 = 0xBFF0_0000_0000_0000;

/// The bit pattern of the real number `1`.
pub const REAL_ONE: u64 = 0x3FF0_0000_0000_0000;

/// The predicate "is an integer literal".
pub open spec fn whole() -> spec_fn(Term) -> bool {
    |t: Term| t is Integer
}

/// The predicate "is not an integer literal".
pub open spec fn not_whole() -> spec_fn(Term) -> bool {
    |t: Term| !(t is Integer)
}

/// The operands that pass `p`, in their order.
pub open spec fn keep(ops: Seq<Term>, p: spec_fn(Term) -> bool) -> Seq<Term>
    decreases ops.len(),
{
    if ops.len() == 0 {
        ops
    } else if p(ops.last()) {
        keep(ops.drop_last(), p).push(ops.last())
    } else {
        keep(ops.drop_last(), p)
    }
}

/// The operands that are integer literals.
pub open spec fn integers(ops: Seq<Term>) -> Seq<Term> {
    keep(ops, whole())
}

/// The operands that are not integer literals.
pub open spec fn others(ops: Seq<Term>) -> Seq<Term> {
    keep(ops, not_whole())
}

/// What an operand adds to the sum of the integer literals.
pub open spec fn addend_of(t: Term) -> int {
    match t {
        Term::Integer(v) => v as int,
        _ => 0,
    }
}

/// What an operand contributes to the product of the integer literals.
pub open spec fn factor_of(t: Term) -> int {
    match t {
        Term::Integer(v) => v as int,
        _ => 1,
    }
}

/// The exact sum of the integer literals among the operands.
pub open spec fn total(ops: Seq<Term>) -> int
    decreases ops.len(),
{
    if ops.len() == 0 {
        0
    } else {
        total(ops.drop_last()) + addend_of(ops.last())
    }
}

/// The exact product of the integer literals among the operands.
pub open spec fn product(ops: Seq<Term>) -> int
    decreases ops.len(),
{
    if ops.len() == 0 {
        1
    } else {
        product(ops.drop_last()) * factor_of(ops.last())
    }
}

/// The literal part of a simplified sum: one literal for all the integer
/// literals when their sum is a 64-bit integer, else the literals as they are.
pub open spec fn sum_literals(ops: Seq<Term>) -> Seq<Term> {
    if integers(ops).len() > 0 && fits(total(ops)) {
        seq![Term::Integer(total(ops) as i64)]
    } else {
        integers(ops)
    }
}

/// The literal part of a simplified product: one literal for all the integer
/// literals when their product is a 64-bit integer, else the literals as they are.
pub open spec fn product_literals(ops: Seq<Term>) -> Seq<Term> {
    if integers(ops).len() > 0 && fits(product(ops)) {
        seq![Term::Integer(product(ops) as i64)]
    } else {
        integers(ops)
    }
}

/// `-w` written as a product, for a `w` that is not an integer literal.
pub open spec fn is_negation(t: Term) -> bool {
    t matches Term::Product(fs) && fs.len() == 2 && fs[0] == Term::Integer(MINUS_ONE) && !(fs[1]
        is Integer)
}

/// The `w` of a negation `-w`.
pub open spec fn negated(t: Term) -> Term {
    t->Product_0[1]
}

/// Whether one of two terms is the negation of the other.
pub open spec fn opposite(x: Term, y: Term) -> bool {
    (is_negation(y) && negated(y) == x) || (is_negation(x) && negated(x) == y)
}

/// The first position in `acc` that holds the opposite of `x`; the length of
/// `acc` when there is none.
pub open spec fn partner(acc: Seq<Term>, x: Term) -> int
    decreases acc.len(),
{
    if acc.len() == 0 {
        0
    } else if opposite(acc[0], x) {
        0
    } else {
        1 + partner(acc.drop_first(), x)
    }
}

/// The operands that are left when opposite operands cancel. The operands are
/// taken in order; each one cancels against the first opposite operand that is
/// still there, and stays when there is none.
pub open spec fn cancel(ops: Seq<Term>) -> Seq<Term>
    decreases ops.len(),
{
    if ops.len() == 0 {
        ops
    } else {
        let acc = cancel(ops.drop_last());
        let k = partner(acc, ops.last());
        if k < acc.len() {
            acc.remove(k)
        } else {
            acc.push(ops.last())
        }
    }
}

/// The literal part followed by the rest; a literal part that is just the
/// neutral literal is left out beside other operands.
pub open spec fn join(literals: Seq<Term>, rest: Seq<Term>, neutral: i64) -> Seq<Term> {
    if literals == seq![Term::Integer(neutral)] && rest.len() > 0 {
        rest
    } else {
        literals + rest
    }
}

/// The operands of a simplified sum, given the simplified operands in canonical
/// order.
#[verifier::opaque]
pub open spec fn sum_operands(ops: Seq<Term>) -> Seq<Term> {
    join(sum_literals(ops), cancel(others(ops)), 0)
}

/// The simplified sum of simplified operands in canonical order.
#[verifier::opaque]
pub open spec fn simplify_sum(ops: Seq<Term>) -> Term {
    let r = sum_operands(ops);
    if r.len() == 0 {
        Term::Integer(0)
    } else if r.len() == 1 {
        r[0]
    } else {
        Term::Sum(r)
    }
}

/// `1 / d` as a term.
pub open spec fn reciprocal(d: i64) -> Term {
    Term::Power(Box::new(Term::Integer(d)), Box::new(Term::Integer(MINUS_ONE)))
}

/// Whether a term is `1 / d` for an integer `d` other than zero.
pub open spec fn is_reciprocal(t: Term) -> bool {
    t matches Term::Power(b, e) && *b matches Term::Integer(d) && d != 0 && *e == Term::Integer(
        MINUS_ONE,
    )
}

/// The `d` of a reciprocal `1 / d`.
pub open spec fn denominator_of(t: Term) -> i64 {
    t->Power_0->Integer_0
}

/// The predicate "is the reciprocal of an integer literal".
pub open spec fn inverse() -> spec_fn(Term) -> bool {
    |t: Term| is_reciprocal(t)
}

/// The predicate "is neither an integer literal nor the reciprocal of one".
pub open spec fn plain() -> spec_fn(Term) -> bool {
    |t: Term| !(t is Integer) && !is_reciprocal(t)
}

/// The operands that are reciprocals of integer literals.
pub open spec fn inverses(ops: Seq<Term>) -> Seq<Term> {
    keep(ops, inverse())
}

/// The operands that are neither integer literals nor reciprocals of them.
pub open spec fn plains(ops: Seq<Term>) -> Seq<Term> {
    keep(ops, plain())
}

/// What an operand contributes to the product of the denominators.
pub open spec fn divisor_of(t: Term) -> int {
    if is_reciprocal(t) {
        denominator_of(t) as int
    } else {
        1
    }
}

/// The exact product of the denominators of the reciprocals among the operands.
pub open spec fn divisor(ops: Seq<Term>) -> int
    decreases ops.len(),
{
    if ops.len() == 0 {
        1
    } else {
        divisor(ops.drop_last()) * divisor_of(ops.last())
    }
}

/// The denominator part of a simplified product: one reciprocal for all the
/// reciprocals when the product of their denominators is a 64-bit integer, else
/// the reciprocals as they are.
pub open spec fn inverse_literals(ops: Seq<Term>) -> Seq<Term> {
    if inverses(ops).len() > 0 && fits(divisor(ops)) {
        seq![reciprocal(divisor(ops) as i64)]
    } else {
        inverses(ops)
    }
}

/// The fraction `p / q`, for a positive `q`, as operands of a product: the
/// integer `p` when `q` is one, `1 / q` when `p` is one, else `p` and `1 / q`.
pub open spec fn fraction_operands(p: i64, q: i64) -> Seq<Term> {
    if q == 1 {
        seq![Term::Integer(p)]
    } else if p == 1 {
        seq![reciprocal(q)]
    } else {
        seq![Term::Integer(p), reciprocal(q)]
    }
}

/// The numerator that a literal part stands for: the literal, or one when there
/// is none.
pub open spec fn numerator_in(n: Seq<Term>) -> int {
    if n.len() == 1 {
        n[0]->Integer_0 as int
    } else {
        1
    }
}

/// Whether a literal part and a denominator part are a fraction whose lowest
/// terms are 64-bit integers: at most one integer literal over one reciprocal.
pub open spec fn reducible(n: Seq<Term>, d: Seq<Term>) -> bool {
    &&& d.len() == 1
    &&& is_reciprocal(d[0])
    &&& n.len() <= 1
    &&& n.len() == 1 ==> n[0] is Integer
    &&& fits(reduced_numerator(numerator_in(n), denominator_of(d[0]) as int))
    &&& fits(reduced_denominator(numerator_in(n), denominator_of(d[0]) as int))
}

/// The rational part of a simplified product: the literal part and the
/// denominator part, reduced to lowest terms when they are a fraction.
pub open spec fn rational_part(ops: Seq<Term>) -> Seq<Term> {
    let n = product_literals(ops);
    let d = inverse_literals(ops);
    if reducible(n, d) {
        fraction_operands(
            reduced_numerator(numerator_in(n), denominator_of(d[0]) as int) as i64,
            reduced_denominator(numerator_in(n), denominator_of(d[0]) as int) as i64,
        )
    } else {
        n + d
    }
}

/// The square of a term.
pub open spec fn square(t: Term) -> Term {
    Term::Power(Box::new(t), Box::new(Term::Integer(2)))
}

/// The first position in `acc` that holds `x`; the length of `acc` when there
/// is none.
pub open spec fn twin(acc: Seq<Term>, x: Term) -> int
    decreases acc.len(),
{
    if acc.len() == 0 {
        0
    } else if acc[0] == x {
        0
    } else {
        1 + twin(acc.drop_first(), x)
    }
}

/// The operands with every two equal negations `-w` replaced by the square of
/// `w`. The operands are taken in order; a negation that meets an equal one that
/// is still there leaves with it, and the square comes in their place.
pub open spec fn squared(ops: Seq<Term>) -> Seq<Term>
    decreases ops.len(),
{
    if ops.len() == 0 {
        ops
    } else {
        let acc = squared(ops.drop_last());
        let k = twin(acc, ops.last());
        if is_negation(ops.last()) && k < acc.len() {
            acc.remove(k).push(square(negated(ops.last())))
        } else {
            acc.push(ops.last())
        }
    }
}

/// The operands of a simplified product, given the simplified operands in
/// canonical order.
#[verifier::opaque]
pub open spec fn product_operands(ops: Seq<Term>) -> Seq<Term> {
    canonical(join(rational_part(ops), squared(plains(ops)), 1))
}

/// Whether the operands of a product are two real literals `-1`.
pub open spec fn is_sign_pair(r: Seq<Term>) -> bool {
    r.len() == 2 && r[0] == Term::Real(REAL_MINUS_ONE) && r[1] == Term::Real(REAL_MINUS_ONE)
}

/// The simplified product of simplified operands in canonical order.
#[verifier::opaque]
pub open spec fn simplify_product(ops: Seq<Term>) -> Term {
    let r = product_operands(ops);
    if r.len() == 0 {
        Term::Integer(1)
    } else if r.len() == 1 {
        r[0]
    } else if is_sign_pair(r) {
        Term::Real(REAL_ONE)
    } else {
        Term::Product(r)
    }
}

/// The simplified negation of a simplified term.
pub open spec fn negate(t: Term) -> Term {
    simplify_product(canonical(seq![Term::Integer(MINUS_ONE), t]))
}

/// Each operand simplified, in the order given.
pub open spec fn simplify_each(ops: Seq<Term>) -> Seq<Term>
    decreases ops,
{
    Seq::new(
        ops.len(),
        |i: int|
            if 0 <= i < ops.len() {
                simplify(ops[i])
            } else {
                Term::Integer(0)
            },
    )
}

/// The simplified form of a term.
pub open spec fn simplify(t: Term) -> Term
    decreases t,
{
    match t {
        Term::Integer(_) => t,
        Term::Real(_) => t,
        Term::Constant(_, _) => t,
        Term::Variable(_) => t,
        Term::Power(a, b) => Term::Power(Box::new(simplify(*a)), Box::new(simplify(*b))),
        Term::Logarithm(a, b) => Term::Logarithm(Box::new(simplify(*a)), Box::new(simplify(*b))),
        Term::Sine(a) => Term::Sine(Box::new(simplify(*a))),
        Term::Cosine(a) => Term::Cosine(Box::new(simplify(*a))),
        Term::Product(ops) => simplify_product(canonical(simplify_each(ops))),
        Term::Sum(ops) => simplify_sum(canonical(simplify_each(ops))),
        Term::Quotient(a, b) => simplify_product(
            canonical(
                seq![
                    simplify(*a),
                    Term::Power(Box::new(simplify(*b)), Box::new(Term::Integer(MINUS_ONE))),
                ],
            ),
        ),
        Term::Difference(a, b) => if simplify(*a) == simplify(*b) {
            Term::Integer(0)
        } else {
            simplify_sum(canonical(seq![simplify(*a), negate(simplify(*b))]))
        },
    }
}

} // verus!

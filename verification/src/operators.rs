//! The operators `+`, `-`, `*`, `/`, `^` and the unary `-` on expressions and on
//! references to expressions. Each builds a node and simplifies nothing.
//!
//! `a + b` and `a * b` are the sum and the product of the two operands, `a - b`
//! is the difference node, `a ^ b` the power node, and `-a` the product of `-1`
//! and `a`. `a / b` is the product that a quotient stands for: the factors of
//! `a`, if `a` is a product, or else `a` itself, and `b ^ -1`.
//!
//! Verified code writes the unary minus as a call of `neg`, with
//! `std::ops::Neg` in scope: Verus takes the sign itself on integers only.
use crate::classification::is_symbolic;
use crate::differentiate::spec::{derivative, lemma_derivative_of_sum};
use crate::expand::laws::{
    all_expanded, is_expanded, lemma_canonical_keeps_expanded, lemma_expanded_is_fixed,
};
use crate::expand::spec::expand;
use crate::expression::{list_of_two, terms_of, Expression, Subtraction};
use crate::meaning::{
    all_defined, faithful, number, product_of_numbers, sum_of_numbers, value, Reading,
};
use crate::meaning::lemmas::{lemma_numbers_of_canonical, lemma_numbers_of_push};
use crate::simplify::laws::{lemma_difference_of_equals, lemma_negations_multiply_to_square};
use crate::simplify::meaning::{lemma_number_of_integer, lemma_numbers_of_one};
use crate::simplify::spec::{simplify, MINUS_ONE};
use crate::term::{canonical, lemma_canonical_of_permutation, lemma_canonical_permutes, Term};
use vstd::prelude::*;
use vstd::std_specs::ops::{
    AddSpecImpl, BitXorSpecImpl, DivSpecImpl, MulSpecImpl, NegSpecImpl, SubSpecImpl,
};

verus! {

/// `a + b`: the sum of the two terms.
pub open spec fn plus(a: Term, b: Term) -> Term {
    Term::Sum(canonical(seq![a, b]))
}

/// `a - b`: the difference of the two terms.
pub open spec fn minus(a: Term, b: Term) -> Term {
    Term::Difference(Box::new(a), Box::new(b))
}

/// `a * b`: the product of the two terms.
pub open spec fn times(a: Term, b: Term) -> Term {
    Term::Product(canonical(seq![a, b]))
}

/// The factors of a product; any other term is its own single factor.
pub open spec fn factors(a: Term) -> Seq<Term> {
    match a {
        Term::Product(fs) => fs,
        _ => seq![a],
    }
}

/// `b ^ -1`.
pub open spec fn inverse_of(b: Term) -> Term {
    Term::Power(Box::new(b), Box::new(Term::Integer(MINUS_ONE)))
}

/// `a / b`: the product of the factors of `a` and `b ^ -1`.
pub open spec fn over(a: Term, b: Term) -> Term {
    Term::Product(canonical(factors(a).push(inverse_of(b))))
}

/// `a ^ b`: the power of the two terms.
pub open spec fn raised(a: Term, b: Term) -> Term {
    Term::Power(Box::new(a), Box::new(b))
}

/// `-a`: the product of `-1` and the term.
pub open spec fn negative(a: Term) -> Term {
    Term::Product(canonical(seq![Term::Integer(MINUS_ONE), a]))
}

/// `a + b` is `b + a`, and `a * b` is `b * a`.
pub proof fn lemma_operators_commute(a: Term, b: Term)
    ensures
        plus(a, b) == plus(b, a),
        times(a, b) == times(b, a),
{
    let x = seq![a, b];
    let y = seq![b, a];
    assert(x.to_multiset() =~= y.to_multiset()) by {
        broadcast use vstd::seq_lib::group_to_multiset_ensures;

        assert(x =~= seq![a].push(b));
        assert(y =~= seq![b].push(a));
        assert(seq![a] =~= Seq::<Term>::empty().push(a));
        assert(seq![b] =~= Seq::<Term>::empty().push(b));
    }
    lemma_canonical_of_permutation(x, y);
}

/// `a - a` simplifies to zero.
pub proof fn lemma_minus_itself(a: Term)
    ensures
        simplify(minus(a, a)) == Term::Integer(0),
{
    lemma_difference_of_equals(a);
}

/// For a term `a` that simplifies to a symbolic term, `(-a) * (-a)` simplifies to
/// what `a ^ 2` simplifies to.
pub proof fn lemma_negatives_multiply_to_square(a: Term)
    requires
        is_symbolic(simplify(a)),
    ensures
        simplify(times(negative(a), negative(a))) == simplify(raised(a, Term::Integer(2))),
{
    lemma_negations_multiply_to_square(a);
}

/// Differentiating `a + b` and simplifying gives what simplifying the sum of the
/// two derivatives gives.
pub proof fn lemma_derivative_of_plus(a: Term, b: Term, x: Seq<char>)
    ensures
        derivative(plus(a, b), x) == plus(derivative(a, x), derivative(b, x)),
        simplify(derivative(plus(a, b), x)) == simplify(
            plus(derivative(a, x), derivative(b, x)),
        ),
{
    lemma_derivative_of_sum(a, b, x);
}

/// Expansion folds nothing: where `a` and `b` are multiplied out, `a + b` is,
/// and expansion gives `a + b` back, whatever literals it holds; and so for
/// `a * b` where neither operand is a sum.
pub proof fn lemma_expansion_keeps_what_is_built(a: Term, b: Term)
    requires
        is_expanded(a),
        is_expanded(b),
    ensures
        is_expanded(plus(a, b)),
        expand(plus(a, b)) == plus(a, b),
        !(a is Sum) && !(b is Sum) ==> is_expanded(times(a, b)) && expand(times(a, b)) == times(
            a,
            b,
        ),
{
    let pair = seq![a, b];
    assert(all_expanded(pair));
    lemma_canonical_keeps_expanded(pair);
    lemma_canonical_permutes(pair);
    lemma_expanded_is_fixed(plus(a, b));
    if !(a is Sum) && !(b is Sum) {
        assert forall|i: int| 0 <= i < canonical(pair).len() implies !(#[trigger] canonical(
            pair,
        )[i] is Sum) by {
            let x = canonical(pair)[i];
            assert(pair.contains(x));
            let j = choose|j: int| 0 <= j < pair.len() && pair[j] == x;
            assert(pair[j] == a || pair[j] == b);
        }
        lemma_expanded_is_fixed(times(a, b));
    }
}

/// The numbers of what the operators build: `a + b`, `a - b`, `a * b` and `-a`
/// have the sum, the difference, the product and the negative of the numbers
/// of their operands, and no number where an operand has none; `a ^ b` has the
/// power that the reading gives.
pub proof fn lemma_values_of_operators(a: Term, b: Term, m: Reading)
    ensures
        value(plus(a, b), m) == match (value(a, m), value(b, m)) {
            (Some(x), Some(y)) => Some(x + y),
            _ => None,
        },
        value(minus(a, b), m) == match (value(a, m), value(b, m)) {
            (Some(x), Some(y)) => Some(x - y),
            _ => None,
        },
        value(times(a, b), m) == match (value(a, m), value(b, m)) {
            (Some(x), Some(y)) => Some(x * y),
            _ => None,
        },
        value(raised(a, b), m) == match (value(a, m), value(b, m)) {
            (Some(x), Some(y)) => (m.power)(x, y),
            _ => None,
        },
        value(negative(a), m) == match value(a, m) {
            Some(x) => Some(-x),
            None => None,
        },
{
    let none = Seq::<Term>::empty();
    let minus_one = Term::Integer(MINUS_ONE);
    assert(seq![a, b] =~= none.push(a).push(b));
    assert(seq![minus_one, a] =~= none.push(minus_one).push(a));
    lemma_numbers_of_push(none, a, m);
    lemma_numbers_of_push(none.push(a), b, m);
    lemma_numbers_of_push(none, minus_one, m);
    lemma_numbers_of_push(none.push(minus_one), a, m);
    lemma_numbers_of_canonical(seq![a, b], m);
    lemma_numbers_of_canonical(seq![minus_one, a], m);
    assert(all_defined(none, m));
    assert(sum_of_numbers(none, m) == 0real);
    assert(product_of_numbers(none, m) == 1real);
    assert(value(minus_one, m) == Some(-1real));
    let x = number(a, m);
    let y = number(b, m);
    assert(1real * x * y == x * y) by (nonlinear_arith);
    assert(1real * (-1real) * x == -x) by (nonlinear_arith);
}

/// `a / b` has the number of the quotient of `a` and `b`, where that has one.
pub proof fn lemma_over_is_the_quotient(a: Term, b: Term, m: Reading)
    requires
        faithful(m),
        value(Term::Quotient(Box::new(a), Box::new(b)), m) is Some,
    ensures
        value(over(a, b), m) == value(Term::Quotient(Box::new(a), Box::new(b)), m),
{
    let x = number(a, m);
    let y = number(b, m);
    let f = factors(a);
    lemma_number_of_integer(MINUS_ONE, m);
    assert((MINUS_ONE as real) == -1real);
    assert(value(inverse_of(b), m) == Some(1real / y));
    if a is Product {
        assert(all_defined(f, m));
        assert(product_of_numbers(f, m) == x);
    } else {
        lemma_numbers_of_one(a, m);
    }
    lemma_numbers_of_push(f, inverse_of(b), m);
    lemma_numbers_of_canonical(f.push(inverse_of(b)), m);
    assert(x * (1real / y) == x / y) by (nonlinear_arith)
        requires
            y != 0real,
    ;
}

fn plus_of(a: Expression, b: Expression) -> (r: Expression)
    ensures
        r@ == plus(a@, b@),
{
    Expression::addition(list_of_two(a, b))
}

fn minus_of(a: Expression, b: Expression) -> (r: Expression)
    ensures
        r@ == minus(a@, b@),
{
    Subtraction::new(a, b)
}

fn times_of(a: Expression, b: Expression) -> (r: Expression)
    ensures
        r@ == times(a@, b@),
{
    Expression::multiplication(list_of_two(a, b))
}

fn over_of(a: Expression, b: Expression) -> (r: Expression)
    ensures
        r@ == over(a@, b@),
{
    let inverse = Expression::power(b, Expression::Integer(MINUS_ONE));
    match a {
        Expression::Multiplication(c) => {
            let ghost before = c@;
            let mut operands = c.items();
            operands.push(inverse);
            assert(terms_of(operands@) =~= before.push(inverse@));
            Expression::multiplication(operands)
        },
        other => {
            let operands = list_of_two(other, inverse);
            assert(terms_of(operands@) =~= factors(other@).push(inverse@));
            Expression::multiplication(operands)
        },
    }
}

fn raised_of(a: Expression, b: Expression) -> (r: Expression)
    ensures
        r@ == raised(a@, b@),
{
    Expression::power(a, b)
}

fn negative_of(a: Expression) -> (r: Expression)
    ensures
        r@ == negative(a@),
{
    Expression::multiplication(list_of_two(Expression::Integer(MINUS_ONE), a))
}

impl std::ops::Add<Expression> for Expression {
    type Output = Expression;

    fn add(self, other: Expression) -> (r: Expression)
        ensures
            r@ == plus(self@, other@),
    {
        plus_of(self, other)
    }
}

impl AddSpecImpl<Expression> for Expression {
    open spec fn obeys_add_spec() -> bool {
        false
    }

    open spec fn add_req(self, other: Expression) -> bool {
        true
    }

    open spec fn add_spec(self, other: Expression) -> Expression {
        self
    }
}

impl std::ops::Add<&Expression> for Expression {
    type Output = Expression;

    fn add(self, other: &Expression) -> (r: Expression)
        ensures
            r@ == plus(self@, other@),
    {
        plus_of(self, other.clone())
    }
}

impl AddSpecImpl<&Expression> for Expression {
    open spec fn obeys_add_spec() -> bool {
        false
    }

    open spec fn add_req(self, other: &Expression) -> bool {
        true
    }

    open spec fn add_spec(self, other: &Expression) -> Expression {
        self
    }
}

impl std::ops::Add<&Expression> for &Expression {
    type Output = Expression;

    fn add(self, other: &Expression) -> (r: Expression)
        ensures
            r@ == plus(self@, other@),
    {
        plus_of(self.clone(), other.clone())
    }
}

impl AddSpecImpl<&Expression> for &Expression {
    open spec fn obeys_add_spec() -> bool {
        false
    }

    open spec fn add_req(self, other: &Expression) -> bool {
        true
    }

    open spec fn add_spec(self, other: &Expression) -> Expression {
        *self
    }
}

impl std::ops::Add<Expression> for &Expression {
    type Output = Expression;

    fn add(self, other: Expression) -> (r: Expression)
        ensures
            r@ == plus(self@, other@),
    {
        plus_of(self.clone(), other)
    }
}

impl AddSpecImpl<Expression> for &Expression {
    open spec fn obeys_add_spec() -> bool {
        false
    }

    open spec fn add_req(self, other: Expression) -> bool {
        true
    }

    open spec fn add_spec(self, other: Expression) -> Expression {
        *self
    }
}

impl std::ops::Sub<Expression> for Expression {
    type Output = Expression;

    fn sub(self, other: Expression) -> (r: Expression)
        ensures
            r@ == minus(self@, other@),
    {
        minus_of(self, other)
    }
}

impl SubSpecImpl<Expression> for Expression {
    open spec fn obeys_sub_spec() -> bool {
        false
    }

    open spec fn sub_req(self, other: Expression) -> bool {
        true
    }

    open spec fn sub_spec(self, other: Expression) -> Expression {
        self
    }
}

impl std::ops::Sub<&Expression> for Expression {
    type Output = Expression;

    fn sub(self, other: &Expression) -> (r: Expression)
        ensures
            r@ == minus(self@, other@),
    {
        minus_of(self, other.clone())
    }
}

impl SubSpecImpl<&Expression> for Expression {
    open spec fn obeys_sub_spec() -> bool {
        false
    }

    open spec fn sub_req(self, other: &Expression) -> bool {
        true
    }

    open spec fn sub_spec(self, other: &Expression) -> Expression {
        self
    }
}

impl std::ops::Sub<&Expression> for &Expression {
    type Output = Expression;

    fn sub(self, other: &Expression) -> (r: Expression)
        ensures
            r@ == minus(self@, other@),
    {
        minus_of(self.clone(), other.clone())
    }
}

impl SubSpecImpl<&Expression> for &Expression {
    open spec fn obeys_sub_spec() -> bool {
        false
    }

    open spec fn sub_req(self, other: &Expression) -> bool {
        true
    }

    open spec fn sub_spec(self, other: &Expression) -> Expression {
        *self
    }
}

impl std::ops::Sub<Expression> for &Expression {
    type Output = Expression;

    fn sub(self, other: Expression) -> (r: Expression)
        ensures
            r@ == minus(self@, other@),
    {
        minus_of(self.clone(), other)
    }
}

impl SubSpecImpl<Expression> for &Expression {
    open spec fn obeys_sub_spec() -> bool {
        false
    }

    open spec fn sub_req(self, other: Expression) -> bool {
        true
    }

    open spec fn sub_spec(self, other: Expression) -> Expression {
        *self
    }
}

impl std::ops::Mul<Expression> for Expression {
    type Output = Expression;

    fn mul(self, other: Expression) -> (r: Expression)
        ensures
            r@ == times(self@, other@),
    {
        times_of(self, other)
    }
}

impl MulSpecImpl<Expression> for Expression {
    open spec fn obeys_mul_spec() -> bool {
        false
    }

    open spec fn mul_req(self, other: Expression) -> bool {
        true
    }

    open spec fn mul_spec(self, other: Expression) -> Expression {
        self
    }
}

impl std::ops::Mul<&Expression> for Expression {
    type Output = Expression;

    fn mul(self, other: &Expression) -> (r: Expression)
        ensures
            r@ == times(self@, other@),
    {
        times_of(self, other.clone())
    }
}

impl MulSpecImpl<&Expression> for Expression {
    open spec fn obeys_mul_spec() -> bool {
        false
    }

    open spec fn mul_req(self, other: &Expression) -> bool {
        true
    }

    open spec fn mul_spec(self, other: &Expression) -> Expression {
        self
    }
}

impl std::ops::Mul<&Expression> for &Expression {
    type Output = Expression;

    fn mul(self, other: &Expression) -> (r: Expression)
        ensures
            r@ == times(self@, other@),
    {
        times_of(self.clone(), other.clone())
    }
}

impl MulSpecImpl<&Expression> for &Expression {
    open spec fn obeys_mul_spec() -> bool {
        false
    }

    open spec fn mul_req(self, other: &Expression) -> bool {
        true
    }

    open spec fn mul_spec(self, other: &Expression) -> Expression {
        *self
    }
}

impl std::ops::Mul<Expression> for &Expression {
    type Output = Expression;

    fn mul(self, other: Expression) -> (r: Expression)
        ensures
            r@ == times(self@, other@),
    {
        times_of(self.clone(), other)
    }
}

impl MulSpecImpl<Expression> for &Expression {
    open spec fn obeys_mul_spec() -> bool {
        false
    }

    open spec fn mul_req(self, other: Expression) -> bool {
        true
    }

    open spec fn mul_spec(self, other: Expression) -> Expression {
        *self
    }
}

impl std::ops::Div<Expression> for Expression {
    type Output = Expression;

    fn div(self, other: Expression) -> (r: Expression)
        ensures
            r@ == over(self@, other@),
    {
        over_of(self, other)
    }
}

impl DivSpecImpl<Expression> for Expression {
    open spec fn obeys_div_spec() -> bool {
        false
    }

    open spec fn div_req(self, other: Expression) -> bool {
        true
    }

    open spec fn div_spec(self, other: Expression) -> Expression {
        self
    }
}

impl std::ops::Div<&Expression> for Expression {
    type Output = Expression;

    fn div(self, other: &Expression) -> (r: Expression)
        ensures
            r@ == over(self@, other@),
    {
        over_of(self, other.clone())
    }
}

impl DivSpecImpl<&Expression> for Expression {
    open spec fn obeys_div_spec() -> bool {
        false
    }

    open spec fn div_req(self, other: &Expression) -> bool {
        true
    }

    open spec fn div_spec(self, other: &Expression) -> Expression {
        self
    }
}

impl std::ops::Div<&Expression> for &Expression {
    type Output = Expression;

    fn div(self, other: &Expression) -> (r: Expression)
        ensures
            r@ == over(self@, other@),
    {
        over_of(self.clone(), other.clone())
    }
}

impl DivSpecImpl<&Expression> for &Expression {
    open spec fn obeys_div_spec() -> bool {
        false
    }

    open spec fn div_req(self, other: &Expression) -> bool {
        true
    }

    open spec fn div_spec(self, other: &Expression) -> Expression {
        *self
    }
}

impl std::ops::Div<Expression> for &Expression {
    type Output = Expression;

    fn div(self, other: Expression) -> (r: Expression)
        ensures
            r@ == over(self@, other@),
    {
        over_of(self.clone(), other)
    }
}

impl DivSpecImpl<Expression> for &Expression {
    open spec fn obeys_div_spec() -> bool {
        false
    }

    open spec fn div_req(self, other: Expression) -> bool {
        true
    }

    open spec fn div_spec(self, other: Expression) -> Expression {
        *self
    }
}

impl std::ops::BitXor<Expression> for Expression {
    type Output = Expression;

    fn bitxor(self, other: Expression) -> (r: Expression)
        ensures
            r@ == raised(self@, other@),
    {
        raised_of(self, other)
    }
}

impl BitXorSpecImpl<Expression> for Expression {
    open spec fn obeys_bitxor_spec() -> bool {
        false
    }

    open spec fn bitxor_req(self, other: Expression) -> bool {
        true
    }

    open spec fn bitxor_spec(self, other: Expression) -> Expression {
        self
    }
}

impl std::ops::BitXor<&Expression> for Expression {
    type Output = Expression;

    fn bitxor(self, other: &Expression) -> (r: Expression)
        ensures
            r@ == raised(self@, other@),
    {
        raised_of(self, other.clone())
    }
}

impl BitXorSpecImpl<&Expression> for Expression {
    open spec fn obeys_bitxor_spec() -> bool {
        false
    }

    open spec fn bitxor_req(self, other: &Expression) -> bool {
        true
    }

    open spec fn bitxor_spec(self, other: &Expression) -> Expression {
        self
    }
}

impl std::ops::BitXor<&Expression> for &Expression {
    type Output = Expression;

    fn bitxor(self, other: &Expression) -> (r: Expression)
        ensures
            r@ == raised(self@, other@),
    {
        raised_of(self.clone(), other.clone())
    }
}

impl BitXorSpecImpl<&Expression> for &Expression {
    open spec fn obeys_bitxor_spec() -> bool {
        false
    }

    open spec fn bitxor_req(self, other: &Expression) -> bool {
        true
    }

    open spec fn bitxor_spec(self, other: &Expression) -> Expression {
        *self
    }
}

impl std::ops::BitXor<Expression> for &Expression {
    type Output = Expression;

    fn bitxor(self, other: Expression) -> (r: Expression)
        ensures
            r@ == raised(self@, other@),
    {
        raised_of(self.clone(), other)
    }
}

impl BitXorSpecImpl<Expression> for &Expression {
    open spec fn obeys_bitxor_spec() -> bool {
        false
    }

    open spec fn bitxor_req(self, other: Expression) -> bool {
        true
    }

    open spec fn bitxor_spec(self, other: Expression) -> Expression {
        *self
    }
}

impl std::ops::Neg for Expression {
    type Output = Expression;

    fn neg(self) -> (r: Expression)
        ensures
            r@ == negative(self@),
    {
        negative_of(self)
    }
}

impl NegSpecImpl for Expression {
    open spec fn obeys_neg_spec() -> bool {
        false
    }

    open spec fn neg_req(self) -> bool {
        true
    }

    open spec fn neg_spec(self) -> Expression {
        self
    }
}

impl std::ops::Neg for &Expression {
    type Output = Expression;

    fn neg(self) -> (r: Expression)
        ensures
            r@ == negative(self@),
    {
        negative_of(self.clone())
    }
}

impl NegSpecImpl for &Expression {
    open spec fn obeys_neg_spec() -> bool {
        false
    }

    open spec fn neg_req(self) -> bool {
        true
    }

    open spec fn neg_spec(self) -> Expression {
        *self
    }
}

} // verus!

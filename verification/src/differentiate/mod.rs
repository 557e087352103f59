//! Differentiation of expressions with respect to a variable.
pub mod spec;

use crate::differentiate::spec::{
    aligned, cosine_rule, derivative, derivative_each, difference_rule, euler, is_literal,
    logarithm_rule, natural_logarithm, negation_rule, power_rule, product_of, product_rule,
    product_rule_terms, quotient_rule, sine_rule, EULER,
};
use crate::expression::{
    canonicalize, clone_items, list_of_three, list_of_two, terms_of, CommutativeAssociation,
    Division, Expression, Subtraction,
};
use crate::simplify::spec::MINUS_ONE;
use crate::term::Term;
use vstd::prelude::*;
use vstd::string::*;

verus! {

/// Euler's number as a bound constant.
fn euler_constant() -> (r: Expression)
    ensures
        r@ == euler(),
{
    Expression::Constant("e".to_owned(), EULER)
}

/// The natural logarithm of an expression.
fn natural_logarithm_of(t: Expression) -> (r: Expression)
    ensures
        r@ == natural_logarithm(t@),
{
    Expression::logarithm(t, euler_constant())
}

/// The derivative of a product, from its operands and their derivatives.
fn product_rule_of(ops: &Vec<Expression>, ds: &Vec<Expression>) -> (r: Expression)
    requires
        ops.len() == ds.len(),
    ensures
        r@ == product_rule(terms_of(ops@), terms_of(ds@)),
{
    let mut terms: Vec<Expression> = Vec::new();
    let mut i: usize = 0;
    while i < ops.len()
        invariant
            i <= ops.len(),
            ops.len() == ds.len(),
            terms@.len() == i,
            forall|j: int|
                0 <= j < i ==> (#[trigger] terms@[j])@ == product_of(
                    terms_of(ops@).update(j, terms_of(ds@)[j]),
                ),
        decreases ops.len() - i,
    {
        let mut factors = clone_items(ops);
        factors.set(i, ds[i].clone());
        assert(terms_of(factors@) =~= terms_of(ops@).update(i as int, terms_of(ds@)[i as int]));
        terms.push(Expression::multiplication(factors));
        i += 1;
    }
    assert(terms_of(terms@) =~= product_rule_terms(terms_of(ops@), terms_of(ds@)));
    Expression::addition(terms)
}

/// Whether an expression is a literal or a bound constant.
fn is_literal_expression(e: &Expression) -> (r: bool)
    ensures
        r == is_literal(e@),
{
    match e {
        Expression::Integer(_) => true,
        Expression::Real(_) => true,
        Expression::Constant(_, _) => true,
        _ => false,
    }
}

/// The derivative of `b ^ e`, from the derivatives of `b` and `e`.
fn power_rule_of(b: &Expression, e: &Expression, db: Expression, de: Expression) -> (r:
    Expression)
    ensures
        r@ == power_rule(b@, e@, db@, de@),
{
    if is_literal_expression(e) {
        let lowered = Expression::power(
            b.clone(),
            Subtraction::new(e.clone(), Expression::Integer(1)),
        );
        Expression::multiplication(list_of_three(e.clone(), lowered, db))
    } else {
        let first = Expression::multiplication(list_of_two(de, natural_logarithm_of(b.clone())));
        let second = Expression::multiplication(
            list_of_two(e.clone(), Division::new(db, b.clone())),
        );
        let inner = Expression::addition(list_of_two(first, second));
        Expression::multiplication(list_of_two(Expression::power(b.clone(), e.clone()), inner))
    }
}

/// The derivative of the logarithm of `a` to the base `base`, from the
/// derivative of `a`.
fn logarithm_rule_of(a: &Expression, base: &Expression, da: Expression) -> (r: Expression)
    ensures
        r@ == logarithm_rule(a@, base@, da@),
{
    if base.equals(&euler_constant()) {
        Expression::multiplication(
            list_of_two(da, Division::new(Expression::Integer(1), a.clone())),
        )
    } else {
        let below = Expression::multiplication(
            list_of_two(a.clone(), natural_logarithm_of(base.clone())),
        );
        Expression::multiplication(list_of_two(da, Division::new(Expression::Integer(1), below)))
    }
}

/// The derivative of the sine of `a`, from the derivative of `a`.
fn sine_rule_of(a: &Expression, da: Expression) -> (r: Expression)
    ensures
        r@ == sine_rule(a@, da@),
{
    Expression::multiplication(list_of_two(da, Expression::cos(a.clone())))
}

/// The derivative of the cosine of `a`, from the derivative of `a`.
fn cosine_rule_of(a: &Expression, da: Expression) -> (r: Expression)
    ensures
        r@ == cosine_rule(a@, da@),
{
    let minus_sine = Expression::multiplication(
        list_of_two(Expression::Integer(MINUS_ONE), Expression::sin(a.clone())),
    );
    Expression::multiplication(list_of_two(da, minus_sine))
}

/// For each operand its derivative: `dkey` for the operands that are `key`,
/// `dother` for the others.
fn aligned_of(ops: &Vec<Expression>, key: &Expression, dkey: &Expression, dother: &Expression) -> (r:
    Vec<Expression>)
    ensures
        terms_of(r@) == aligned(terms_of(ops@), key@, dkey@, dother@),
        r.len() == ops.len(),
{
    let mut out: Vec<Expression> = Vec::new();
    let mut i: usize = 0;
    while i < ops.len()
        invariant
            i <= ops.len(),
            out@.len() == i,
            forall|j: int|
                0 <= j < i ==> (#[trigger] out@[j])@ == if terms_of(ops@)[j] == key@ {
                    dkey@
                } else {
                    dother@
                },
        decreases ops.len() - i,
    {
        assert(terms_of(ops@)[i as int] == ops@[i as int]@);
        if ops[i].equals(key) {
            out.push(dkey.clone());
        } else {
            out.push(dother.clone());
        }
        i += 1;
    }
    assert(terms_of(out@) =~= aligned(terms_of(ops@), key@, dkey@, dother@));
    out
}

/// The derivative of `-b`, from the derivative of `b`.
fn negation_rule_of(b: &Expression, db: &Expression) -> (r: Expression)
    ensures
        r@ == negation_rule(b@, db@),
{
    let ops = canonicalize(list_of_two(Expression::Integer(MINUS_ONE), b.clone()));
    let ds = aligned_of(&ops, b, db, &Expression::Integer(0));
    product_rule_of(&ops, &ds)
}

/// The derivative of `a - b`, from the derivatives of `a` and `b`.
fn difference_rule_of(b: &Expression, da: Expression, db: &Expression) -> (r: Expression)
    ensures
        r@ == difference_rule(b@, da@, db@),
{
    Expression::addition(list_of_two(da, negation_rule_of(b, db)))
}

/// The derivative of `a / b`, from the derivatives of `a` and `b`.
fn quotient_rule_of(a: &Expression, b: &Expression, da: &Expression, db: Expression) -> (r:
    Expression)
    ensures
        r@ == quotient_rule(a@, b@, da@, db@),
{
    let inverse = Expression::power(b.clone(), Expression::Integer(MINUS_ONE));
    let ops = canonicalize(list_of_two(a.clone(), inverse));
    let other = power_rule_of(b, &Expression::Integer(MINUS_ONE), db, Expression::Integer(0));
    let ds = aligned_of(&ops, a, da, &other);
    product_rule_of(&ops, &ds)
}

impl Expression {
    /// The derivative of the expression with respect to the variable named
    /// `variable`. The derivative is not simplified.
    pub fn differentiate(&self, variable: &str) -> (r: Expression)
        ensures
            r@ == derivative(self@, variable@),
    {
        let name = variable.to_owned();
        self.derived(&name)
    }

    /// The derivative of the expression with respect to the variable named `x`.
    fn derived(&self, x: &String) -> (r: Expression)
        ensures
            r@ == derivative(self@, x@),
        decreases self@, 1int,
    {
        match self {
            Expression::Integer(_) => Expression::Integer(0),
            Expression::Real(_) => Expression::Integer(0),
            Expression::Constant(_, _) => Expression::Integer(0),
            Expression::Variable(label) => {
                if *label == *x {
                    Expression::Integer(1)
                } else {
                    Expression::Integer(0)
                }
            },
            Expression::Power(p) => power_rule_of(
                p.argument(),
                p.modifier(),
                p.argument().derived(x),
                p.modifier().derived(x),
            ),
            Expression::Logarithm(l) => logarithm_rule_of(
                l.argument(),
                l.modifier(),
                l.argument().derived(x),
            ),
            Expression::Sin(a) => sine_rule_of(a, a.derived(x)),
            Expression::Cos(a) => cosine_rule_of(a, a.derived(x)),
            Expression::Multiplication(c) => {
                let ops = c.items();
                let ds = self.derived_operands(c, x);
                product_rule_of(&ops, &ds)
            },
            Expression::Addition(c) => Expression::addition(self.derived_operands(c, x)),
            Expression::Division(d) => {
                let da = d.left_hand_side().derived(x);
                let db = d.right_hand_side().derived(x);
                quotient_rule_of(d.left_hand_side(), d.right_hand_side(), &da, db)
            },
            Expression::Subtraction(s) => {
                let da = s.left_hand_side().derived(x);
                let db = s.right_hand_side().derived(x);
                difference_rule_of(s.right_hand_side(), da, &db)
            },
        }
    }

    /// The derivatives of the operands of a sum or product of `self`.
    fn derived_operands(&self, c: &CommutativeAssociation, x: &String) -> (r: Vec<Expression>)
        requires
            self@ == Term::Product(c@) || self@ == Term::Sum(c@),
        ensures
            terms_of(r@) == derivative_each(c@, x@),
            r@.len() == c@.len(),
        decreases self@, 0int,
    {
        let mut out: Vec<Expression> = Vec::new();
        let mut i: usize = 0;
        while i < c.len()
            invariant
                i <= c@.len(),
                out@.len() == i,
                self@ == Term::Product(c@) || self@ == Term::Sum(c@),
                forall|j: int| 0 <= j < i ==> (#[trigger] out@[j])@ == derivative(c@[j], x@),
            decreases c@.len() - i,
        {
            let item = c.operand(i);
            proof {
                if self@ is Product {
                    assert(decreases_to!(self@ => self@->Product_0));
                } else {
                    assert(decreases_to!(self@ => self@->Sum_0));
                }
                assert(decreases_to!(c@ => c@[i as int]));
            }
            out.push(item.derived(x));
            i += 1;
        }
        assert(terms_of(out@) =~= derivative_each(c@, x@));
        out
    }
}

} // verus!

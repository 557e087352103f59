//! Expansion of expressions: products are distributed over sums, and sums raised
//! to a non-negative integer are multiplied out.
pub mod laws;
pub mod meaning;
pub mod spec;

use crate::expand::laws::{is_expanded, lemma_expand_reaches_normal_form};
use crate::expand::spec::{
    distribute, expand, expand_each, expand_power, first_sum, lemma_first_sum_is,
    lemma_replacing_lightens, power_expansion, spread, weights,
};
use crate::expression::{canonicalize, clone_items, terms_of, CommutativeAssociation, Expression};
use crate::simplify::spec::MINUS_ONE;
use crate::term::{canonical, is_canonical, Term};
use vstd::prelude::*;

verus! {

/// The position of the first factor that is a sum.
fn first_sum_of(factors: &Vec<Expression>) -> (k: usize)
    ensures
        k == first_sum(terms_of(factors@)),
        k <= factors.len(),
        k < factors.len() ==> factors@[k as int] is Addition,
{
    let mut k: usize = 0;
    let mut found = false;
    while k < factors.len() && !found
        invariant
            k <= factors.len(),
            forall|j: int| 0 <= j < k ==> !(#[trigger] terms_of(factors@)[j] is Sum),
            found ==> k < factors.len() && factors@[k as int] is Addition,
        decreases factors.len() - k + (if found {
            0int
        } else {
            1int
        }),
    {
        assert(terms_of(factors@)[k as int] == factors@[k as int]@);
        match &factors[k] {
            Expression::Addition(_) => {
                found = true;
            },
            _ => {
                k += 1;
            },
        }
    }
    proof {
        if k < factors.len() {
            assert(terms_of(factors@)[k as int] == factors@[k as int]@);
        }
        lemma_first_sum_is(terms_of(factors@), k as int);
    }
    k
}

/// A copy of the factors with the one at `k` replaced by `x`.
fn replaced(factors: &Vec<Expression>, k: usize, x: Expression) -> (r: Vec<Expression>)
    requires
        k < factors.len(),
    ensures
        terms_of(r@) == terms_of(factors@).update(k as int, x@),
{
    let mut out = clone_items(factors);
    out.set(k, x);
    assert(terms_of(out@) =~= terms_of(factors@).update(k as int, x@));
    out
}

/// The product of the factors, multiplied out over every sum among them.
fn distribute_product(factors: Vec<Expression>) -> (r: Expression)
    ensures
        r@ == distribute(terms_of(factors@)),
    decreases weights(terms_of(factors@)),
{
    let ghost given = terms_of(factors@);
    let k = first_sum_of(&factors);
    if k < factors.len() {
        assert(given[k as int] == factors@[k as int]@);
        match &factors[k] {
            Expression::Addition(addends) => {
                let mut terms: Vec<Expression> = Vec::new();
                let mut j: usize = 0;
                while j < addends.len()
                    invariant
                        j <= addends@.len(),
                        terms@.len() == j,
                        k < factors.len(),
                        given == terms_of(factors@),
                        given[k as int] == Term::Sum(addends@),
                        forall|i: int|
                            0 <= i < j ==> (#[trigger] terms@[i])@ == distribute(
                                given.update(k as int, addends@[i]),
                            ),
                    decreases addends@.len() - j,
                {
                    let addend = addends.operand(j);
                    let fewer = replaced(&factors, k, addend.clone());
                    proof {
                        lemma_replacing_lightens(given, k as int, j as int);
                    }
                    terms.push(distribute_product(fewer));
                    j += 1;
                }
                assert(terms_of(terms@) =~= spread(given, k as int));
                Expression::addition(terms)
            },
            _ => Expression::multiplication(factors),
        }
    } else {
        Expression::multiplication(factors)
    }
}

/// Two expressions in canonical order.
fn pair(x: Expression, y: Expression) -> (r: Vec<Expression>)
    ensures
        terms_of(r@) == canonical(seq![x@, y@]),
{
    let mut operands: Vec<Expression> = Vec::new();
    let ghost a = x@;
    let ghost b = y@;
    operands.push(x);
    operands.push(y);
    assert(terms_of(operands@) =~= seq![a, b]);
    canonicalize(operands)
}

/// A sum multiplied by itself `k` times and multiplied out.
fn expand_power_of_sum(x: &Expression, k: i64) -> (r: Expression)
    requires
        k >= 0,
    ensures
        r@ == power_expansion(x@, k as nat),
{
    if k == 0 {
        return Expression::Integer(1);
    }
    let mut result = x.clone();
    let mut i: i64 = 1;
    while i < k
        invariant
            1 <= i <= k,
            result@ == power_expansion(x@, i as nat),
        decreases k - i,
    {
        result = distribute_product(pair(result, x.clone()));
        i += 1;
    }
    result
}

/// The expansion of a power whose base and exponent are expanded.
fn expanded_power(base: Expression, exp: Expression) -> (r: Expression)
    ensures
        r@ == expand_power(base@, exp@),
{
    match exp.integer_value() {
        Some(k) => {
            if k >= 0 && base.is_sum() {
                expand_power_of_sum(&base, k)
            } else {
                Expression::power(base, exp)
            }
        },
        None => Expression::power(base, exp),
    }
}

/// The expansion of a quotient whose operands are expanded.
fn expanded_quotient(a: Expression, b: Expression) -> (r: Expression)
    ensures
        r@ == distribute(
            canonical(seq![a@, Term::Power(Box::new(b@), Box::new(Term::Integer(MINUS_ONE)))]),
        ),
{
    let inverse = Expression::power(b, Expression::Integer(MINUS_ONE));
    distribute_product(pair(a, inverse))
}

/// The expansion of a difference whose operands are expanded.
fn expanded_difference(a: Expression, b: Expression) -> (r: Expression)
    ensures
        r@ == Term::Sum(
            canonical(seq![a@, distribute(canonical(seq![Term::Integer(MINUS_ONE), b@]))]),
        ),
{
    let negated = distribute_product(pair(Expression::Integer(MINUS_ONE), b));
    let ghost x = a@;
    let ghost y = negated@;
    let mut operands: Vec<Expression> = Vec::new();
    operands.push(a);
    operands.push(negated);
    assert(terms_of(operands@) =~= seq![x, y]);
    Expression::addition(operands)
}

impl Expression {
    /// The expanded form of the expression, which is multiplied out.
    pub fn expand(self) -> (r: Expression)
        ensures
            r@ == expand(self@),
            is_expanded(r@),
    {
        self.expanded()
    }

    /// The expanded form of the expression, which is multiplied out.
    pub fn expanded(&self) -> (r: Expression)
        ensures
            r@ == expand(self@),
            is_expanded(r@),
        decreases self@, 1int,
    {
        proof {
            lemma_expand_reaches_normal_form(self@);
        }
        match self {
            Expression::Integer(_) => self.clone(),
            Expression::Real(_) => self.clone(),
            Expression::Constant(_, _) => self.clone(),
            Expression::Variable(_) => self.clone(),
            Expression::Power(p) => expanded_power(
                p.argument().expanded(),
                p.modifier().expanded(),
            ),
            Expression::Logarithm(l) => Expression::logarithm(
                l.argument().expanded(),
                l.modifier().expanded(),
            ),
            Expression::Sin(a) => Expression::sin(a.expanded()),
            Expression::Cos(a) => Expression::cos(a.expanded()),
            Expression::Multiplication(c) => {
                let operands = self.expanded_operands(c);
                distribute_product(canonicalize(operands))
            },
            Expression::Addition(c) => {
                let operands = self.expanded_operands(c);
                Expression::addition(operands)
            },
            Expression::Division(d) => expanded_quotient(
                d.left_hand_side().expanded(),
                d.right_hand_side().expanded(),
            ),
            Expression::Subtraction(s) => expanded_difference(
                s.left_hand_side().expanded(),
                s.right_hand_side().expanded(),
            ),
        }
    }

    /// The operands of a sum or product of `self`, each expanded.
    fn expanded_operands(&self, c: &CommutativeAssociation) -> (r: Vec<Expression>)
        requires
            self@ == Term::Product(c@) || self@ == Term::Sum(c@),
        ensures
            terms_of(r@) == expand_each(c@),
        decreases self@, 0int,
    {
        let mut out: Vec<Expression> = Vec::new();
        let mut i: usize = 0;
        while i < c.len()
            invariant
                i <= c@.len(),
                out@.len() == i,
                self@ == Term::Product(c@) || self@ == Term::Sum(c@),
                forall|j: int| 0 <= j < i ==> (#[trigger] out@[j])@ == expand(c@[j]),
            decreases c@.len() - i,
        {
            let item = c.operand(i);
            proof {
                if self@ is Product {
                    assert(decreases_to!(self@ => self@->Product_0));
                } else {
                    assert(decreases_to!(self@ => self@->Sum_0));
                }
                assert(decreases_to!(c@ => c@[i as int]));
            }
            out.push(item.expanded());
            i += 1;
        }
        assert(terms_of(out@) =~= expand_each(c@));
        out
    }
}

} // verus!

verus! {

impl Expression {
    /// Whether the expression is multiplied out: expansion would give it back.
    pub fn is_expanded(&self) -> (r: bool)
        ensures
            r == is_expanded(self@),
        decreases self@, 1int,
    {
        match self {
            Expression::Integer(_) => true,
            Expression::Real(_) => true,
            Expression::Constant(_, _) => true,
            Expression::Variable(_) => true,
            Expression::Power(p) => {
                let base = p.argument();
                let exponent = p.modifier();
                let natural = match exponent.integer_value() {
                    Some(v) => v >= 0,
                    None => false,
                };
                proof {
                    assert(decreases_to!(self@ => self@->Power_0));
                    assert(decreases_to!(self@ => self@->Power_1));
                }
                base.is_expanded() && exponent.is_expanded() && !(base.is_sum() && natural)
            },
            Expression::Logarithm(l) => {
                proof {
                    assert(decreases_to!(self@ => self@->Logarithm_0));
                    assert(decreases_to!(self@ => self@->Logarithm_1));
                }
                l.argument().is_expanded() && l.modifier().is_expanded()
            },
            Expression::Sin(a) => {
                proof {
                    assert(decreases_to!(self@ => self@->Sine_0));
                }
                a.is_expanded()
            },
            Expression::Cos(a) => {
                proof {
                    assert(decreases_to!(self@ => self@->Cosine_0));
                }
                a.is_expanded()
            },
            Expression::Multiplication(c) => self.operands_expanded(c, true),
            Expression::Addition(c) => self.operands_expanded(c, false),
            Expression::Division(_) => false,
            Expression::Subtraction(_) => false,
        }
    }

    /// Whether the operands of a sum or product of `self` are all multiplied
    /// out and, where `plain` is set, none of them is a sum.
    fn operands_expanded(&self, c: &CommutativeAssociation, plain: bool) -> (r: bool)
        requires
            self@ == Term::Product(c@) || self@ == Term::Sum(c@),
        ensures
            r == (is_canonical(c@) && forall|i: int|
                0 <= i < c@.len() ==> is_expanded(#[trigger] c@[i]) && !(plain && c@[i] is Sum)),
        decreases self@, 0int,
    {
        c.order_holds();
        let mut i: usize = 0;
        while i < c.len()
            invariant
                i <= c@.len(),
                self@ == Term::Product(c@) || self@ == Term::Sum(c@),
                forall|j: int|
                    0 <= j < i ==> is_expanded(#[trigger] c@[j]) && !(plain && c@[j] is Sum),
            decreases c@.len() - i,
        {
            let item = c.operand(i);
            proof {
                if self@ is Product {
                    assert(decreases_to!(self@ => self@->Product_0));
                } else {
                    assert(decreases_to!(self@ => self@->Sum_0));
                }
                assert(decreases_to!(c@ => c@[i as int]));
            }
            if !item.is_expanded() || (plain && item.is_sum()) {
                assert(!(is_expanded(c@[i as int]) && !(plain && c@[i as int] is Sum)));
                return false;
            }
            i += 1;
        }
        true
    }
}

} // verus!

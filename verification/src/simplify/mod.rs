//! Simplification of expressions.
pub mod laws;
pub mod lemmas;
pub mod meaning;
pub mod spec;

use crate::expression::{canonicalize, list_of_two, terms_of, CommutativeAssociation, Expression};
use crate::fraction::{fits, reduce};
use crate::simplify::lemmas::{
    lemma_partner_is, lemma_product_stage, lemma_sum_stage, lemma_twin_is,
};
use crate::simplify::spec::{
    cancel, denominator_of, divisor, fraction_operands, integers, inverse_literals, inverses,
    is_negation, is_reciprocal, join, negate, negated, numerator_in, opposite, others, plains,
    product, product_literals, product_operands, rational_part, reciprocal, simplify, simplify_each,
    simplify_product, simplify_sum, square, squared, sum_literals, sum_operands, total, MINUS_ONE,
    REAL_MINUS_ONE, REAL_ONE,
};
use crate::term::{lemma_canonical_fixed, Term};
use vstd::prelude::*;

verus! {

/// Whether `u` is the negation of `w`.
fn is_negation_of(u: &Expression, w: &Expression) -> (r: bool)
    ensures
        r == (is_negation(u@) && negated(u@) == w@),
{
    match u {
        Expression::Multiplication(c) => {
            if c.len() != 2 {
                return false;
            }
            let first = c.operand(0);
            let second = c.operand(1);
            match first {
                Expression::Integer(v) => *v == MINUS_ONE && !second.is_integer() && second.equals(
                    w,
                ),
                _ => false,
            }
        },
        _ => false,
    }
}

/// Whether one of two expressions is the negation of the other.
fn is_opposite(x: &Expression, y: &Expression) -> (r: bool)
    ensures
        r == opposite(x@, y@),
{
    is_negation_of(y, x) || is_negation_of(x, y)
}

/// One list of expressions after another.
fn joined(a: Vec<Expression>, b: Vec<Expression>) -> (r: Vec<Expression>)
    ensures
        terms_of(r@) == terms_of(a@) + terms_of(b@),
{
    let mut out = a;
    let mut tail = b;
    out.append(&mut tail);
    assert(terms_of(out@) =~= terms_of(a@) + terms_of(b@));
    out
}

/// Lets opposite operands cancel.
fn cancel_opposites(rest: &Vec<Expression>) -> (r: Vec<Expression>)
    ensures
        terms_of(r@) == cancel(terms_of(rest@)),
{
    let ghost all = terms_of(rest@);
    let mut acc: Vec<Expression> = Vec::new();
    let mut i: usize = 0;
    proof {
        assert(all.take(0) =~= Seq::<Term>::empty());
        assert(terms_of(acc@) =~= Seq::<Term>::empty());
    }
    while i < rest.len()
        invariant
            i <= rest.len(),
            all == terms_of(rest@),
            terms_of(acc@) == cancel(all.take(i as int)),
        decreases rest.len() - i,
    {
        let ghost before = terms_of(acc@);
        let x = &rest[i];
        let mut k: usize = 0;
        let mut found = false;
        while k < acc.len() && !found
            invariant
                k <= acc.len(),
                before == terms_of(acc@),
                forall|j: int| 0 <= j < k ==> !opposite(#[trigger] before[j], x@),
                found ==> k < acc.len() && opposite(before[k as int], x@),
            decreases acc.len() - k + (if found {
                0int
            } else {
                1int
            }),
        {
            if is_opposite(&acc[k], x) {
                found = true;
            } else {
                k += 1;
            }
        }
        proof {
            lemma_partner_is(before, x@, k as int);
            assert(all.take(i + 1).drop_last() =~= all.take(i as int));
            assert(all.take(i + 1).last() == x@);
        }
        if found {
            acc.remove(k);
            assert(terms_of(acc@) =~= before.remove(k as int));
        } else {
            acc.push(x.clone());
            assert(terms_of(acc@) =~= before.push(x@));
        }
        i += 1;
    }
    assert(all.take(i as int) =~= all);
    acc
}

/// The integer literals and the other operands of a list, with the exact sum of
/// the literals.
fn split_sum(c: &CommutativeAssociation) -> (r: (Vec<Expression>, Vec<Expression>, i128))
    ensures
        terms_of(r.0@) == integers(c@),
        terms_of(r.1@) == others(c@),
        r.2 == total(c@),
{
    let mut ints: Vec<Expression> = Vec::new();
    let mut rest: Vec<Expression> = Vec::new();
    let mut acc: i128 = 0;
    let mut i: usize = 0;
    proof {
        assert(c@.take(0) =~= Seq::<Term>::empty());
        assert(terms_of(ints@) =~= Seq::<Term>::empty());
        assert(terms_of(rest@) =~= Seq::<Term>::empty());
    }
    while i < c.len()
        invariant
            i <= c@.len(),
            terms_of(ints@) == integers(c@.take(i as int)),
            terms_of(rest@) == others(c@.take(i as int)),
            acc == total(c@.take(i as int)),
            -(i as int) * 0x8000_0000_0000_0000 <= acc <= (i as int) * 0x8000_0000_0000_0000,
        decreases c@.len() - i,
    {
        let ghost ints_before = terms_of(ints@);
        let ghost rest_before = terms_of(rest@);
        let item = c.operand(i);
        proof {
            assert(c@.take(i + 1).drop_last() =~= c@.take(i as int));
            assert(c@.take(i + 1).last() == item@);
        }
        match item {
            Expression::Integer(v) => {
                acc = acc + (*v as i128);
                ints.push(item.clone());
                assert(terms_of(ints@) =~= ints_before.push(item@));
            },
            _ => {
                rest.push(item.clone());
                assert(terms_of(rest@) =~= rest_before.push(item@));
            },
        }
        i += 1;
    }
    assert(c@.take(i as int) =~= c@);
    (ints, rest, acc)
}

/// Whether a list of expressions is just the integer literal `v`.
fn is_just(list: &Vec<Expression>, v: i64) -> (r: bool)
    ensures
        r == (terms_of(list@) == seq![Term::Integer(v)]),
{
    if list.len() != 1 {
        assert(terms_of(list@).len() != seq![Term::Integer(v)].len());
        return false;
    }
    assert(terms_of(list@)[0] == list@[0]@);
    match &list[0] {
        Expression::Integer(w) => {
            if *w == v {
                assert(terms_of(list@) =~= seq![Term::Integer(v)]);
                true
            } else {
                assert(terms_of(list@)[0] != seq![Term::Integer(v)][0]);
                false
            }
        },
        _ => {
            assert(terms_of(list@)[0] != seq![Term::Integer(v)][0]);
            false
        },
    }
}

/// The literal part followed by the rest, without a literal part that is just
/// the neutral literal beside other operands.
fn join_parts(literals: Vec<Expression>, rest: Vec<Expression>, neutral: i64) -> (r: Vec<
    Expression,
>)
    ensures
        terms_of(r@) == join(terms_of(literals@), terms_of(rest@), neutral),
{
    if is_just(&literals, neutral) && rest.len() > 0 {
        rest
    } else {
        joined(literals, rest)
    }
}

/// A list that holds one integer literal.
fn single_literal(v: i64) -> (r: Vec<Expression>)
    ensures
        terms_of(r@) == seq![Term::Integer(v)],
{
    let mut out: Vec<Expression> = Vec::new();
    out.push(Expression::Integer(v));
    assert(terms_of(out@) =~= seq![Term::Integer(v)]);
    out
}

/// The simplified sum of simplified operands.
fn sum_of(c: &CommutativeAssociation) -> (r: Expression)
    ensures
        r@ == simplify_sum(c@),
{
    proof {
        reveal(simplify_sum);
        reveal(sum_operands);
    }
    c.order_holds();
    let (ints, rest, acc) = split_sum(c);
    let literals = if ints.len() > 0 && -0x8000_0000_0000_0000 <= acc && acc
        <= 0x7fff_ffff_ffff_ffff {
        single_literal(acc as i64)
    } else {
        ints
    };
    assert(terms_of(literals@) == sum_literals(c@));
    let left = cancel_opposites(&rest);
    let mut operands = join_parts(literals, left, 0);
    assert(terms_of(operands@) == sum_operands(c@));
    proof {
        lemma_sum_stage(c@);
    }
    if operands.len() == 0 {
        Expression::Integer(0)
    } else if operands.len() == 1 {
        let only = operands.remove(0);
        assert(only@ == sum_operands(c@)[0]);
        only
    } else {
        proof {
            lemma_canonical_fixed(sum_operands(c@));
        }
        Expression::addition(operands)
    }
}

/// The exact product of integers taken one after another: the product itself
/// as long as its magnitude is at most `2^63`, and else the knowledge that it is
/// larger, or that it is zero because a factor was.
struct Running {
    acc: i128,
    zero: bool,
    big: bool,
}

impl Running {
    /// Whether `self` stands for the product `p`.
    spec fn holds(self, p: int) -> bool {
        &&& self.zero ==> p == 0
        &&& !self.zero && !self.big ==> self.acc == p && -0x8000_0000_0000_0000 <= self.acc
            <= 0x8000_0000_0000_0000
        &&& !self.zero && self.big ==> p > 0x8000_0000_0000_0000 || p < -0x8000_0000_0000_0000
    }

    /// The empty product.
    fn start() -> (r: Running)
        ensures
            r.holds(1),
    {
        Running { acc: 1, zero: false, big: false }
    }

    /// The product with one more factor.
    fn times(self, f: i64, Ghost(p): Ghost<int>) -> (r: Running)
        requires
            self.holds(p),
        ensures
            r.holds(p * f),
    {
        if self.zero {
            assert(p * f == 0) by (nonlinear_arith)
                requires
                    p == 0,
            ;
            self
        } else if f == 0 {
            assert(p * f == 0) by (nonlinear_arith)
                requires
                    f == 0,
            ;
            Running { acc: self.acc, zero: true, big: self.big }
        } else if self.big {
            assert(p * f > 0x8000_0000_0000_0000 || p * f < -0x8000_0000_0000_0000)
                by (nonlinear_arith)
                requires
                    p > 0x8000_0000_0000_0000 || p < -0x8000_0000_0000_0000,
                    f != 0,
            ;
            self
        } else {
            assert(-0x4000_0000_0000_0000_0000_0000_0000_0000 <= self.acc * f
                <= 0x4000_0000_0000_0000_0000_0000_0000_0000) by (nonlinear_arith)
                requires
                    -0x8000_0000_0000_0000 <= self.acc <= 0x8000_0000_0000_0000,
                    -0x8000_0000_0000_0000 <= f <= 0x8000_0000_0000_0000,
            ;
            let next = self.acc * (f as i128);
            if next > 0x8000_0000_0000_0000 || next < -0x8000_0000_0000_0000 {
                Running { acc: self.acc, zero: false, big: true }
            } else {
                Running { acc: next, zero: false, big: false }
            }
        }
    }

    /// The product, when it is a 64-bit integer.
    fn value(&self, Ghost(p): Ghost<int>) -> (r: Option<i64>)
        requires
            self.holds(p),
        ensures
            match r {
                Some(v) => v == p,
                None => !fits(p),
            },
    {
        if self.zero {
            Some(0)
        } else if self.big {
            None
        } else if self.acc >= -0x8000_0000_0000_0000 && self.acc <= 0x7fff_ffff_ffff_ffff {
            Some(self.acc as i64)
        } else {
            None
        }
    }
}

/// The operands of a product by their kind, with the products of the integer
/// literals and of the denominators.
struct Parts {
    integers: Vec<Expression>,
    inverses: Vec<Expression>,
    plains: Vec<Expression>,
    product: Option<i64>,
    divisor: Option<i64>,
}

/// The integer literals, the reciprocals and the other operands of a list, with
/// the exact product of the literals and of the denominators where they are
/// 64-bit integers.
fn split_product(c: &CommutativeAssociation) -> (r: Parts)
    ensures
        terms_of(r.integers@) == integers(c@),
        terms_of(r.inverses@) == inverses(c@),
        terms_of(r.plains@) == plains(c@),
        match r.product {
            Some(v) => v == product(c@),
            None => !fits(product(c@)),
        },
        match r.divisor {
            Some(v) => v == divisor(c@),
            None => !fits(divisor(c@)),
        },
{
    let mut ints: Vec<Expression> = Vec::new();
    let mut recs: Vec<Expression> = Vec::new();
    let mut rest: Vec<Expression> = Vec::new();
    let mut above = Running::start();
    let mut below = Running::start();
    let mut i: usize = 0;
    proof {
        assert(c@.take(0) =~= Seq::<Term>::empty());
        assert(terms_of(ints@) =~= Seq::<Term>::empty());
        assert(terms_of(recs@) =~= Seq::<Term>::empty());
        assert(terms_of(rest@) =~= Seq::<Term>::empty());
    }
    while i < c.len()
        invariant
            i <= c@.len(),
            terms_of(ints@) == integers(c@.take(i as int)),
            terms_of(recs@) == inverses(c@.take(i as int)),
            terms_of(rest@) == plains(c@.take(i as int)),
            above.holds(product(c@.take(i as int))),
            below.holds(divisor(c@.take(i as int))),
        decreases c@.len() - i,
    {
        let ghost ints_before = terms_of(ints@);
        let ghost recs_before = terms_of(recs@);
        let ghost rest_before = terms_of(rest@);
        let ghost p = product(c@.take(i as int));
        let ghost d = divisor(c@.take(i as int));
        let item = c.operand(i);
        proof {
            assert(c@.take(i + 1).drop_last() =~= c@.take(i as int));
            assert(c@.take(i + 1).last() == item@);
        }
        match item.integer_value() {
            Some(v) => {
                above = above.times(v, Ghost(p));
                assert(d * 1 == d);
                ints.push(item.clone());
                assert(terms_of(ints@) =~= ints_before.push(item@));
            },
            None => {
                assert(p * 1 == p);
                match denominator(item) {
                    Some(v) => {
                        below = below.times(v, Ghost(d));
                        recs.push(item.clone());
                        assert(terms_of(recs@) =~= recs_before.push(item@));
                    },
                    None => {
                        assert(d * 1 == d);
                        rest.push(item.clone());
                        assert(terms_of(rest@) =~= rest_before.push(item@));
                    },
                }
            },
        }
        i += 1;
    }
    assert(c@.take(i as int) =~= c@);
    let product = above.value(Ghost(product(c@)));
    let divisor = below.value(Ghost(divisor(c@)));
    Parts { integers: ints, inverses: recs, plains: rest, product, divisor }
}

/// The denominator `d` of an expression that is `1 / d` with `d` not zero.
fn denominator(e: &Expression) -> (r: Option<i64>)
    ensures
        r is Some == is_reciprocal(e@),
        r is Some ==> r->0 == denominator_of(e@),
{
    match e {
        Expression::Power(p) => {
            match (p.argument().integer_value(), p.modifier().integer_value()) {
                (Some(d), Some(x)) => {
                    if d != 0 && x == MINUS_ONE {
                        Some(d)
                    } else {
                        None
                    }
                },
                _ => None,
            }
        },
        _ => None,
    }
}

/// `1 / d` as an expression.
fn reciprocal_of(d: i64) -> (r: Expression)
    ensures
        r@ == reciprocal(d),
{
    Expression::power(Expression::Integer(d), Expression::Integer(MINUS_ONE))
}

/// A list that holds one reciprocal.
fn single_reciprocal(d: i64) -> (r: Vec<Expression>)
    ensures
        terms_of(r@) == seq![reciprocal(d)],
{
    let mut out: Vec<Expression> = Vec::new();
    out.push(reciprocal_of(d));
    assert(terms_of(out@) =~= seq![reciprocal(d)]);
    out
}

/// The fraction `p / q` as operands of a product.
fn fraction_operands_of(p: i64, q: i64) -> (r: Vec<Expression>)
    ensures
        terms_of(r@) == fraction_operands(p, q),
{
    if q == 1 {
        single_literal(p)
    } else if p == 1 {
        single_reciprocal(q)
    } else {
        let out = list_of_two(Expression::Integer(p), reciprocal_of(q));
        assert(terms_of(out@) =~= seq![Term::Integer(p), reciprocal(q)]);
        out
    }
}

/// The numerator and the denominator of a literal part and a denominator part
/// that are at most one integer literal over one reciprocal.
fn fraction_of(n: &Vec<Expression>, d: &Vec<Expression>) -> (r: Option<(i64, i64)>)
    ensures
        match r {
            Some((a, b)) => {
                &&& terms_of(d@).len() == 1
                &&& is_reciprocal(terms_of(d@)[0])
                &&& terms_of(n@).len() <= 1
                &&& terms_of(n@).len() == 1 ==> terms_of(n@)[0] is Integer
                &&& a == numerator_in(terms_of(n@))
                &&& b == denominator_of(terms_of(d@)[0])
                &&& b != 0
            },
            None => !(terms_of(d@).len() == 1 && is_reciprocal(terms_of(d@)[0]) && terms_of(
                n@,
            ).len() <= 1 && (terms_of(n@).len() == 1 ==> terms_of(n@)[0] is Integer)),
        },
{
    if d.len() != 1 || n.len() > 1 {
        return None;
    }
    assert(terms_of(d@)[0] == d@[0]@);
    let below = match denominator(&d[0]) {
        Some(b) => b,
        None => {
            return None;
        },
    };
    if n.len() == 1 {
        assert(terms_of(n@)[0] == n@[0]@);
        match n[0].integer_value() {
            Some(a) => Some((a, below)),
            None => None,
        }
    } else {
        Some((1, below))
    }
}

/// The rational part of a simplified product.
fn rational_part_of(
    whole: Vec<Expression>,
    inverse: Vec<Expression>,
    numerator: Option<i64>,
    denominator: Option<i64>,
    Ghost(c): Ghost<Seq<Term>>,
) -> (r: Vec<Expression>)
    requires
        terms_of(whole@) == integers(c),
        terms_of(inverse@) == inverses(c),
        match numerator {
            Some(v) => v == product(c),
            None => !fits(product(c)),
        },
        match denominator {
            Some(v) => v == divisor(c),
            None => !fits(divisor(c)),
        },
    ensures
        terms_of(r@) == rational_part(c),
{
    let n = match numerator {
        Some(v) => {
            if whole.len() > 0 {
                single_literal(v)
            } else {
                whole
            }
        },
        None => whole,
    };
    assert(terms_of(n@) == product_literals(c));
    let d = match denominator {
        Some(v) => {
            if inverse.len() > 0 {
                single_reciprocal(v)
            } else {
                inverse
            }
        },
        None => inverse,
    };
    assert(terms_of(d@) == inverse_literals(c));
    match fraction_of(&n, &d) {
        Some((a, b)) => {
            match reduce(a, b) {
                Some((p, q)) => fraction_operands_of(p, q),
                None => joined(n, d),
            }
        },
        None => joined(n, d),
    }
}

/// The `w` of an expression that is a negation `-w`.
fn negated_of(u: &Expression) -> (r: Option<&Expression>)
    ensures
        r is Some == is_negation(u@),
        r is Some ==> r->0@ == negated(u@),
{
    match u {
        Expression::Multiplication(c) => {
            if c.len() != 2 {
                return None;
            }
            let first = c.operand(0);
            let second = c.operand(1);
            match first {
                Expression::Integer(v) => {
                    if *v == MINUS_ONE && !second.is_integer() {
                        Some(second)
                    } else {
                        None
                    }
                },
                _ => None,
            }
        },
        _ => None,
    }
}

/// Replaces every two equal negations by the square of what they negate.
fn square_twins(rest: &Vec<Expression>) -> (r: Vec<Expression>)
    ensures
        terms_of(r@) == squared(terms_of(rest@)),
{
    let ghost all = terms_of(rest@);
    let mut acc: Vec<Expression> = Vec::new();
    let mut i: usize = 0;
    proof {
        assert(all.take(0) =~= Seq::<Term>::empty());
        assert(terms_of(acc@) =~= Seq::<Term>::empty());
    }
    while i < rest.len()
        invariant
            i <= rest.len(),
            all == terms_of(rest@),
            terms_of(acc@) == squared(all.take(i as int)),
        decreases rest.len() - i,
    {
        let ghost before = terms_of(acc@);
        let x = &rest[i];
        proof {
            assert(all.take(i + 1).drop_last() =~= all.take(i as int));
            assert(all.take(i + 1).last() == x@);
        }
        let mut k: usize = acc.len();
        let what = negated_of(x);
        if what.is_some() {
            k = 0;
            let mut found = false;
            while k < acc.len() && !found
                invariant
                    k <= acc.len(),
                    before == terms_of(acc@),
                    forall|j: int| 0 <= j < k ==> #[trigger] before[j] != x@,
                    found ==> k < acc.len() && before[k as int] == x@,
                decreases acc.len() - k + (if found {
                    0int
                } else {
                    1int
                }),
            {
                if acc[k].equals(x) {
                    found = true;
                } else {
                    k += 1;
                }
            }
            proof {
                lemma_twin_is(before, x@, k as int);
            }
        }
        match what {
            Some(w) => {
                if k < acc.len() {
                    acc.remove(k);
                    acc.push(Expression::power(w.clone(), Expression::Integer(2)));
                    assert(terms_of(acc@) =~= before.remove(k as int).push(square(negated(x@))));
                } else {
                    acc.push(x.clone());
                    assert(terms_of(acc@) =~= before.push(x@));
                }
            },
            None => {
                acc.push(x.clone());
                assert(terms_of(acc@) =~= before.push(x@));
            },
        }
        i += 1;
    }
    assert(all.take(i as int) =~= all);
    acc
}

/// Whether an expression is the real literal `-1`.
fn is_real_minus_one(e: &Expression) -> (r: bool)
    ensures
        r == (e@ == Term::Real(REAL_MINUS_ONE)),
{
    match e {
        Expression::Real(bits) => *bits == REAL_MINUS_ONE,
        _ => false,
    }
}

/// The simplified product of simplified operands.
fn product_of(c: &CommutativeAssociation) -> (r: Expression)
    ensures
        r@ == simplify_product(c@),
{
    proof {
        reveal(simplify_product);
        reveal(product_operands);
    }
    c.order_holds();
    let parts = split_product(c);
    let rational = rational_part_of(
        parts.integers,
        parts.inverses,
        parts.product,
        parts.divisor,
        Ghost(c@),
    );
    let squares = square_twins(&parts.plains);
    let mut operands = canonicalize(join_parts(rational, squares, 1));
    let ghost r = product_operands(c@);
    assert(terms_of(operands@) == r);
    proof {
        lemma_product_stage(c@);
    }
    if operands.len() == 0 {
        return Expression::Integer(1);
    }
    if operands.len() == 1 {
        let only = operands.remove(0);
        assert(only@ == r[0]);
        return only;
    }
    assert(r[0] == operands@[0]@);
    assert(r[1] == operands@[1]@);
    if operands.len() == 2 && is_real_minus_one(&operands[0]) && is_real_minus_one(&operands[1]) {
        return Expression::Real(REAL_ONE);
    }
    proof {
        lemma_canonical_fixed(r);
    }
    Expression::multiplication(operands)
}

/// The simplified negation of a simplified expression.
fn negation_of(e: Expression) -> (r: Expression)
    ensures
        r@ == negate(e@),
{
    let mut operands: Vec<Expression> = Vec::new();
    operands.push(Expression::Integer(MINUS_ONE));
    operands.push(e);
    assert(terms_of(operands@) =~= seq![Term::Integer(MINUS_ONE), e@]);
    let c = CommutativeAssociation::new(operands);
    product_of(&c)
}

impl Expression {
    /// The simplified form of the expression.
    ///
    /// Simplifying never fails: what cannot be resolved, such as a division by a
    /// literal zero, stays in the tree. Simplifying what is simplified changes
    /// nothing.
    pub fn simplify(&self) -> (r: Expression)
        ensures
            r@ == simplify(self@),
        decreases self@, 1int,
    {
        match self {
            Expression::Integer(_) => self.clone(),
            Expression::Real(_) => self.clone(),
            Expression::Constant(_, _) => self.clone(),
            Expression::Variable(_) => self.clone(),
            Expression::Power(p) => Expression::power(
                p.argument().simplify(),
                p.modifier().simplify(),
            ),
            Expression::Logarithm(l) => Expression::logarithm(
                l.argument().simplify(),
                l.modifier().simplify(),
            ),
            Expression::Sin(a) => Expression::sin(a.simplify()),
            Expression::Cos(a) => Expression::cos(a.simplify()),
            Expression::Multiplication(c) => {
                let operands = self.simplified_operands(c);
                let sorted = CommutativeAssociation::new(operands);
                product_of(&sorted)
            },
            Expression::Addition(c) => {
                let operands = self.simplified_operands(c);
                let sorted = CommutativeAssociation::new(operands);
                sum_of(&sorted)
            },
            Expression::Division(d) => {
                let a = d.left_hand_side().simplify();
                let b = d.right_hand_side().simplify();
                let mut operands: Vec<Expression> = Vec::new();
                let inverse = Expression::power(b, Expression::Integer(MINUS_ONE));
                let ghost x = a@;
                let ghost y = inverse@;
                operands.push(a);
                operands.push(inverse);
                assert(terms_of(operands@) =~= seq![x, y]);
                let sorted = CommutativeAssociation::new(operands);
                product_of(&sorted)
            },
            Expression::Subtraction(s) => {
                let a = s.left_hand_side().simplify();
                let b = s.right_hand_side().simplify();
                if a.equals(&b) {
                    Expression::Integer(0)
                } else {
                    let ghost x = a@;
                    let opposite = negation_of(b);
                    let ghost y = opposite@;
                    let mut operands: Vec<Expression> = Vec::new();
                    operands.push(a);
                    operands.push(opposite);
                    assert(terms_of(operands@) =~= seq![x, y]);
                    let sorted = CommutativeAssociation::new(operands);
                    sum_of(&sorted)
                }
            },
        }
    }

    /// The operands of a sum or product of `self`, each simplified.
    fn simplified_operands(&self, c: &CommutativeAssociation) -> (r: Vec<Expression>)
        requires
            self@ == Term::Product(c@) || self@ == Term::Sum(c@),
        ensures
            terms_of(r@) == simplify_each(c@),
        decreases self@, 0int,
    {
        let mut out: Vec<Expression> = Vec::new();
        let mut i: usize = 0;
        while i < c.len()
            invariant
                i <= c@.len(),
                out@.len() == i,
                self@ == Term::Product(c@) || self@ == Term::Sum(c@),
                forall|j: int| 0 <= j < i ==> (#[trigger] out@[j])@ == simplify(c@[j]),
            decreases c@.len() - i,
        {
            let item = c.operand(i);
            proof {
                if self@ is Product {
                    assert(decreases_to!(self@ => self@->Product_0));
                } else {
                    assert(decreases_to!(self@ => self@->Sum_0));
                }
                assert(decreases_to!(c@ => c@[i as int]));
            }
            out.push(item.simplify());
            i += 1;
        }
        assert(terms_of(out@) =~= simplify_each(c@));
        out
    }
}

} // verus!

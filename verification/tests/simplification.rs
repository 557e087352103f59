use algebra::expression::{Division, Expression, Power, Subtraction};
use algebra::symbol::Symbol;

fn integer(value: i64) -> Expression {
    Symbol::integer(value).expr()
}

fn variable(label: &str) -> Expression {
    Symbol::variable(label).expr()
}

fn real_literal(value: f64) -> Expression {
    Symbol::real_from_bits(value.to_bits()).expr()
}

fn sum(items: Vec<Expression>) -> Expression {
    Expression::addition(items)
}

fn product(items: Vec<Expression>) -> Expression {
    Expression::multiplication(items)
}

fn negation(e: Expression) -> Expression {
    product(vec![integer(-1), e])
}

fn samples() -> Vec<Expression> {
    let a = variable("a");
    let b = variable("b");
    vec![
        integer(0),
        integer(i64::MIN),
        real_literal(1.5),
        a.clone(),
        Symbol::constant("pi", std::f64::consts::PI.to_bits()).expr(),
        sum(vec![integer(1), integer(1)]),
        sum(vec![a.clone(), negation(a.clone()), b.clone()]),
        sum(vec![a.clone(), negation(a.clone())]),
        sum(vec![integer(i64::MAX), integer(1), a.clone()]),
        sum(vec![integer(i64::MAX), integer(1), integer(-2)]),
        sum(vec![integer(3), integer(-3), a.clone()]),
        sum(vec![]),
        sum(vec![b.clone()]),
        product(vec![]),
        product(vec![integer(2), integer(3), a.clone()]),
        product(vec![integer(1), a.clone()]),
        product(vec![integer(0), a.clone()]),
        product(vec![integer(i64::MIN), integer(-1)]),
        product(vec![integer(i64::MIN), integer(-1), integer(-1)]),
        product(vec![integer(i64::MAX), integer(i64::MAX), integer(0)]),
        product(vec![negation(a.clone()), negation(a.clone())]),
        product(vec![negation(a.clone()), negation(a.clone()), b.clone()]),
        product(vec![negation(a.clone()), negation(a.clone()), negation(a.clone())]),
        product(vec![integer(2), Power::new(integer(3), integer(-1)), Power::new(integer(5), integer(-1))]),
        product(vec![integer(6), Power::new(integer(4), integer(-1)), a.clone()]),
        product(vec![integer(3), Power::new(integer(1 << 62), integer(-1)), Power::new(integer(4), integer(-1))]),
        product(vec![integer(1 << 62), integer(4), Power::new(integer(6), integer(-1))]),
        product(vec![Power::new(integer(i64::MIN), integer(-1)), Power::new(integer(-1), integer(-1))]),
        product(vec![real_literal(-1.0), real_literal(-1.0)]),
        product(vec![integer(6), Power::new(integer(4), integer(-1))]),
        product(vec![integer(6), Power::new(integer(-4), integer(-1))]),
        product(vec![integer(6), Power::new(integer(0), integer(-1))]),
        product(vec![Power::new(integer(-7), integer(-1))]),
        product(vec![integer(i64::MIN), Power::new(integer(-1), integer(-1))]),
        Division::new(integer(6), integer(4)),
        Division::new(integer(6), integer(3)),
        Division::new(a.clone(), integer(0)),
        Division::new(a.clone(), b.clone()),
        Division::new(Division::new(integer(3), integer(7)), integer(7)),
        Subtraction::new(a.clone(), a.clone()),
        Subtraction::new(a.clone(), b.clone()),
        Subtraction::new(integer(5), integer(7)),
        Subtraction::new(integer(0), integer(i64::MIN)),
        Subtraction::new(a.clone(), negation(a.clone())),
        Power::new(sum(vec![integer(1), integer(1)]), Subtraction::new(b.clone(), b.clone())),
        Expression::logarithm(product(vec![integer(2), integer(4)]), integer(2)),
        Expression::sin(sum(vec![a.clone(), negation(a.clone())])),
        Expression::cos(Division::new(integer(4), integer(2))),
        sum(vec![
            product(vec![integer(2), a.clone()]),
            product(vec![integer(-1), product(vec![integer(2), a.clone()])]),
        ]),
        sum(vec![sum(vec![a.clone(), b.clone()]), negation(sum(vec![b.clone(), a.clone()]))]),
    ]
}

#[test]
fn simplifiable_test_sample_1() {
    let a = &variable("a");
    assert_eq!(
        (-a).simplify(),
        Expression::multiplication(vec![integer(-1), variable("a")])
    );
}

#[test]
fn simplifies_opposite_factor() {
    let minus_one = &integer(-1);
    assert_eq!((minus_one * minus_one).simplify(), integer(1));

    let a = &variable("a");
    assert_eq!((-a * -a).simplify(), a ^ integer(2));
}

#[test]
fn simplifies_opposite_sum() {
    let a = &variable("a");
    assert_eq!((a - a).simplify(), integer(0));

    let n1 = &integer(1);
    assert_eq!((n1 - n1).simplify(), integer(0));
}

#[test]
fn one_plus_one_is_two() {
    assert_eq!(sum(vec![integer(1), integer(1)]).simplify(), integer(2));
}

#[test]
fn a_variable_minus_itself_is_zero() {
    assert_eq!(Subtraction::new(variable("a"), variable("a")).simplify(), integer(0));
}

#[test]
fn minus_one_times_minus_one_is_one() {
    assert_eq!(product(vec![integer(-1), integer(-1)]).simplify(), integer(1));
}

#[test]
fn real_minus_one_times_real_minus_one_is_real_one() {
    assert_eq!(
        product(vec![real_literal(-1.0), real_literal(-1.0)]).simplify(),
        real_literal(1.0)
    );
    let three = product(vec![real_literal(-1.0), real_literal(-1.0), real_literal(-1.0)]);
    assert_eq!(three.simplify(), three);
}

#[test]
fn simplifying_twice_is_simplifying_once() {
    for e in samples() {
        let once = e.simplify();
        assert_eq!(once.simplify(), once, "for {:?}", e);
    }
}

#[test]
fn anything_minus_itself_is_zero() {
    for e in samples() {
        assert_eq!(Subtraction::new(e.clone(), e.clone()).simplify(), integer(0));
    }
}

#[test]
fn negations_multiply_to_the_square() {
    for a in samples() {
        let s = a.simplify();
        if s.is_of(algebra::classification::Class::Symbolic) {
            let left = product(vec![negation(a.clone()), negation(a.clone())]).simplify();
            let right = Power::new(a.clone(), integer(2)).simplify();
            assert_eq!(left, right, "for {:?}", a);
        }
    }
    // not for a term that simplifies to a literal
    let two = sum(vec![integer(1), integer(1)]);
    assert_eq!(
        product(vec![negation(two.clone()), negation(two.clone())]).simplify(),
        integer(4)
    );
    assert_eq!(Power::new(two.clone(), integer(2)).simplify(), Power::new(integer(2), integer(2)));
}

#[test]
fn integer_literals_fold_when_the_result_fits() {
    let a = variable("a");
    assert_eq!(sum(vec![]).simplify(), integer(0));
    assert_eq!(product(vec![]).simplify(), integer(1));
    assert_eq!(sum(vec![integer(2), integer(3), integer(-7)]).simplify(), integer(-2));
    assert_eq!(product(vec![integer(2), integer(3), integer(-7)]).simplify(), integer(-42));
    assert_eq!(
        sum(vec![integer(2), a.clone(), integer(3)]).simplify(),
        sum(vec![integer(5), a.clone()])
    );
    assert_eq!(
        product(vec![integer(2), a.clone(), integer(3)]).simplify(),
        product(vec![integer(6), a.clone()])
    );
    // the neutral literal is left out beside other operands
    assert_eq!(sum(vec![integer(2), a.clone(), integer(-2)]).simplify(), a);
    assert_eq!(product(vec![integer(-1), a.clone(), integer(-1)]).simplify(), a);
    // zero does not swallow a product
    assert_eq!(
        product(vec![integer(0), a.clone()]).simplify(),
        product(vec![integer(0), a.clone()])
    );
    // partial sums may leave the range as long as the total is in it
    assert_eq!(
        sum(vec![integer(i64::MAX), integer(i64::MAX), integer(i64::MIN), integer(i64::MIN)])
            .simplify(),
        integer(-2)
    );
    assert_eq!(
        product(vec![integer(i64::MIN), integer(-1), integer(-1)]).simplify(),
        integer(i64::MIN)
    );
    assert_eq!(
        product(vec![integer(i64::MAX), integer(i64::MAX), integer(0)]).simplify(),
        integer(0)
    );
}

#[test]
fn integer_literals_stay_when_the_result_does_not_fit() {
    let over = sum(vec![integer(i64::MAX), integer(1)]);
    assert_eq!(over.simplify(), over);
    let under = sum(vec![integer(i64::MIN), integer(-1), variable("a")]);
    assert_eq!(under.simplify(), under);
    let big = product(vec![integer(i64::MIN), integer(-1)]);
    assert_eq!(big.simplify(), big);
    let bigger = product(vec![integer(1 << 62), integer(4), variable("a")]);
    assert_eq!(bigger.simplify(), bigger);
}

#[test]
fn opposite_terms_cancel() {
    let a = variable("a");
    let b = variable("b");
    assert_eq!(sum(vec![a.clone(), negation(a.clone())]).simplify(), integer(0));
    assert_eq!(sum(vec![a.clone(), negation(a.clone()), b.clone()]).simplify(), b);
    assert_eq!(
        sum(vec![a.clone(), a.clone(), negation(a.clone()), b.clone()]).simplify(),
        sum(vec![a.clone(), b.clone()])
    );
    assert_eq!(
        sum(vec![a.clone(), negation(a.clone()), integer(3), b.clone(), negation(b.clone())])
            .simplify(),
        integer(3)
    );
    let s = sum(vec![a.clone(), b.clone()]);
    assert_eq!(sum(vec![s.clone(), negation(s.clone())]).simplify(), integer(0));
    assert_eq!(
        sum(vec![real_literal(2.5), negation(real_literal(2.5))]).simplify(),
        integer(0)
    );
    // a subtraction is the sum with the negation
    assert_eq!(
        Subtraction::new(a.clone(), b.clone()).simplify(),
        sum(vec![a.clone(), negation(b.clone())])
    );
    assert_eq!(Subtraction::new(integer(5), integer(7)).simplify(), integer(-2));
    assert_eq!(
        Subtraction::new(sum(vec![a.clone(), b.clone()]), b.clone()).simplify(),
        sum(vec![sum(vec![a.clone(), b.clone()]), negation(b.clone())])
    );
}

#[test]
fn fractions_are_reduced_to_lowest_terms() {
    let a = variable("a");
    let over = |n: i64, d: i64| product(vec![integer(n), Power::new(integer(d), integer(-1))]);
    assert_eq!(Division::new(integer(6), integer(4)).simplify(), over(3, 2));
    assert_eq!(Division::new(integer(6), integer(-4)).simplify(), over(-3, 2));
    assert_eq!(Division::new(integer(-6), integer(-4)).simplify(), over(3, 2));
    assert_eq!(Division::new(integer(6), integer(3)).simplify(), integer(2));
    assert_eq!(Division::new(integer(0), integer(5)).simplify(), integer(0));
    assert_eq!(
        Division::new(integer(3), integer(6)).simplify(),
        Power::new(integer(2), integer(-1))
    );
    assert_eq!(Division::new(integer(1), integer(-7)).simplify(), over(-1, 7));
    assert_eq!(Division::new(integer(7), integer(1)).simplify(), integer(7));
    assert_eq!(over(10, 4).simplify(), over(5, 2));
    assert_eq!(
        Division::new(integer(i64::MIN), integer(i64::MIN)).simplify(),
        integer(1)
    );
    assert_eq!(
        Division::new(integer(i64::MIN), integer(2)).simplify(),
        integer(i64::MIN / 2)
    );
    // what does not fit stays
    assert_eq!(
        Division::new(integer(i64::MIN), integer(-1)).simplify(),
        over(i64::MIN, -1)
    );
    assert_eq!(
        Division::new(integer(3), integer(i64::MIN)).simplify(),
        over(3, i64::MIN)
    );
    // a division by a literal zero stays in the tree
    assert_eq!(Division::new(integer(6), integer(0)).simplify(), over(6, 0));
    assert_eq!(
        Division::new(a.clone(), integer(0)).simplify(),
        product(vec![a.clone(), Power::new(integer(0), integer(-1))])
    );
    // a quotient is the product with the inverse
    assert_eq!(
        Division::new(a.clone(), variable("b")).simplify(),
        product(vec![a.clone(), Power::new(variable("b"), integer(-1))])
    );
    // other factors are left alone
    assert_eq!(
        product(vec![integer(6), Power::new(integer(4), integer(-1)), a.clone()]).simplify(),
        product(vec![integer(3), Power::new(integer(2), integer(-1)), a.clone()])
    );
    assert_eq!(
        product(vec![Power::new(integer(-4), integer(-1)), a.clone()]).simplify(),
        product(vec![integer(-1), Power::new(integer(4), integer(-1)), a.clone()])
    );
    assert_eq!(
        product(vec![integer(4), Power::new(integer(4), integer(-1)), a.clone()]).simplify(),
        a
    );
}

#[test]
fn denominators_are_multiplied() {
    let a = variable("a");
    let inverse = |d: i64| Power::new(integer(d), integer(-1));
    assert_eq!(
        product(vec![integer(2), inverse(3), inverse(5)]).simplify(),
        product(vec![integer(2), inverse(15)])
    );
    assert_eq!(
        product(vec![inverse(3), inverse(5), a.clone()]).simplify(),
        product(vec![inverse(15), a.clone()])
    );
    assert_eq!(product(vec![integer(15), inverse(3), inverse(5)]).simplify(), integer(1));
    assert_eq!(
        product(vec![integer(10), inverse(-3), inverse(-5), a.clone()]).simplify(),
        product(vec![integer(2), inverse(3), a.clone()])
    );
    assert_eq!(
        Division::new(Division::new(integer(3), integer(7)), integer(7)).simplify(),
        product(vec![inverse(7), product(vec![integer(3), inverse(7)])])
    );
    // what does not fit stays
    let big = product(vec![integer(3), inverse(1 << 62), inverse(4)]);
    assert_eq!(big.simplify(), big);
    let wide = product(vec![integer(1 << 62), integer(4), inverse(6), inverse(5)]);
    assert_eq!(
        wide.simplify(),
        product(vec![integer(1 << 62), integer(4), inverse(30)])
    );
    // a power of an integer that is no reciprocal is no denominator
    let square = product(vec![integer(8), Power::new(integer(4), integer(2))]);
    assert_eq!(square.simplify(), square);
    let zero = product(vec![integer(8), inverse(2), Power::new(integer(0), integer(-1))]);
    assert_eq!(
        zero.simplify(),
        product(vec![integer(4), Power::new(integer(0), integer(-1))])
    );
}

#[test]
fn equal_negations_become_squares() {
    let a = variable("a");
    let b = variable("b");
    let minus = |e: &Expression| negation(e.clone());
    let square = |e: &Expression| Power::new(e.clone(), integer(2));
    assert_eq!(product(vec![minus(&a), minus(&a)]).simplify(), square(&a));
    assert_eq!(
        product(vec![minus(&a), minus(&a), b.clone()]).simplify(),
        product(vec![square(&a), b.clone()])
    );
    assert_eq!(
        product(vec![minus(&a), minus(&a), minus(&a)]).simplify(),
        product(vec![square(&a), minus(&a)])
    );
    assert_eq!(
        product(vec![minus(&a), minus(&a), minus(&a), minus(&a)]).simplify(),
        product(vec![square(&a), square(&a)])
    );
    assert_eq!(
        product(vec![minus(&a), minus(&b), minus(&a), minus(&b), integer(3)]).simplify(),
        product(vec![integer(3), square(&a), square(&b)])
    );
    // a negation and what it negates are left alone
    assert_eq!(
        product(vec![minus(&a), a.clone()]).simplify(),
        product(vec![minus(&a), a.clone()])
    );
    // equal factors that are no negations are left alone
    assert_eq!(
        product(vec![a.clone(), a.clone()]).simplify(),
        product(vec![a.clone(), a.clone()])
    );
}

#[test]
fn children_are_simplified_first() {
    let a = variable("a");
    assert_eq!(
        Power::new(sum(vec![integer(1), integer(1)]), Subtraction::new(a.clone(), a.clone()))
            .simplify(),
        Power::new(integer(2), integer(0))
    );
    assert_eq!(
        Expression::logarithm(product(vec![integer(2), integer(4)]), sum(vec![a.clone()]))
            .simplify(),
        Expression::logarithm(integer(8), a.clone())
    );
    assert_eq!(
        Expression::sin(sum(vec![a.clone(), negation(a.clone())])).simplify(),
        Expression::sin(integer(0))
    );
    assert_eq!(
        Expression::cos(Division::new(integer(4), integer(2))).simplify(),
        Expression::cos(integer(2))
    );
    assert_eq!(
        sum(vec![sum(vec![integer(1), integer(2)]), product(vec![integer(2), integer(2)])])
            .simplify(),
        integer(7)
    );
}

#[test]
fn leaves_simplify_to_themselves() {
    for e in [
        integer(5),
        real_literal(0.1),
        variable("x"),
        Symbol::constant("e", std::f64::consts::E.to_bits()).expr(),
    ] {
        assert_eq!(e.simplify(), e);
    }
}

use algebra::expression::{Division, Expression, Power, Subtraction};
use algebra::symbol::Symbol;

fn integer(value: i64) -> Expression {
    Symbol::integer(value).expr()
}

fn variable(label: &str) -> Expression {
    Symbol::variable(label).expr()
}

fn sum(items: Vec<Expression>) -> Expression {
    Expression::addition(items)
}

fn product(items: Vec<Expression>) -> Expression {
    Expression::multiplication(items)
}

fn euler() -> Expression {
    Symbol::constant("e", std::f64::consts::E.to_bits()).expr()
}

fn natural_logarithm(e: Expression) -> Expression {
    Expression::logarithm(e, euler())
}

// ---------------------------------------------------------------- expand

#[test]
fn a_product_is_distributed_over_a_sum() {
    let a = variable("a");
    let b = variable("b");
    let c = variable("c");
    assert_eq!(
        product(vec![sum(vec![a.clone(), b.clone()]), c.clone()]).expand(),
        sum(vec![product(vec![a.clone(), c.clone()]), product(vec![b.clone(), c.clone()])])
    );
}

#[test]
fn a_product_of_sums_is_distributed_over_both() {
    let a = variable("a");
    let b = variable("b");
    let c = variable("c");
    let d = variable("d");
    let expanded =
        product(vec![sum(vec![a.clone(), b.clone()]), sum(vec![c.clone(), d.clone()])]).expand();
    assert_eq!(
        expanded,
        sum(vec![
            sum(vec![product(vec![a.clone(), c.clone()]), product(vec![a.clone(), d.clone()])]),
            sum(vec![product(vec![b.clone(), c.clone()]), product(vec![b.clone(), d.clone()])]),
        ])
    );
}

#[test]
fn expansion_folds_nothing() {
    let e = product(vec![sum(vec![integer(2), integer(3)]), integer(4)]);
    assert_eq!(
        e.clone().expand(),
        sum(vec![product(vec![integer(2), integer(4)]), product(vec![integer(3), integer(4)])])
    );
    assert_eq!(e.clone().expand().simplify(), integer(20));
    assert_eq!(e.simplify(), integer(20));
    assert_eq!(sum(vec![integer(1), integer(2)]).expand(), sum(vec![integer(1), integer(2)]));
}

#[test]
fn expansion_keeps_the_value_of_literals() {
    for (a, b, c) in [(2, 3, 4), (-5, 5, 7), (0, 0, 0), (1, -1, 9), (100, 23, -3)] {
        let e = product(vec![sum(vec![integer(a), integer(b)]), integer(c)]);
        assert_eq!(e.clone().expand().simplify(), integer((a + b) * c));
        assert_eq!(e.simplify(), integer((a + b) * c));
    }
}

#[test]
fn a_product_with_an_empty_sum_expands_to_the_empty_sum() {
    assert_eq!(product(vec![sum(vec![]), variable("a")]).expand(), sum(vec![]));
}

#[test]
fn a_product_without_a_sum_stays() {
    let e = product(vec![variable("a"), Power::new(variable("b"), integer(2)), integer(3)]);
    assert_eq!(e.clone().expand(), e);
    assert_eq!(product(vec![]).expand(), product(vec![]));
}

#[test]
fn a_sum_raised_to_a_natural_number_is_multiplied_out() {
    let a = variable("a");
    let b = variable("b");
    let s = sum(vec![a.clone(), b.clone()]);
    assert_eq!(Power::new(s.clone(), integer(0)).expand(), integer(1));
    assert_eq!(Power::new(s.clone(), integer(1)).expand(), s);
    assert_eq!(
        Power::new(s.clone(), integer(2)).expand(),
        sum(vec![
            sum(vec![product(vec![a.clone(), a.clone()]), product(vec![a.clone(), b.clone()])]),
            sum(vec![product(vec![b.clone(), a.clone()]), product(vec![b.clone(), b.clone()])]),
        ])
    );
}

#[test]
fn other_powers_stay_unexpanded() {
    let a = variable("a");
    let b = variable("b");
    let s = sum(vec![a.clone(), b.clone()]);
    for e in [
        Power::new(s.clone(), integer(-2)),
        Power::new(s.clone(), variable("n")),
        Power::new(s.clone(), Symbol::real_from_bits(2.0f64.to_bits()).expr()),
        Power::new(product(vec![a.clone(), b.clone()]), integer(2)),
        Power::new(a.clone(), integer(3)),
    ] {
        assert_eq!(e.clone().expand(), e);
    }
    // the base and the exponent are expanded
    assert_eq!(
        Power::new(product(vec![s.clone(), a.clone()]), product(vec![s.clone(), b.clone()]))
            .expand(),
        Power::new(
            sum(vec![product(vec![a.clone(), a.clone()]), product(vec![a.clone(), b.clone()])]),
            sum(vec![product(vec![a.clone(), b.clone()]), product(vec![b.clone(), b.clone()])]),
        )
    );
}

#[test]
fn a_logarithm_is_expanded_inside_but_not_split() {
    let a = variable("a");
    let b = variable("b");
    let c = variable("c");
    let argument = product(vec![a.clone(), b.clone()]);
    assert_eq!(
        Expression::logarithm(argument.clone(), integer(2)).expand(),
        Expression::logarithm(argument.clone(), integer(2))
    );
    assert_eq!(
        Expression::logarithm(
            product(vec![sum(vec![a.clone(), b.clone()]), c.clone()]),
            product(vec![sum(vec![a.clone(), b.clone()]), c.clone()])
        )
        .expand(),
        Expression::logarithm(
            sum(vec![product(vec![a.clone(), c.clone()]), product(vec![b.clone(), c.clone()])]),
            sum(vec![product(vec![a.clone(), c.clone()]), product(vec![b.clone(), c.clone()])]),
        )
    );
}

#[test]
fn a_difference_and_a_quotient_expand_as_sum_and_product() {
    let a = variable("a");
    let b = variable("b");
    let c = variable("c");
    assert_eq!(
        Subtraction::new(a.clone(), b.clone()).expand(),
        sum(vec![a.clone(), product(vec![integer(-1), b.clone()])])
    );
    assert_eq!(
        Subtraction::new(a.clone(), sum(vec![b.clone(), c.clone()])).expand(),
        sum(vec![
            a.clone(),
            sum(vec![
                product(vec![integer(-1), b.clone()]),
                product(vec![integer(-1), c.clone()])
            ]),
        ])
    );
    assert_eq!(
        Division::new(sum(vec![a.clone(), b.clone()]), c.clone()).expand(),
        sum(vec![
            product(vec![a.clone(), Power::new(c.clone(), integer(-1))]),
            product(vec![b.clone(), Power::new(c.clone(), integer(-1))]),
        ])
    );
    assert_eq!(
        Division::new(a.clone(), sum(vec![b.clone(), c.clone()])).expand(),
        product(vec![a.clone(), Power::new(sum(vec![b.clone(), c.clone()]), integer(-1))])
    );
}

#[test]
fn leaves_and_functions_expand_structurally() {
    let a = variable("a");
    let b = variable("b");
    let c = variable("c");
    assert_eq!(integer(3).expand(), integer(3));
    assert_eq!(a.clone().expand(), a);
    assert_eq!(
        Expression::sin(product(vec![sum(vec![a.clone(), b.clone()]), c.clone()])).expand(),
        Expression::sin(sum(vec![
            product(vec![a.clone(), c.clone()]),
            product(vec![b.clone(), c.clone()])
        ]))
    );
    assert_eq!(
        Expression::cos(product(vec![sum(vec![a.clone(), b.clone()]), c.clone()])).expanded(),
        Expression::cos(sum(vec![
            product(vec![a.clone(), c.clone()]),
            product(vec![b.clone(), c.clone()])
        ]))
    );
}

// ---------------------------------------------------------------- differentiate

#[test]
fn symbols_differentiate_to_one_or_zero() {
    assert_eq!(variable("x").differentiate("x"), integer(1));
    assert_eq!(variable("y").differentiate("x"), integer(0));
    assert_eq!(variable("xx").differentiate("x"), integer(0));
    assert_eq!(integer(5).differentiate("x"), integer(0));
    assert_eq!(Symbol::real_from_bits(5).expr().differentiate("x"), integer(0));
    assert_eq!(Symbol::constant("x", 0).expr().differentiate("x"), integer(0));
}

#[test]
fn the_derivative_of_a_sum_is_the_sum_of_the_derivatives() {
    let x = variable("x");
    let y = variable("y");
    assert_eq!(
        sum(vec![x.clone(), y.clone(), integer(3)]).differentiate("x"),
        sum(vec![integer(1), integer(0), integer(0)])
    );
    let a = product(vec![x.clone(), x.clone()]);
    let b = Expression::sin(x.clone());
    assert_eq!(
        sum(vec![a.clone(), b.clone()]).differentiate("x"),
        sum(vec![a.differentiate("x"), b.differentiate("x")])
    );
    assert_eq!(
        sum(vec![a.clone(), b.clone()]).differentiate("x").simplify(),
        sum(vec![a.differentiate("x"), b.differentiate("x")]).simplify()
    );
}

#[test]
fn the_product_rule_takes_each_operand_in_turn() {
    let x = variable("x");
    let y = variable("y");
    assert_eq!(
        product(vec![x.clone(), y.clone()]).differentiate("x"),
        sum(vec![
            product(vec![integer(1), y.clone()]),
            product(vec![x.clone(), integer(0)])
        ])
    );
    assert_eq!(
        product(vec![integer(3), x.clone(), y.clone()]).differentiate("y"),
        sum(vec![
            product(vec![integer(0), x.clone(), y.clone()]),
            product(vec![integer(3), integer(0), y.clone()]),
            product(vec![integer(3), x.clone(), integer(1)]),
        ])
    );
    assert_eq!(product(vec![]).differentiate("x"), sum(vec![]));
}

#[test]
fn the_power_rule_for_a_literal_exponent() {
    let x = variable("x");
    assert_eq!(
        Power::new(x.clone(), integer(3)).differentiate("x"),
        product(vec![
            integer(3),
            Power::new(x.clone(), Subtraction::new(integer(3), integer(1))),
            integer(1),
        ])
    );
    assert_eq!(
        Power::new(x.clone(), integer(3)).differentiate("x").simplify(),
        product(vec![integer(3), Power::new(x.clone(), integer(2))])
    );
}

#[test]
fn the_general_rule_for_any_other_exponent() {
    let x = variable("x");
    let y = variable("y");
    assert_eq!(
        Power::new(x.clone(), y.clone()).differentiate("x"),
        product(vec![
            Power::new(x.clone(), y.clone()),
            sum(vec![
                product(vec![integer(0), natural_logarithm(x.clone())]),
                product(vec![y.clone(), Division::new(integer(1), x.clone())]),
            ]),
        ])
    );
}

#[test]
fn logarithm_sine_and_cosine_follow_the_chain_rule() {
    let x = variable("x");
    let inner = product(vec![integer(2), x.clone()]);
    let d_inner = inner.differentiate("x");
    assert_eq!(
        natural_logarithm(inner.clone()).differentiate("x"),
        product(vec![d_inner.clone(), Division::new(integer(1), inner.clone())])
    );
    assert_eq!(
        Expression::logarithm(inner.clone(), integer(10)).differentiate("x"),
        product(vec![
            d_inner.clone(),
            Division::new(
                integer(1),
                product(vec![inner.clone(), natural_logarithm(integer(10))])
            ),
        ])
    );
    assert_eq!(
        Expression::sin(inner.clone()).differentiate("x"),
        product(vec![d_inner.clone(), Expression::cos(inner.clone())])
    );
    assert_eq!(
        Expression::cos(inner.clone()).differentiate("x"),
        product(vec![
            d_inner.clone(),
            product(vec![integer(-1), Expression::sin(inner.clone())])
        ])
    );
}

#[test]
fn a_difference_and_a_quotient_differentiate_as_sum_and_product() {
    let x = variable("x");
    let y = Expression::sin(variable("x"));
    assert_eq!(
        Subtraction::new(x.clone(), y.clone()).differentiate("x"),
        sum(vec![x.clone(), product(vec![integer(-1), y.clone()])]).differentiate("x")
    );
    assert_eq!(
        Division::new(x.clone(), y.clone()).differentiate("x"),
        product(vec![x.clone(), Power::new(y.clone(), integer(-1))]).differentiate("x")
    );
    assert_eq!(
        Subtraction::new(integer(-1), integer(-1)).differentiate("x"),
        sum(vec![integer(-1), product(vec![integer(-1), integer(-1)])]).differentiate("x")
    );
    assert_eq!(
        Subtraction::new(x.clone(), integer(5)).differentiate("x").simplify(),
        integer(1)
    );
}

// ---------------------------------------------------------------- evaluation order

#[test]
fn evaluation_stops_at_the_first_free_variable() {
    let x = variable("x");
    let y = variable("y");
    assert_eq!(sum(vec![x.clone(), integer(1)]).unresolved(), Some(x.clone()));
    assert_eq!((x.clone() + integer(1)).unresolved(), Some(x.clone()));
    assert_eq!(integer(1).unresolved(), None);
    assert_eq!(Symbol::real_from_bits(7).expr().unresolved(), None);
    assert_eq!(Symbol::constant("pi", 7).expr().unresolved(), None);
    assert_eq!(Power::new(integer(2), integer(3)).unresolved(), None);
    assert_eq!(Division::new(x.clone(), integer(0)).unresolved(), Some(x.clone()));
    assert_eq!(Division::new(integer(1), integer(0)).unresolved(), None);
    // left before right
    assert_eq!(Subtraction::new(y.clone(), x.clone()).unresolved(), Some(y.clone()));
    assert_eq!(Subtraction::new(integer(1), x.clone()).unresolved(), Some(x.clone()));
    assert_eq!(Power::new(y.clone(), x.clone()).unresolved(), Some(y.clone()));
    assert_eq!(Expression::logarithm(y.clone(), x.clone()).unresolved(), Some(y.clone()));
    assert_eq!(Expression::logarithm(integer(8), x.clone()).unresolved(), Some(x.clone()));
    // operands in canonical order
    assert_eq!(sum(vec![y.clone(), x.clone()]).unresolved(), Some(x.clone()));
    assert_eq!(
        product(vec![Expression::sin(x.clone()), y.clone(), integer(2)]).unresolved(),
        Some(y.clone())
    );
    assert_eq!(Expression::cos(Expression::sin(x.clone())).unresolved(), Some(x.clone()));
    assert_eq!(
        sum(vec![integer(1), product(vec![integer(2), Symbol::constant("k", 1).expr()])])
            .unresolved(),
        None
    );
}

// ---------------------------------------------------------------- operators

#[test]
fn negate_number_sign() {
    assert_eq!(-integer(1), integer(-1) * integer(1));
}

#[test]
fn negate_constant() {
    let one = || Symbol::constant("one", 1.0f64.to_bits()).expr();
    assert_eq!(-one(), integer(-1) * one());
}

#[test]
fn operators_build_the_node() {
    let a = variable("a");
    let b = variable("b");
    let one = integer(1);
    let inverse = |e: &Expression| Power::new(e.clone(), integer(-1));
    assert_eq!(integer(1) + integer(1), sum(vec![integer(1), integer(1)]));
    assert_ne!(integer(1) + integer(1), integer(2));
    assert_eq!(&a + &b, sum(vec![a.clone(), b.clone()]));
    assert_eq!(&b + &a, &a + &b);
    assert_eq!(&a * &b, product(vec![a.clone(), b.clone()]));
    assert_eq!(&b * &a, &a * &b);
    assert_eq!(&one * integer(3), product(vec![integer(1), integer(3)]));
    assert_eq!(&a - &b, Subtraction::new(a.clone(), b.clone()));
    assert_eq!(&a - &a, Subtraction::new(a.clone(), a.clone()));
    assert_eq!(&a ^ &b, Power::new(a.clone(), b.clone()));
    assert_eq!(
        &a ^ (integer(1) + integer(1)),
        Power::new(a.clone(), sum(vec![integer(1), integer(1)]))
    );
    assert_eq!(-&a, product(vec![integer(-1), a.clone()]));
    assert_eq!(-integer(5), product(vec![integer(-1), integer(5)]));
    // a quotient is the product with the inverse, and takes in the factors of a product
    assert_eq!(&a / &b, product(vec![a.clone(), inverse(&b)]));
    assert_eq!(integer(6) / integer(3), product(vec![integer(6), inverse(&integer(3))]));
    assert_eq!(
        (&a / &b) / integer(7),
        product(vec![a.clone(), inverse(&b), inverse(&integer(7))])
    );
    assert_eq!(
        product(vec![]) / a.clone(),
        product(vec![inverse(&a)])
    );
    assert_eq!(
        sum(vec![a.clone(), b.clone()]) / a.clone(),
        product(vec![sum(vec![a.clone(), b.clone()]), inverse(&a)])
    );
    assert_ne!(&a / &b, Division::new(a.clone(), b.clone()));
    assert_eq!((&a / &b).simplify(), Division::new(a.clone(), b.clone()).simplify());
    assert_eq!(a.clone() + &b, &a + b.clone());
    assert_eq!(a.clone() - &b, &a - b.clone());
    assert_eq!(a.clone() * &b, &a * b.clone());
    assert_eq!(a.clone() / &b, &a / b.clone());
    assert_eq!(a.clone() ^ &b, &a ^ b.clone());
    assert_eq!(a.clone() + b.clone(), &a + &b);
    assert_eq!(a.clone() - b.clone(), &a - &b);
    assert_eq!(a.clone() * b.clone(), &a * &b);
    assert_eq!(a.clone() / b.clone(), &a / &b);
    assert_eq!(a.clone() ^ b.clone(), &a ^ &b);
}

#[test]
fn expansion_folds_no_literals_built_with_operators() {
    let e = integer(1) + integer(1);
    assert_eq!(e.clone().expand(), e);
    assert_ne!(e.expand(), integer(2));
}

#[test]
fn differentiation_is_linear_over_the_operator() {
    let x = variable("x");
    let a = x.clone();
    let b = integer(-1) * x.clone();
    let left = (&a + &b).differentiate("x").simplify();
    let right = (a.differentiate("x") + b.differentiate("x")).simplify();
    assert_eq!(left, right);
    let c = Expression::sin(x.clone()) * x.clone();
    assert_eq!(
        (&a + &c).differentiate("x"),
        a.differentiate("x") + c.differentiate("x")
    );
}

#[test]
fn expansion_reaches_its_normal_form() {
    let a = variable("a");
    let b = variable("b");
    let c = variable("c");
    let samples = vec![
        product(vec![sum(vec![a.clone(), b.clone()]), sum(vec![b.clone(), c.clone()])]),
        Power::new(sum(vec![a.clone(), integer(1)]), integer(3)),
        Power::new(sum(vec![a.clone(), b.clone()]), integer(0)),
        Subtraction::new(a.clone(), sum(vec![b.clone(), c.clone()])),
        Division::new(sum(vec![a.clone(), b.clone()]), sum(vec![b.clone(), c.clone()])),
        Expression::sin(product(vec![
            c.clone(),
            Power::new(sum(vec![a.clone(), b.clone()]), integer(2)),
        ])),
        natural_logarithm(Subtraction::new(a.clone(), b.clone())),
        product(vec![product(vec![sum(vec![a.clone(), b.clone()]), c.clone()]), c.clone()]),
        integer(1) + integer(1),
        sum(vec![]),
        product(vec![]),
    ];
    for e in samples {
        let once = e.expanded();
        assert!(once.is_expanded());
        assert_eq!(once.expanded(), once);
    }
}

#[test]
fn what_is_not_multiplied_out_is_told_apart() {
    let a = variable("a");
    let b = variable("b");
    let ab = sum(vec![a.clone(), b.clone()]);
    assert!(a.is_expanded());
    assert!(integer(-3).is_expanded());
    assert!(ab.is_expanded());
    assert!(sum(vec![ab.clone(), a.clone()]).is_expanded());
    assert!(product(vec![a.clone(), b.clone()]).is_expanded());
    assert!(Power::new(ab.clone(), integer(-1)).is_expanded());
    assert!(Power::new(ab.clone(), a.clone()).is_expanded());
    assert!(Power::new(a.clone(), integer(2)).is_expanded());
    assert!(!product(vec![ab.clone(), a.clone()]).is_expanded());
    assert!(!Power::new(ab.clone(), integer(2)).is_expanded());
    assert!(!Power::new(ab.clone(), integer(0)).is_expanded());
    assert!(!Subtraction::new(a.clone(), b.clone()).is_expanded());
    assert!(!Division::new(a.clone(), b.clone()).is_expanded());
    assert!(!Expression::cos(product(vec![ab.clone(), a.clone()])).is_expanded());
    assert!(!natural_logarithm(Subtraction::new(a.clone(), b.clone())).is_expanded());
    assert!(!sum(vec![Power::new(ab.clone(), integer(1)), a.clone()]).is_expanded());
}

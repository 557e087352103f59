use algebra::evaluate::Step;
use algebra::expression::{Division, Expression, Power, Subtraction};
use algebra::symbol::Symbol;

fn integer(value: i64) -> Expression {
    Symbol::integer(value).expr()
}

fn variable(label: &str) -> Expression {
    Symbol::variable(label).expr()
}

fn real_literal(value: f64) -> Expression {
    Symbol::real_from_bits(value.to_bits()).expr()
}

fn take(stack: &mut Vec<f64>) -> f64 {
    stack.pop().unwrap()
}

/// Runs the steps of an expression with floating-point arithmetic.
fn into_num(e: &Expression) -> Result<f64, Expression> {
    let mut stack: Vec<f64> = Vec::new();
    for step in e.program() {
        match step {
            Step::Integer(v) => stack.push(v as f64),
            Step::Real(bits) => stack.push(f64::from_bits(bits)),
            Step::Variable(label) => return Err(Symbol::variable(&label).expr()),
            Step::Sine => {
                let x = take(&mut stack);
                stack.push(x.sin());
            }
            Step::Cosine => {
                let x = take(&mut stack);
                stack.push(x.cos());
            }
            two => {
                let y = take(&mut stack);
                let x = take(&mut stack);
                stack.push(match two {
                    Step::Add => x + y,
                    Step::Multiply => x * y,
                    Step::Subtract => x - y,
                    Step::Divide => x / y,
                    Step::Raise => x.powf(y),
                    _ => x.log(y),
                });
            }
        }
    }
    assert_eq!(stack.len(), 1);
    Ok(take(&mut stack))
}

#[test]
fn the_steps_follow_the_order_of_evaluation() {
    let x = variable("x");
    assert_eq!(integer(5).program(), vec![Step::Integer(5)]);
    assert_eq!(real_literal(0.5).program(), vec![Step::Real(0.5f64.to_bits())]);
    assert_eq!(
        Symbol::constant("pi", 7).expr().program(),
        vec![Step::Real(7)]
    );
    assert_eq!(x.program(), vec![Step::Variable(String::from("x"))]);
    assert_eq!(
        Expression::addition(vec![x.clone(), integer(1)]).program(),
        vec![
            Step::Integer(0),
            Step::Integer(1),
            Step::Add,
            Step::Variable(String::from("x")),
            Step::Add,
        ]
    );
    assert_eq!(
        Expression::multiplication(vec![integer(2), integer(3)]).program(),
        vec![
            Step::Integer(1),
            Step::Integer(2),
            Step::Multiply,
            Step::Integer(3),
            Step::Multiply,
        ]
    );
    assert_eq!(Expression::addition(vec![]).program(), vec![Step::Integer(0)]);
    assert_eq!(
        Power::new(integer(2), integer(3)).program(),
        vec![Step::Integer(2), Step::Integer(3), Step::Raise]
    );
    assert_eq!(
        Subtraction::new(Division::new(integer(1), integer(2)), x.clone()).program(),
        vec![
            Step::Integer(1),
            Step::Integer(2),
            Step::Divide,
            Step::Variable(String::from("x")),
            Step::Subtract,
        ]
    );
    assert_eq!(
        Expression::logarithm(Expression::sin(integer(1)), Expression::cos(integer(2))).program(),
        vec![
            Step::Integer(1),
            Step::Sine,
            Step::Integer(2),
            Step::Cosine,
            Step::Logarithm,
        ]
    );
}

#[test]
fn a_literal_evaluates_to_itself() {
    for v in [0.0, 1.0, -1.0, 2.5, -1e300, 1e-300, f64::MAX, f64::INFINITY] {
        assert_eq!(into_num(&real_literal(v)), Ok(v));
    }
    for v in [0, 1, -1, 42, -1000000] {
        assert_eq!(into_num(&integer(v)), Ok(v as f64));
    }
    assert_eq!(
        into_num(&Symbol::constant("half", 0.5f64.to_bits()).expr()),
        Ok(0.5)
    );
}

#[test]
fn two_to_the_third_is_eight() {
    assert_eq!(into_num(&Power::new(integer(2), integer(3))), Ok(8.0));
    assert_eq!(into_num(&Power::new(real_literal(2.0), real_literal(3.0))), Ok(8.0));
}

#[test]
fn evaluation_fails_with_the_first_free_variable() {
    let x = variable("x");
    let y = variable("y");
    assert_eq!(
        into_num(&Expression::addition(vec![x.clone(), integer(1)])),
        Err(x.clone())
    );
    assert_eq!(into_num(&x), Err(x.clone()));
    assert_eq!(into_num(&Subtraction::new(y.clone(), x.clone())), Err(y.clone()));
    assert_eq!(
        into_num(&Subtraction::new(integer(1), x.clone())),
        Err(x.clone())
    );
    assert_eq!(
        into_num(&Expression::multiplication(vec![y.clone(), x.clone()])),
        Err(x.clone())
    );
    assert_eq!(into_num(&Division::new(x.clone(), integer(0))), Err(x.clone()));
    for e in [
        Expression::addition(vec![x.clone(), integer(1)]),
        Power::new(Expression::sin(y.clone()), x.clone()),
        Expression::logarithm(integer(2), Expression::cos(y.clone())),
        Expression::multiplication(vec![integer(3), real_literal(0.5)]),
    ] {
        assert_eq!(into_num(&e).err(), e.unresolved());
    }
}

#[test]
fn evaluation_computes_with_floating_point_numbers() {
    let two = || integer(2);
    assert_eq!(into_num(&Expression::addition(vec![two(), real_literal(0.5)])), Ok(2.5));
    assert_eq!(
        into_num(&Expression::multiplication(vec![two(), real_literal(0.5), integer(-3)])),
        Ok(-3.0)
    );
    assert_eq!(into_num(&Subtraction::new(two(), integer(5))), Ok(-3.0));
    assert_eq!(into_num(&Division::new(integer(1), integer(4))), Ok(0.25));
    assert_eq!(into_num(&Expression::logarithm(integer(8), two())), Ok(3.0));
    assert_eq!(into_num(&Expression::sin(integer(0))), Ok(0.0));
    assert_eq!(into_num(&Expression::cos(integer(0))), Ok(1.0));
    assert_eq!(into_num(&Expression::addition(vec![])), Ok(0.0));
    assert_eq!(into_num(&Expression::multiplication(vec![])), Ok(1.0));
}

#[test]
fn negate_number_sign_numerical_evaluation() {
    assert_eq!(into_num(&(-integer(1))), Ok(-1.0));
}

#[test]
fn negate_constant_numerical_evaluation() {
    assert_eq!(
        into_num(&(-Symbol::constant("one", 1.0f64.to_bits()).expr())),
        Ok(-1.0)
    );
}

#[test]
fn a_division_by_zero_follows_the_floating_point_rules() {
    assert_eq!(into_num(&Division::new(integer(1), integer(0))), Ok(f64::INFINITY));
    assert_eq!(
        into_num(&Division::new(integer(-1), integer(0))),
        Ok(f64::NEG_INFINITY)
    );
    assert!(into_num(&Division::new(integer(0), integer(0))).unwrap().is_nan());
    assert!(into_num(&Expression::logarithm(integer(-1), integer(2))).unwrap().is_nan());
}

#[test]
fn expansion_keeps_the_value_of_a_product_of_literals() {
    for (a, b, c) in [(2.0, 3.0, 4.0), (0.5, 0.25, 8.0), (-1.0, 1.0, 7.0), (10.0, -2.0, 0.5)] {
        let e = Expression::multiplication(vec![
            Expression::addition(vec![real_literal(a), real_literal(b)]),
            real_literal(c),
        ]);
        assert_eq!(into_num(&e.expanded()), into_num(&e));
        assert_eq!(into_num(&e), Ok((a + b) * c));
    }
    for (a, b, c) in [(2, 3, 4), (-5, 5, 7), (100, 23, -3)] {
        let e = Expression::multiplication(vec![
            Expression::addition(vec![integer(a), integer(b)]),
            integer(c),
        ]);
        assert_eq!(into_num(&e.expanded()), into_num(&e));
        assert_eq!(into_num(&e.simplify()), into_num(&e));
    }
}

#[test]
fn expansion_can_change_the_last_bit_of_a_floating_point_value() {
    let e = Expression::multiplication(vec![
        Expression::addition(vec![real_literal(0.1), real_literal(0.2)]),
        real_literal(0.3),
    ]);
    assert_eq!(into_num(&e), Ok(0.09000000000000001));
    assert_eq!(into_num(&e.expanded()), Ok(0.09));
}

#[test]
fn what_the_operators_build_evaluates_to_the_operation_on_the_values() {
    let a = real_literal(6.0);
    let b = integer(3);
    let x = variable("x");
    assert_eq!(into_num(&(&a + &b)), Ok(9.0));
    assert_eq!(into_num(&(&a - &b)), Ok(3.0));
    assert_eq!(into_num(&(&a * &b)), Ok(18.0));
    assert_eq!(into_num(&(&a / &b)), Ok(2.0));
    assert_eq!(into_num(&(&a ^ &b)), Ok(216.0));
    assert_eq!(into_num(&(-&a)), Ok(-6.0));
    assert_eq!(into_num(&((&a * &b) / &b)), Ok(6.0));
    assert_eq!(into_num(&(&a + &x)), Err(x.clone()));
    assert_eq!(into_num(&(&x / &b)), Err(x.clone()));
}

#[test]
fn the_derivative_of_a_sum_evaluates_to_the_sum_of_the_derivatives() {
    let a = variable("x");
    let b = real_literal(2.5);
    let da = a.differentiate("x");
    let db = b.differentiate("x");
    assert_eq!(into_num(&da), Ok(1.0));
    assert_eq!(into_num(&db), Ok(0.0));
    assert_eq!(into_num(&(&da + &db)), Ok(1.0));
    assert_eq!(into_num(&(&da + &da)), Ok(2.0));
    assert_eq!(into_num(&(&a + &b).differentiate("x")), Ok(1.0));
    assert_eq!(
        (&a + &b).differentiate("x").simplify(),
        (da + db).simplify()
    );
}

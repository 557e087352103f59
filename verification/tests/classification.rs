use algebra::expression::{CommutativeAssociation, Expression};
use algebra::symbol::Symbol;

fn real_literal(value: f64) -> Expression {
    Symbol::real_from_bits(value.to_bits()).expr()
}

#[test]
fn reals() {
    let items = CommutativeAssociation::new(vec![
        Symbol::integer(1).expr(),
        Symbol::integer(2).expr(),
        Symbol::integer(3).expr(),
        real_literal(1.0),
        real_literal(2.0),
        real_literal(3.0),
    ]);

    assert_eq!(items.get_reals().len(), 3);
    assert!(items.get_reals().contains(&real_literal(1.0)));
    assert!(items.get_reals().contains(&real_literal(2.0)));
    assert!(items.get_reals().contains(&real_literal(3.0)));
}

#[test]
fn numerators() {
    let items = CommutativeAssociation::new(vec![
        Symbol::integer(1).expr(),
        Symbol::integer(2).expr(),
        Symbol::integer(3).expr(),
        real_literal(1.0),
        real_literal(2.0),
        real_literal(3.0),
    ]);

    assert_eq!(items.get_rational_numerators().len(), 3);
    assert!(items
        .get_rational_numerators()
        .contains(&Symbol::integer(1).expr()));
    assert!(items
        .get_rational_numerators()
        .contains(&Symbol::integer(2).expr()));
    assert!(items
        .get_rational_numerators()
        .contains(&Symbol::integer(3).expr()));
}

#[test]
fn denominators() {
    let items = CommutativeAssociation::new(vec![
        Symbol::integer(1).expr(),
        Symbol::integer(2).expr(),
        Symbol::integer(3).expr(),
        Expression::power(Symbol::integer(5).expr(), Symbol::integer(-1).expr()),
        Expression::power(Symbol::integer(2).expr(), Symbol::integer(-1).expr()),
        Expression::power(Symbol::integer(3).expr(), Symbol::integer(-1).expr()),
    ]);

    assert_eq!(items.get_rational_denominators().len(), 3);
    assert!(items
        .get_rational_denominators()
        .contains(&Symbol::integer(2).expr()));
    assert!(items
        .get_rational_denominators()
        .contains(&Symbol::integer(3).expr()));
    assert!(items
        .get_rational_denominators()
        .contains(&Symbol::integer(5).expr()));
}

#[test]
fn symbolics() {
    let items = CommutativeAssociation::new(vec![
        Symbol::integer(1).expr(),
        Symbol::integer(2).expr(),
        Symbol::integer(3).expr(),
        Symbol::variable("a").expr(),
        Symbol::variable("b").expr(),
        Symbol::variable("c").expr(),
    ]);

    assert_eq!(items.get_symbolics().len(), 3);
    assert!(items
        .get_symbolics()
        .contains(&Symbol::variable("a").expr()));
    assert!(items
        .get_symbolics()
        .contains(&Symbol::variable("b").expr()));
    assert!(items
        .get_symbolics()
        .contains(&Symbol::variable("c").expr()));
}

#[test]
fn get() {
    let items = CommutativeAssociation::new(vec![
        Symbol::integer(1).expr(),
        Symbol::integer(2).expr(),
        Symbol::integer(3).expr(),
        Symbol::variable("a").expr(),
        Symbol::variable("b").expr(),
        Symbol::variable("c").expr(),
    ]);

    let filtered = items.get(&|item| match item {
        Expression::Integer(_) => true,
        _ => false,
    });

    assert_eq!(filtered.len(), 3);
    assert!(filtered.contains(&Symbol::integer(1).expr()));
    assert!(filtered.contains(&Symbol::integer(2).expr()));
    assert!(filtered.contains(&Symbol::integer(3).expr()));
}

#[test]
fn rationals() {
    let items = CommutativeAssociation::new(vec![
        Symbol::integer(1).expr(),
        Symbol::variable("a").expr(),
        Symbol::integer(1).expr() / Symbol::integer(7).expr(),
        Symbol::integer(2).expr() / Symbol::integer(7).expr(),
        Symbol::integer(3).expr() / Symbol::integer(7).expr(),
        (Symbol::integer(3).expr() / Symbol::integer(7).expr()) / Symbol::integer(7).expr(),
    ]);

    assert_eq!(items.get_rationals().len(), 5);
    assert!(items.get_rationals().contains(&(Symbol::integer(1).expr())));
    assert!(items
        .get_rationals()
        .contains(&(Symbol::integer(1).expr() / Symbol::integer(7).expr())));
    assert!(items
        .get_rationals()
        .contains(&(Symbol::integer(2).expr() / Symbol::integer(7).expr())));
    assert!(items
        .get_rationals()
        .contains(&(Symbol::integer(3).expr() / Symbol::integer(7).expr())));
    assert!(items.get_rationals().contains(
        &((Symbol::integer(3).expr() / Symbol::integer(7).expr()) / Symbol::integer(7).expr())
    ));

    assert_eq!(items.get_non_rationals().len(), 1);
    assert!(items
        .get_non_rationals()
        .contains(&Symbol::variable("a").expr()));
}

#[test]
fn non_rationals() {
    let items = CommutativeAssociation::new(vec![
        Symbol::integer(1).expr(),
        Symbol::variable("a").expr(),
        Symbol::integer(5).expr() / Symbol::integer(7).expr(),
        Symbol::variable("a").expr() / Symbol::integer(7).expr(),
        Symbol::integer(3).expr() / Symbol::integer(7).expr(),
        (Symbol::integer(3).expr() / Symbol::integer(7).expr()) / Symbol::integer(7).expr(),
    ]);

    assert_eq!(items.get_non_rationals().len(), 2);
    assert!(items
        .get_non_rationals()
        .contains(&Symbol::variable("a").expr()));
    assert!(items
        .get_non_rationals()
        .contains(&(Symbol::variable("a").expr() / Symbol::integer(7).expr())));
}

#[test]
fn map() {
    let items = CommutativeAssociation::new(vec![
        Symbol::integer(1).expr(),
        Symbol::integer(2).expr(),
        Symbol::integer(4).expr(),
    ]);

    let mapped = items.map(&|item| item * Symbol::integer(3).expr());

    assert_eq!(mapped.len(), 3);
    assert!(mapped.contains(&Expression::multiplication(vec![
        Symbol::integer(1).expr(),
        Symbol::integer(3).expr(),
    ])));
    assert!(mapped.contains(&Expression::multiplication(vec![
        Symbol::integer(2).expr(),
        Symbol::integer(3).expr(),
    ])));
    assert!(mapped.contains(&Expression::multiplication(vec![
        Symbol::integer(4).expr(),
        Symbol::integer(3).expr(),
    ])));

    let mapped = items.map(&|item| (item * Symbol::integer(3).expr()).simplify());

    assert_eq!(mapped.len(), 3);
    assert!(mapped.contains(&Symbol::integer(3).expr()));
    assert!(mapped.contains(&Symbol::integer(6).expr()));
    assert!(mapped.contains(&Symbol::integer(12).expr()));
}

#[test]
fn get_one_finds_the_first_in_canonical_order() {
    let items = CommutativeAssociation::new(vec![
        Symbol::variable("b").expr(),
        Symbol::integer(9).expr(),
        Symbol::variable("a").expr(),
        Symbol::integer(2).expr(),
    ]);
    let first_variable = items.get_one(&|item| matches!(item, Expression::Variable(_)));
    assert_eq!(first_variable, Some(Symbol::variable("a").expr()));
    let first_integer = items.get_one(&|item| matches!(item, Expression::Integer(_)));
    assert_eq!(first_integer, Some(Symbol::integer(2).expr()));
    let none = items.get_one(&|item| matches!(item, Expression::Real(_)));
    assert_eq!(none, None);
}

#[test]
fn map_keeps_the_order_of_the_operands() {
    let items = CommutativeAssociation::new(vec![
        Symbol::integer(3).expr(),
        Symbol::integer(1).expr(),
        Symbol::integer(2).expr(),
    ]);
    let negated = items.map(&|item| (-item).simplify());
    assert_eq!(
        negated,
        vec![
            Symbol::integer(-1).expr(),
            Symbol::integer(-2).expr(),
            Symbol::integer(-3).expr(),
        ]
    );
    let products = items.map(&|item| item * Symbol::integer(3).expr());
    assert_eq!(
        products,
        vec![
            Expression::multiplication(vec![Symbol::integer(1).expr(), Symbol::integer(3).expr()]),
            Expression::multiplication(vec![Symbol::integer(2).expr(), Symbol::integer(3).expr()]),
            Expression::multiplication(vec![Symbol::integer(3).expr(), Symbol::integer(3).expr()]),
        ]
    );
}

#[test]
fn denominators_are_the_bases_whatever_the_exponent() {
    let items = CommutativeAssociation::new(vec![
        Expression::power(Symbol::integer(5).expr(), Symbol::integer(2).expr()),
        Expression::power(Symbol::variable("x").expr(), Symbol::integer(-1).expr()),
        Expression::power(Symbol::integer(7).expr(), Symbol::variable("n").expr()),
    ]);
    assert_eq!(items.get_rational_denominators(), vec![Symbol::integer(5).expr()]);
}

#[test]
fn a_product_is_rational_when_its_factors_are_numerators_and_denominators() {
    let seventh = Expression::power(Symbol::integer(7).expr(), Symbol::integer(-1).expr());
    let fraction = Expression::multiplication(vec![Symbol::integer(3).expr(), seventh.clone()]);
    let flat = Expression::multiplication(vec![
        Symbol::integer(3).expr(),
        seventh.clone(),
        seventh.clone(),
    ]);
    let nested = Expression::multiplication(vec![fraction.clone(), seventh.clone()]);
    let one_inside = Expression::multiplication(vec![Expression::multiplication(vec![
        Symbol::integer(1).expr(),
    ])]);
    let mixed = Expression::multiplication(vec![fraction.clone(), Symbol::variable("a").expr()]);
    let empty = Expression::multiplication(vec![]);
    assert!(fraction.is_rational());
    assert!(flat.is_rational());
    assert!(empty.is_rational());
    // the factors of a product are not looked into
    assert!(!nested.is_rational());
    assert!(!one_inside.is_rational());
    assert!(!mixed.is_rational());
    assert!(!Expression::addition(vec![Symbol::integer(1).expr()]).is_rational());
    let items = CommutativeAssociation::new(vec![
        flat.clone(),
        nested.clone(),
        one_inside.clone(),
        mixed.clone(),
    ]);
    assert_eq!(items.get_rationals(), vec![flat.clone()]);
    assert_eq!(items.get_non_rationals().len(), 3);
    assert!(items.get_non_rationals().contains(&nested));
    assert!(items.get_non_rationals().contains(&one_inside));
    assert!(items.get_non_rationals().contains(&mixed));
    assert_eq!(items.get_symbolics().len(), 4);
}

#[test]
fn reals_and_integer_powers_are_not_symbolic() {
    let items = CommutativeAssociation::new(vec![
        real_literal(0.5),
        Expression::power(Symbol::integer(2).expr(), Symbol::integer(3).expr()),
        Expression::power(Symbol::variable("x").expr(), Symbol::integer(3).expr()),
        Symbol::constant("pi", std::f64::consts::PI.to_bits()).expr(),
    ]);
    assert_eq!(
        items.get_symbolics(),
        vec![
            Symbol::constant("pi", std::f64::consts::PI.to_bits()).expr(),
            Expression::power(Symbol::variable("x").expr(), Symbol::integer(3).expr()),
        ]
    );
}

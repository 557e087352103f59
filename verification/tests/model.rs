use algebra::expression::{CommutativeAssociation, Division, Expression, Power, Subtraction};
use algebra::render::parts::Piece;
use algebra::symbol::Symbol;
use std::cmp::Ordering;
use std::hash::{Hash, Hasher};

fn integer(value: i64) -> Expression {
    Symbol::integer(value).expr()
}

fn variable(label: &str) -> Expression {
    Symbol::variable(label).expr()
}

fn real_literal(value: f64) -> Expression {
    Symbol::real_from_bits(value.to_bits()).expr()
}

#[test]
fn displays_label() {
    let y: Expression = Symbol::variable("y").expr();
    assert_eq!(y.to_string(), String::from("y"));
}

#[test]
fn not_evaluable() {
    let x: Expression = Symbol::variable("x").expr();
    assert!(x.unresolved().is_some());
}

#[test]
fn operands_are_kept_in_canonical_order() {
    let items = CommutativeAssociation::new(vec![
        Expression::addition(vec![variable("a"), integer(1)]),
        variable("b"),
        Expression::power(variable("x"), integer(2)),
        real_literal(2.5),
        integer(7),
        variable("a"),
        Symbol::constant("pi", std::f64::consts::PI.to_bits()).expr(),
        Expression::multiplication(vec![variable("a"), integer(2)]),
        integer(-3),
    ]);
    assert_eq!(
        items.items(),
        vec![
            integer(-3),
            integer(7),
            real_literal(2.5),
            Symbol::constant("pi", std::f64::consts::PI.to_bits()).expr(),
            variable("a"),
            variable("b"),
            Expression::power(variable("x"), integer(2)),
            Expression::multiplication(vec![integer(2), variable("a")]),
            Expression::addition(vec![integer(1), variable("a")]),
        ]
    );
    assert_eq!(items.len(), 9);
    assert_eq!(items.operand(4), &variable("a"));
}

#[test]
fn duplicates_are_kept() {
    let items = CommutativeAssociation::new(vec![variable("a"), integer(1), variable("a")]);
    assert_eq!(items.items(), vec![integer(1), variable("a"), variable("a")]);
}

#[test]
fn sums_are_equal_in_any_order_of_the_operands() {
    let a = variable("a");
    let b = Expression::power(variable("b"), integer(2));
    let c = integer(3);
    let orders = [
        vec![a.clone(), b.clone(), c.clone()],
        vec![a.clone(), c.clone(), b.clone()],
        vec![b.clone(), a.clone(), c.clone()],
        vec![b.clone(), c.clone(), a.clone()],
        vec![c.clone(), a.clone(), b.clone()],
        vec![c.clone(), b.clone(), a.clone()],
    ];
    let first = Expression::addition(orders[0].clone());
    let first_product = Expression::multiplication(orders[0].clone());
    for order in orders.iter() {
        assert_eq!(Expression::addition(order.clone()), first);
        assert_eq!(Expression::multiplication(order.clone()), first_product);
    }
    assert_ne!(first, first_product);
}

#[test]
fn binary_nodes_are_equal_only_position_by_position() {
    let a = variable("a");
    let b = variable("b");
    assert_eq!(Subtraction::new(a.clone(), b.clone()), Subtraction::new(a.clone(), b.clone()));
    assert_ne!(Subtraction::new(a.clone(), b.clone()), Subtraction::new(b.clone(), a.clone()));
    assert_ne!(Division::new(a.clone(), b.clone()), Division::new(b.clone(), a.clone()));
    assert_ne!(Power::new(a.clone(), b.clone()), Power::new(b.clone(), a.clone()));
    assert_ne!(
        Expression::logarithm(a.clone(), b.clone()),
        Expression::logarithm(b.clone(), a.clone())
    );
    assert_ne!(Subtraction::new(a.clone(), b.clone()), Division::new(a.clone(), b.clone()));
    assert!(a.equals(&variable("a")));
    assert!(!a.equals(&b));
}

#[test]
fn compare_ranks_by_kind_first() {
    let ranked = vec![
        integer(100),
        real_literal(-5.0),
        Symbol::constant("a", 0).expr(),
        variable("a"),
        Expression::power(integer(1), integer(1)),
        Expression::logarithm(integer(1), integer(1)),
        Expression::sin(integer(1)),
        Expression::cos(integer(1)),
        Expression::multiplication(vec![]),
        Expression::addition(vec![]),
        Division::new(integer(1), integer(1)),
        Subtraction::new(integer(1), integer(1)),
    ];
    for i in 0..ranked.len() {
        for j in 0..ranked.len() {
            assert_eq!(ranked[i].compare(&ranked[j]), i.cmp(&j));
        }
    }
}

#[test]
fn compare_orders_within_a_kind() {
    assert_eq!(integer(-2).compare(&integer(1)), Ordering::Less);
    assert_eq!(integer(5).compare(&integer(5)), Ordering::Equal);
    assert_eq!(integer(i64::MAX).compare(&integer(i64::MIN)), Ordering::Greater);
    assert_eq!(variable("a").compare(&variable("ab")), Ordering::Less);
    assert_eq!(variable("b").compare(&variable("ab")), Ordering::Greater);
    assert_eq!(variable("").compare(&variable("a")), Ordering::Less);
    assert_eq!(variable("z").compare(&variable("é")), Ordering::Less);
    assert_eq!(
        Symbol::constant("c", 1).expr().compare(&Symbol::constant("c", 2).expr()),
        Ordering::Less
    );
    assert_eq!(
        Symbol::constant("c", (-1.0f64).to_bits())
            .expr()
            .compare(&Symbol::constant("c", 1.0f64.to_bits()).expr()),
        Ordering::Less
    );
    assert_eq!(
        Symbol::constant("b", 9).expr().compare(&Symbol::constant("c", 2).expr()),
        Ordering::Less
    );
    assert_eq!(real_literal(1.5).compare(&real_literal(2.5)), Ordering::Less);
    assert_eq!(real_literal(-1.5).compare(&real_literal(-2.5)), Ordering::Greater);
    assert_eq!(real_literal(-1.5).compare(&real_literal(1.0)), Ordering::Less);
    assert_eq!(real_literal(-0.0).compare(&real_literal(0.0)), Ordering::Less);
    assert_eq!(real_literal(f64::INFINITY).compare(&real_literal(f64::MAX)), Ordering::Greater);
    assert_eq!(
        real_literal(f64::NEG_INFINITY).compare(&real_literal(f64::MIN)),
        Ordering::Less
    );
    assert_eq!(real_literal(f64::NAN).compare(&real_literal(f64::NAN)), Ordering::Equal);
    for (x, y) in [(1.5, 2.5), (-3.0, 2.0), (-3.0, -2.0), (0.0, 1e-300), (-1e300, 1e300)] {
        assert_eq!(
            real_literal(x).compare(&real_literal(y)),
            f64::total_cmp(&x, &y),
            "for {} and {}",
            x,
            y
        );
    }
    assert_eq!(
        Expression::power(variable("a"), integer(2))
            .compare(&Expression::power(variable("a"), integer(3))),
        Ordering::Less
    );
    assert_eq!(
        Expression::power(variable("b"), integer(2))
            .compare(&Expression::power(variable("a"), integer(3))),
        Ordering::Greater
    );
    assert_eq!(
        Expression::sin(variable("a")).compare(&Expression::sin(variable("b"))),
        Ordering::Less
    );
    assert_eq!(
        Expression::addition(vec![variable("a")])
            .compare(&Expression::addition(vec![variable("a"), variable("b")])),
        Ordering::Less
    );
    assert_eq!(
        Expression::addition(vec![variable("a"), variable("c")])
            .compare(&Expression::addition(vec![variable("a"), variable("b")])),
        Ordering::Greater
    );
    assert_eq!(
        Expression::multiplication(vec![variable("a"), variable("b")])
            .compare(&Expression::multiplication(vec![variable("b"), variable("a")])),
        Ordering::Equal
    );
}

#[test]
fn a_clone_is_equal_to_what_was_cloned() {
    let e = Expression::addition(vec![
        Division::new(variable("a"), integer(2)),
        Expression::cos(Expression::logarithm(variable("x"), real_literal(10.0))),
        Symbol::constant("k", 7).expr(),
    ]);
    assert_eq!(e.clone(), e);
    assert_eq!(e.clone().compare(&e), Ordering::Equal);
}

#[test]
fn getters_give_the_children() {
    match Power::new(variable("a"), integer(2)) {
        Expression::Power(p) => {
            assert_eq!(p.argument(), &variable("a"));
            assert_eq!(p.modifier(), &integer(2));
        }
        _ => panic!("a power was built"),
    }
    match Division::new(variable("a"), integer(2)) {
        Expression::Division(d) => {
            assert_eq!(d.left_hand_side(), &variable("a"));
            assert_eq!(d.right_hand_side(), &integer(2));
        }
        _ => panic!("a division was built"),
    }
    match Subtraction::new(variable("a"), integer(2)) {
        Expression::Subtraction(s) => {
            assert_eq!(s.left_hand_side(), &variable("a"));
            assert_eq!(s.right_hand_side(), &integer(2));
        }
        _ => panic!("a subtraction was built"),
    }
    match Expression::logarithm(variable("a"), integer(2)) {
        Expression::Logarithm(l) => {
            assert_eq!(l.argument(), &variable("a"));
            assert_eq!(l.modifier(), &integer(2));
        }
        _ => panic!("a logarithm was built"),
    }
}

#[test]
fn renders_infix_notation() {
    let a = variable("a");
    let b = variable("b");
    assert_eq!(integer(42).to_string(), "42");
    assert_eq!(integer(0).to_string(), "0");
    assert_eq!(integer(-7).to_string(), "-7");
    assert_eq!(integer(i64::MIN).to_string(), "-9223372036854775808");
    assert_eq!(integer(i64::MAX).to_string(), "9223372036854775807");
    assert_eq!(real_literal(1.0).to_string(), "0x3ff0000000000000");
    assert_eq!(Symbol::constant("pi", 0).expr().to_string(), "pi");
    assert_eq!(Expression::addition(vec![b.clone(), a.clone()]).to_string(), "a + b");
    assert_eq!(Expression::addition(vec![]).to_string(), "0");
    assert_eq!(Expression::multiplication(vec![]).to_string(), "1");
    assert_eq!(
        Expression::multiplication(vec![
            Expression::addition(vec![a.clone(), b.clone()]),
            integer(2)
        ])
        .to_string(),
        "2 * (a + b)"
    );
    assert_eq!(
        Expression::multiplication(vec![integer(-1), a.clone()]).to_string(),
        "(-1) * a"
    );
    assert_eq!(Subtraction::new(a.clone(), b.clone()).to_string(), "a - b");
    assert_eq!(
        Subtraction::new(a.clone(), Subtraction::new(b.clone(), a.clone())).to_string(),
        "a - (b - a)"
    );
    assert_eq!(
        Division::new(a.clone(), Expression::multiplication(vec![a.clone(), b.clone()]))
            .to_string(),
        "a / (a * b)"
    );
    assert_eq!(Power::new(a.clone(), integer(2)).to_string(), "a^2");
    assert_eq!(
        Power::new(Expression::addition(vec![a.clone(), b.clone()]), integer(-1)).to_string(),
        "(a + b)^(-1)"
    );
    assert_eq!(Expression::logarithm(a.clone(), integer(10)).to_string(), "log(a, 10)");
    assert_eq!(Expression::sin(a.clone()).to_string(), "sin(a)");
    assert_eq!(
        Expression::cos(Expression::addition(vec![a.clone(), b.clone()])).to_string(),
        "cos(a + b)"
    );
}

fn hash_of(e: &Expression) -> u64 {
    let mut state = std::collections::hash_map::DefaultHasher::new();
    e.hash(&mut state);
    state.finish()
}

#[test]
fn equal_expressions_hash_equal() {
    let a = variable("a");
    let b = Expression::power(variable("b"), integer(2));
    let c = real_literal(0.25);
    let one = Expression::addition(vec![a.clone(), b.clone(), c.clone()]);
    let other = Expression::addition(vec![c.clone(), a.clone(), b.clone()]);
    assert_eq!(one, other);
    assert_eq!(hash_of(&one), hash_of(&other));
    assert_eq!(hash_of(&one.clone()), hash_of(&one));
    let mut seen = std::collections::HashSet::new();
    seen.insert(one);
    assert!(seen.contains(&other));
    assert!(!seen.contains(&Expression::multiplication(vec![c, a, b])));
}

#[test]
fn comparison_operators_follow_the_canonical_order() {
    assert!(integer(1) < integer(2));
    assert!(integer(2) <= integer(2));
    assert!(variable("a") > integer(100));
    assert!(variable("b") >= variable("a"));
    assert!(!(variable("a") < variable("a")));
    assert_eq!(variable("a").partial_cmp(&variable("b")), Some(Ordering::Less));
    assert_eq!(
        Expression::addition(vec![variable("a")]).partial_cmp(&variable("a")),
        Some(Ordering::Greater)
    );
}

fn text(s: &str) -> Piece {
    Piece::Text(String::from(s))
}

fn in_decimal(e: &Expression) -> String {
    let mut out = String::new();
    for piece in e.pieces() {
        match piece {
            Piece::Text(s) => out.push_str(&s),
            Piece::Real(bits) => out.push_str(&format!("{}", f64::from_bits(bits))),
        }
    }
    out
}

fn in_hexadecimal(e: &Expression) -> String {
    let mut out = String::new();
    for piece in e.pieces() {
        match piece {
            Piece::Text(s) => out.push_str(&s),
            Piece::Real(bits) => out.push_str(&format!("0x{:016x}", bits)),
        }
    }
    out
}

#[test]
fn the_pieces_of_a_text_set_the_real_literals_apart() {
    let a = variable("a");
    assert_eq!(real_literal(2.5).pieces(), vec![Piece::Real(2.5f64.to_bits())]);
    assert_eq!(integer(-7).pieces(), vec![text("-7")]);
    assert_eq!(a.pieces(), vec![text("a")]);
    assert_eq!(Symbol::constant("pi", 3.14f64.to_bits()).expr().pieces(), vec![text("pi")]);
    assert_eq!(Expression::addition(vec![]).pieces(), vec![text("0")]);
    assert_eq!(Expression::multiplication(vec![]).pieces(), vec![text("1")]);
    assert_eq!(
        Expression::multiplication(vec![real_literal(0.5), a.clone()]).pieces(),
        vec![Piece::Real(0.5f64.to_bits()), text(" * "), text("a")]
    );
    assert_eq!(
        Power::new(Expression::addition(vec![a.clone(), real_literal(1.5)]), integer(-1)).pieces(),
        vec![
            text("("),
            Piece::Real(1.5f64.to_bits()),
            text(" + "),
            text("a"),
            text(")"),
            text("^"),
            text("("),
            text("-1"),
            text(")"),
        ]
    );
    assert_eq!(
        Expression::logarithm(real_literal(8.0), real_literal(2.0)).pieces(),
        vec![
            text("log("),
            Piece::Real(8.0f64.to_bits()),
            text(", "),
            Piece::Real(2.0f64.to_bits()),
            text(")"),
        ]
    );
}

#[test]
fn the_pieces_spell_the_text() {
    let a = variable("a");
    let b = variable("b");
    let samples = vec![
        real_literal(-0.25),
        Expression::multiplication(vec![real_literal(0.5), a.clone(), integer(-2)]),
        Subtraction::new(a.clone(), Subtraction::new(real_literal(1.5), b.clone())),
        Division::new(
            Expression::sin(real_literal(3.0)),
            Expression::multiplication(vec![a.clone(), b.clone()]),
        ),
        Expression::cos(Expression::logarithm(
            Power::new(a.clone(), real_literal(2.0)),
            real_literal(10.0),
        )),
        Expression::addition(vec![]),
    ];
    for e in samples {
        assert_eq!(in_hexadecimal(&e), e.to_string());
    }
    assert_eq!(in_decimal(&real_literal(1.0)), "1");
    assert_eq!(in_decimal(&real_literal(-0.25)), "-0.25");
    assert_eq!(
        in_decimal(&Expression::multiplication(vec![real_literal(0.5), a.clone()])),
        "0.5 * a"
    );
    assert_eq!(
        in_decimal(&Subtraction::new(a.clone(), Subtraction::new(real_literal(1.5), b.clone()))),
        "a - (1.5 - b)"
    );
    assert_eq!(
        in_decimal(&Expression::logarithm(a.clone(), real_literal(10.0))),
        "log(a, 10)"
    );
}

use algebra::expression::{Division, Expression, Power, Subtraction};
use algebra::symbol::Symbol;

/// A small deterministic generator of pseudo-random numbers.
struct Generator(u64);

impl Generator {
    fn next(&mut self) -> u64 {
        self.0 = self.0.wrapping_mul(6364136223846793005).wrapping_add(1442695040888963407);
        self.0 >> 33
    }

    fn below(&mut self, n: u64) -> u64 {
        self.next() % n
    }

    fn leaf(&mut self) -> Expression {
        match self.below(6) {
            0 => Symbol::variable("x").expr(),
            1 => Symbol::variable("y").expr(),
            2 => Symbol::integer(-1).expr(),
            3 => Symbol::integer(0).expr(),
            _ => Symbol::integer(self.below(9) as i64 - 4).expr(),
        }
    }

    fn expression(&mut self, depth: u32) -> Expression {
        if depth == 0 {
            return self.leaf();
        }
        match self.below(9) {
            0 | 1 => {
                let n = self.below(4) as usize;
                Expression::addition((0..n).map(|_| self.expression(depth - 1)).collect())
            }
            2 | 3 => {
                let n = self.below(4) as usize;
                Expression::multiplication((0..n).map(|_| self.expression(depth - 1)).collect())
            }
            4 => Subtraction::new(self.expression(depth - 1), self.expression(depth - 1)),
            5 => Division::new(self.expression(depth - 1), self.expression(depth - 1)),
            6 => Power::new(
                self.expression(depth - 1),
                Symbol::integer(self.below(5) as i64 - 1).expr(),
            ),
            7 => Expression::multiplication(vec![
                Symbol::integer(-1).expr(),
                self.expression(depth - 1),
            ]),
            _ => self.leaf(),
        }
    }
}

/// A fraction of two integers, in lowest terms.
#[derive(Clone, Copy, Debug, PartialEq)]
struct Ratio(i128, i128);

fn gcd(a: i128, b: i128) -> i128 {
    if b == 0 {
        a.abs()
    } else {
        gcd(b, a % b)
    }
}

fn ratio(n: i128, d: i128) -> Option<Ratio> {
    if d == 0 || n.abs() > 1 << 60 || d.abs() > 1 << 60 {
        return None;
    }
    let g = gcd(n, d);
    let s = if d < 0 { -1 } else { 1 };
    Some(Ratio(s * n / g, s * d / g))
}

/// The exact value of an expression with `x = 2` and `y = -3`, where it has one
/// and stays small.
fn exact(e: &Expression) -> Option<Ratio> {
    match e {
        Expression::Integer(v) => ratio(*v as i128, 1),
        Expression::Variable(label) => ratio(if label == "x" { 2 } else { -3 }, 1),
        Expression::Addition(c) => {
            let mut total = Ratio(0, 1);
            for item in c.items().iter() {
                let v = exact(item)?;
                total = ratio(total.0 * v.1 + v.0 * total.1, total.1 * v.1)?;
            }
            Some(total)
        }
        Expression::Multiplication(c) => {
            let mut total = Ratio(1, 1);
            for item in c.items().iter() {
                let v = exact(item)?;
                total = ratio(total.0 * v.0, total.1 * v.1)?;
            }
            Some(total)
        }
        Expression::Subtraction(s) => {
            let a = exact(s.left_hand_side())?;
            let b = exact(s.right_hand_side())?;
            ratio(a.0 * b.1 - b.0 * a.1, a.1 * b.1)
        }
        Expression::Division(d) => {
            let a = exact(d.left_hand_side())?;
            let b = exact(d.right_hand_side())?;
            ratio(a.0 * b.1, a.1 * b.0)
        }
        Expression::Power(p) => {
            let a = exact(p.argument())?;
            let k = exact(p.modifier())?;
            if k.1 != 1 || k.0 < -1 || k.0 > 8 {
                return None;
            }
            if k.0 == -1 {
                return ratio(a.1, a.0);
            }
            let mut total = Ratio(1, 1);
            for _ in 0..k.0 {
                total = ratio(total.0 * a.0, total.1 * a.1)?;
            }
            Some(total)
        }
        _ => None,
    }
}

#[test]
fn sampled_expressions_are_settled_after_one_simplification() {
    let mut generator = Generator(7);
    for _ in 0..3000 {
        let e = generator.expression(4);
        let once = e.simplify();
        assert_eq!(once.simplify(), once, "for {}", e.to_string());
    }
}

#[test]
fn sampled_expressions_keep_their_value_when_simplified() {
    let mut generator = Generator(11);
    let mut compared = 0;
    for _ in 0..3000 {
        let e = generator.expression(4);
        if let Some(v) = exact(&e) {
            assert_eq!(exact(&e.simplify()), Some(v), "for {}", e.to_string());
            compared += 1;
        }
    }
    assert!(compared > 500);
}

#[test]
fn sampled_expressions_keep_their_value_when_expanded() {
    let mut generator = Generator(13);
    let mut compared = 0;
    for _ in 0..1500 {
        let e = generator.expression(3);
        if let Some(v) = exact(&e) {
            assert_eq!(exact(&e.expanded()), Some(v), "for {}", e.to_string());
            compared += 1;
        }
    }
    assert!(compared > 300);
}

#[test]
fn sampled_expressions_minus_themselves_are_zero() {
    let mut generator = Generator(17);
    for _ in 0..1000 {
        let e = generator.expression(3);
        assert_eq!(
            Subtraction::new(e.clone(), e.clone()).simplify(),
            Symbol::integer(0).expr()
        );
        assert_eq!((&e - &e).simplify(), Symbol::integer(0).expr());
    }
}

#[test]
fn sampled_sums_differentiate_term_by_term() {
    let mut generator = Generator(19);
    for _ in 0..500 {
        let a = generator.expression(3);
        let b = generator.expression(3);
        let left = (&a + &b).differentiate("x");
        let right = a.differentiate("x") + b.differentiate("x");
        assert_eq!(left, right);
        assert_eq!(left.simplify(), right.simplify());
    }
}

#[test]
fn sampled_expressions_compare_as_a_total_order() {
    let mut generator = Generator(23);
    let samples: Vec<Expression> = (0..60).map(|_| generator.expression(2)).collect();
    for a in samples.iter() {
        assert_eq!(a.compare(a), std::cmp::Ordering::Equal);
        for b in samples.iter() {
            assert_eq!(a.compare(b), b.compare(a).reverse());
            assert_eq!(a.compare(b) == std::cmp::Ordering::Equal, a == b);
            for c in samples.iter() {
                if a.compare(b) != std::cmp::Ordering::Greater
                    && b.compare(c) != std::cmp::Ordering::Greater
                {
                    assert_ne!(a.compare(c), std::cmp::Ordering::Greater);
                }
            }
        }
    }
}

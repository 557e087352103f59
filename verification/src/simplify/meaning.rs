//! Simplification keeps the number of a term: whatever has a number has the same
//! number when it is simplified.
use crate::fraction::{fits, lemma_reduced_is_lowest, reduced_denominator, reduced_numerator};
use crate::meaning::{
    all_defined, faithful, natural_power, number, product_of_numbers, sum_of_numbers, value,
    Reading,
};
use crate::meaning::lemmas::{
    lemma_numbers_of_canonical, lemma_numbers_of_joined, lemma_numbers_of_push,
    lemma_numbers_of_remove, lemma_numbers_of_same_values, lemma_numbers_split,
    lemma_real_of_product,
};
use crate::simplify::lemmas::{lemma_cancel_keeps, lemma_inverses_only, lemma_partner, lemma_twin};
use crate::simplify::spec::{
    cancel, denominator_of, divisor, fraction_operands, integers, inverse_literals, inverses,
    is_negation, is_reciprocal, is_sign_pair, join, negate, negated, numerator_in, opposite, others,
    partner, plains, product, product_literals, product_operands, rational_part, reciprocal,
    reducible, simplify, simplify_each, simplify_product, simplify_sum, square, squared,
    sum_literals, sum_operands, total, twin, MINUS_ONE, REAL_MINUS_ONE,
};
use crate::term::{canonical, Term};
use vstd::prelude::*;

verus! {

/// The sum and the product of the numbers of a list of one operand.
pub proof fn lemma_numbers_of_one(x: Term, m: Reading)
    ensures
        sum_of_numbers(seq![x], m) == number(x, m),
        product_of_numbers(seq![x], m) == number(x, m),
        all_defined(seq![x], m) == value(x, m) is Some,
{
    let e = Seq::<Term>::empty();
    assert(seq![x] =~= e.push(x));
    lemma_numbers_of_push(e, x, m);
    assert(1real * number(x, m) == number(x, m));
}

/// The sum and the product of the numbers of a list of two operands.
pub proof fn lemma_numbers_of_two(x: Term, y: Term, m: Reading)
    ensures
        sum_of_numbers(seq![x, y], m) == number(x, m) + number(y, m),
        product_of_numbers(seq![x, y], m) == number(x, m) * number(y, m),
        all_defined(seq![x, y], m) == (value(x, m) is Some && value(y, m) is Some),
{
    assert(seq![x, y] =~= seq![x].push(y));
    lemma_numbers_of_one(x, m);
    lemma_numbers_of_push(seq![x], y, m);
}

/// The number of an integer literal.
pub proof fn lemma_number_of_integer(v: i64, m: Reading)
    ensures
        value(Term::Integer(v), m) == Some(v as real),
        number(Term::Integer(v), m) == v as real,
{
}

/// The number of a negation `-w` is minus the number of `w`.
pub proof fn lemma_number_of_negation(u: Term, m: Reading)
    requires
        is_negation(u),
        value(u, m) is Some,
    ensures
        value(negated(u), m) is Some,
        number(u, m) == -number(negated(u), m),
{
    let fs = u->Product_0;
    assert(fs =~= seq![fs[0], fs[1]]);
    lemma_numbers_of_two(fs[0], fs[1], m);
    lemma_number_of_integer(MINUS_ONE, m);
    assert((-1real) * number(fs[1], m) == -number(fs[1], m)) by (nonlinear_arith);
}

/// The numbers of two opposite terms add up to zero.
pub proof fn lemma_numbers_of_opposites(x: Term, y: Term, m: Reading)
    requires
        opposite(x, y),
        value(x, m) is Some,
        value(y, m) is Some,
    ensures
        number(x, m) + number(y, m) == 0real,
{
    if is_negation(y) && negated(y) == x {
        lemma_number_of_negation(y, m);
    } else {
        lemma_number_of_negation(x, m);
    }
}

/// Operands that come from a list of operands with numbers have numbers.
pub proof fn lemma_defined_from(r: Seq<Term>, s: Seq<Term>, m: Reading)
    requires
        all_defined(s, m),
        forall|i: int| 0 <= i < r.len() ==> s.contains(#[trigger] r[i]),
    ensures
        all_defined(r, m),
{
    assert forall|i: int| 0 <= i < r.len() implies value(#[trigger] r[i], m) is Some by {
        assert(s.contains(r[i]));
        let j = choose|j: int| 0 <= j < s.len() && s[j] == r[i];
        assert(value(s[j], m) is Some);
    }
}

/// Cancelling opposites does not change the sum of the numbers.
pub proof fn lemma_cancel_keeps_sum(s: Seq<Term>, m: Reading)
    requires
        all_defined(s, m),
    ensures
        all_defined(cancel(s), m),
        sum_of_numbers(cancel(s), m) == sum_of_numbers(s, m),
    decreases s.len(),
{
    lemma_cancel_keeps(s);
    lemma_defined_from(cancel(s), s, m);
    if s.len() > 0 {
        let init = s.drop_last();
        let x = s.last();
        assert(all_defined(init, m)) by {
            assert forall|i: int| 0 <= i < init.len() implies value(
                #[trigger] init[i],
                m,
            ) is Some by {
                assert(init[i] == s[i]);
            }
        }
        assert(value(x, m) is Some) by {
            assert(s[s.len() - 1] == x);
        }
        lemma_cancel_keeps_sum(init, m);
        let acc = cancel(init);
        let k = partner(acc, x);
        lemma_partner(acc, x);
        if k < acc.len() {
            lemma_numbers_of_remove(acc, k, m);
            assert(value(acc[k], m) is Some);
            lemma_numbers_of_opposites(acc[k], x, m);
        } else {
            lemma_numbers_of_push(acc, x, m);
        }
    }
}

/// The sum and the product of the numbers of a literal part joined to a rest.
pub proof fn lemma_numbers_of_join(lits: Seq<Term>, rest: Seq<Term>, neutral: i64, m: Reading)
    requires
        all_defined(lits, m),
        all_defined(rest, m),
    ensures
        all_defined(join(lits, rest, neutral), m),
        neutral == 0 ==> sum_of_numbers(join(lits, rest, neutral), m) == sum_of_numbers(lits, m)
            + sum_of_numbers(rest, m),
        neutral == 1 ==> product_of_numbers(join(lits, rest, neutral), m) == product_of_numbers(
            lits,
            m,
        ) * product_of_numbers(rest, m),
{
    lemma_numbers_of_joined(lits, rest, m);
    if lits == seq![Term::Integer(neutral)] && rest.len() > 0 {
        lemma_numbers_of_one(Term::Integer(neutral), m);
        lemma_number_of_integer(neutral, m);
        assert(1real * product_of_numbers(rest, m) == product_of_numbers(rest, m));
    }
}

/// The numbers of the literal part of a simplified sum add up to the sum of the
/// integer literals.
pub proof fn lemma_numbers_of_sum_literals(c: Seq<Term>, m: Reading)
    ensures
        all_defined(sum_literals(c), m),
        sum_of_numbers(sum_literals(c), m) == total(c) as real,
{
    lemma_numbers_split(c, m);
    if integers(c).len() > 0 && fits(total(c)) {
        lemma_numbers_of_one(Term::Integer(total(c) as i64), m);
        lemma_number_of_integer(total(c) as i64, m);
    }
}

/// The numbers of the literal part of a simplified product multiply to the
/// product of the integer literals.
pub proof fn lemma_numbers_of_product_literals(c: Seq<Term>, m: Reading)
    ensures
        all_defined(product_literals(c), m),
        product_of_numbers(product_literals(c), m) == product(c) as real,
{
    lemma_numbers_split(c, m);
    if integers(c).len() > 0 && fits(product(c)) {
        lemma_numbers_of_one(Term::Integer(product(c) as i64), m);
        lemma_number_of_integer(product(c) as i64, m);
    }
}

/// The operands of a simplified sum have the sum of numbers of the operands
/// given.
pub proof fn lemma_numbers_of_sum_operands(c: Seq<Term>, m: Reading)
    requires
        all_defined(c, m),
    ensures
        all_defined(sum_operands(c), m),
        sum_of_numbers(sum_operands(c), m) == sum_of_numbers(c, m),
{
    reveal(sum_operands);
    lemma_numbers_split(c, m);
    lemma_numbers_of_sum_literals(c, m);
    lemma_cancel_keeps_sum(others(c), m);
    lemma_numbers_of_join(sum_literals(c), cancel(others(c)), 0, m);
}

/// The simplified sum of operands with numbers has the sum of their numbers.
pub proof fn lemma_value_of_simplified_sum(c: Seq<Term>, m: Reading)
    requires
        all_defined(c, m),
    ensures
        value(simplify_sum(c), m) == Some(sum_of_numbers(c, m)),
{
    reveal(simplify_sum);
    let r = sum_operands(c);
    lemma_numbers_of_sum_operands(c, m);
    if r.len() == 1 {
        assert(r =~= seq![r[0]]);
        lemma_numbers_of_one(r[0], m);
        assert(value(r[0], m) is Some);
    }
}

/// The number of `1 / d`.
pub proof fn lemma_value_of_reciprocal(d: i64, m: Reading)
    requires
        faithful(m),
        d != 0,
    ensures
        value(reciprocal(d), m) == Some(1real / (d as real)),
        number(reciprocal(d), m) == 1real / (d as real),
{
    lemma_number_of_integer(d, m);
    lemma_number_of_integer(MINUS_ONE, m);
    assert((MINUS_ONE as real) == -1real);
    assert((d as real) != 0real);
}

/// The number of the square of a term with a number.
pub proof fn lemma_value_of_square(w: Term, m: Reading)
    requires
        faithful(m),
        value(w, m) is Some,
    ensures
        value(square(w), m) == Some(number(w, m) * number(w, m)),
{
    let x = number(w, m);
    lemma_number_of_integer(2, m);
    assert(natural_power(x, 2) == x * x) by {
        assert(natural_power(x, 0) == 1real);
        assert(natural_power(x, 1) == natural_power(x, 0) * x);
        assert(natural_power(x, 2) == natural_power(x, 1) * x);
        assert((1real * x) * x == x * x) by (nonlinear_arith);
    }
    assert((m.power)(x, 2real) == Some(natural_power(x, 2)));
}

/// The numbers of a list split three ways: into those of the integer literals,
/// of the reciprocals and of the other operands.
pub proof fn lemma_numbers_split_three(s: Seq<Term>, m: Reading)
    requires
        faithful(m),
    ensures
        product_of_numbers(s, m) == product_of_numbers(integers(s), m) * product_of_numbers(
            inverses(s),
            m,
        ) * product_of_numbers(plains(s), m),
        product_of_numbers(integers(s), m) == product(s) as real,
        product_of_numbers(inverses(s), m) == 1real / (divisor(s) as real),
        divisor(s) != 0,
        all_defined(integers(s), m),
        all_defined(inverses(s), m),
        all_defined(s, m) ==> all_defined(plains(s), m),
    decreases s.len(),
{
    lemma_inverses_only(s);
    if s.len() == 0 {
        assert(1real * 1real * 1real == 1real);
        assert(1real / 1real == 1real);
    } else {
        let init = s.drop_last();
        let x = s.last();
        lemma_numbers_split_three(init, m);
        lemma_inverses_only(init);
        let pi = product_of_numbers(integers(init), m);
        let pr = product_of_numbers(inverses(init), m);
        let pp = product_of_numbers(plains(init), m);
        let nx = number(x, m);
        let d0 = divisor(init) as real;
        if x is Integer {
            assert(integers(s) == integers(init).push(x));
            assert(inverses(s) == inverses(init));
            assert(plains(s) == plains(init));
            lemma_numbers_of_push(integers(init), x, m);
            assert((pi * pr * pp) * nx == (pi * nx) * pr * pp) by (nonlinear_arith);
            lemma_real_of_product(product(init), x->Integer_0 as int);
            assert(divisor(init) * 1 == divisor(init));
        } else if is_reciprocal(x) {
            let d = denominator_of(x);
            assert(x == reciprocal(d));
            lemma_value_of_reciprocal(d, m);
            assert(integers(s) == integers(init));
            assert(inverses(s) == inverses(init).push(x));
            assert(plains(s) == plains(init));
            lemma_numbers_of_push(inverses(init), x, m);
            assert((pi * pr * pp) * nx == pi * (pr * nx) * pp) by (nonlinear_arith);
            assert(product(init) * 1 == product(init));
            lemma_real_of_product(divisor(init), d as int);
            let d1 = d as real;
            assert((1real / d0) * (1real / d1) == 1real / (d0 * d1)) by (nonlinear_arith)
                requires
                    d0 != 0real,
                    d1 != 0real,
            ;
        } else {
            assert(integers(s) == integers(init));
            assert(inverses(s) == inverses(init));
            assert(plains(s) == plains(init).push(x));
            lemma_numbers_of_push(plains(init), x, m);
            assert((pi * pr * pp) * nx == pi * pr * (pp * nx)) by (nonlinear_arith);
            assert(product(init) * 1 == product(init));
            assert(divisor(init) * 1 == divisor(init));
        }
        if all_defined(s, m) {
            assert forall|i: int| 0 <= i < init.len() implies value(
                #[trigger] init[i],
                m,
            ) is Some by {
                assert(init[i] == s[i]);
            }
            assert(value(s[s.len() - 1], m) is Some);
        }
    }
}

/// The numbers of the denominator part of a simplified product multiply to the
/// inverse of the product of the denominators.
pub proof fn lemma_numbers_of_inverse_literals(c: Seq<Term>, m: Reading)
    requires
        faithful(m),
    ensures
        all_defined(inverse_literals(c), m),
        product_of_numbers(inverse_literals(c), m) == 1real / (divisor(c) as real),
{
    lemma_numbers_split_three(c, m);
    if inverses(c).len() > 0 && fits(divisor(c)) {
        let d = divisor(c) as i64;
        lemma_numbers_of_one(reciprocal(d), m);
        lemma_value_of_reciprocal(d, m);
    }
}

/// The numbers of the operands of a fraction multiply to the quotient.
pub proof fn lemma_numbers_of_fraction(p: i64, q: i64, m: Reading)
    requires
        faithful(m),
        q != 0,
    ensures
        all_defined(fraction_operands(p, q), m),
        product_of_numbers(fraction_operands(p, q), m) == (p as real) / (q as real),
{
    let x = p as real;
    let y = q as real;
    lemma_value_of_reciprocal(q, m);
    lemma_number_of_integer(p, m);
    if q == 1 {
        lemma_numbers_of_one(Term::Integer(p), m);
        assert(x / 1real == x);
    } else if p == 1 {
        lemma_numbers_of_one(reciprocal(q), m);
    } else {
        lemma_numbers_of_two(Term::Integer(p), reciprocal(q), m);
        assert(x * (1real / y) == x / y) by (nonlinear_arith)
            requires
                y != 0real,
        ;
    }
}

/// A fraction and its lowest terms are the same number.
pub proof fn lemma_reduced_is_same_number(n: int, d: int)
    requires
        d != 0,
    ensures
        (n as real) / (d as real) == (reduced_numerator(n, d) as real) / (reduced_denominator(
            n,
            d,
        ) as real),
        reduced_denominator(n, d) != 0,
{
    lemma_reduced_is_lowest(n, d);
    let p = reduced_numerator(n, d);
    let q = reduced_denominator(n, d);
    lemma_real_of_product(n, q);
    lemma_real_of_product(p, d);
    let x = n as real;
    let y = d as real;
    let u = p as real;
    let v = q as real;
    assert(x / y == u / v) by (nonlinear_arith)
        requires
            x * v == u * y,
            y != 0real,
            v != 0real,
    ;
}

/// The numbers of the rational part of a simplified product multiply to the
/// product of the integer literals over the product of the denominators.
pub proof fn lemma_numbers_of_rational_part(c: Seq<Term>, m: Reading)
    requires
        faithful(m),
    ensures
        all_defined(rational_part(c), m),
        product_of_numbers(rational_part(c), m) == (product(c) as real) / (divisor(c) as real),
        divisor(c) != 0,
{
    let n = product_literals(c);
    let d = inverse_literals(c);
    lemma_numbers_split_three(c, m);
    lemma_numbers_of_product_literals(c, m);
    lemma_numbers_of_inverse_literals(c, m);
    let x = product(c) as real;
    let y = divisor(c) as real;
    assert(x * (1real / y) == x / y) by (nonlinear_arith)
        requires
            y != 0real,
    ;
    if reducible(n, d) {
        let a = numerator_in(n);
        let b = denominator_of(d[0]) as int;
        assert(d =~= seq![d[0]]);
        assert(d[0] == reciprocal(denominator_of(d[0])));
        lemma_numbers_of_one(d[0], m);
        lemma_value_of_reciprocal(denominator_of(d[0]), m);
        let z = b as real;
        assert(1real / z == 1real / y);
        assert(z == y) by (nonlinear_arith)
            requires
                1real / z == 1real / y,
                z != 0real,
                y != 0real,
        ;
        if n.len() == 1 {
            assert(n =~= seq![n[0]]);
            lemma_numbers_of_one(n[0], m);
            lemma_number_of_integer(n[0]->Integer_0, m);
        } else {
            assert(n =~= Seq::<Term>::empty());
        }
        assert((a as real) == x);
        lemma_reduced_is_same_number(a, b);
        lemma_numbers_of_fraction(
            reduced_numerator(a, b) as i64,
            reduced_denominator(a, b) as i64,
            m,
        );
    } else {
        lemma_numbers_of_joined(n, d, m);
    }
}

/// Squaring equal negations does not change the product of the numbers.
pub proof fn lemma_squared_keeps_product(s: Seq<Term>, m: Reading)
    requires
        faithful(m),
        all_defined(s, m),
    ensures
        all_defined(squared(s), m),
        product_of_numbers(squared(s), m) == product_of_numbers(s, m),
    decreases s.len(),
{
    if s.len() > 0 {
        let init = s.drop_last();
        let x = s.last();
        assert(all_defined(init, m)) by {
            assert forall|i: int| 0 <= i < init.len() implies value(
                #[trigger] init[i],
                m,
            ) is Some by {
                assert(init[i] == s[i]);
            }
        }
        assert(value(x, m) is Some) by {
            assert(s[s.len() - 1] == x);
        }
        lemma_squared_keeps_product(init, m);
        let acc = squared(init);
        let k = twin(acc, x);
        lemma_twin(acc, x);
        if is_negation(x) && k < acc.len() {
            let w = negated(x);
            let cut = acc.remove(k);
            lemma_numbers_of_remove(acc, k, m);
            lemma_number_of_negation(x, m);
            lemma_value_of_square(w, m);
            lemma_numbers_of_push(cut, square(w), m);
            let pc = product_of_numbers(cut, m);
            let nw = number(w, m);
            assert((pc * (-nw)) * (-nw) == pc * (nw * nw)) by (nonlinear_arith);
        } else {
            lemma_numbers_of_push(acc, x, m);
        }
    }
}

/// The operands of a simplified product have the product of numbers of the
/// operands given.
pub proof fn lemma_numbers_of_product_operands(c: Seq<Term>, m: Reading)
    requires
        faithful(m),
        all_defined(c, m),
    ensures
        all_defined(product_operands(c), m),
        product_of_numbers(product_operands(c), m) == product_of_numbers(c, m),
{
    reveal(product_operands);
    let r = rational_part(c);
    let s = squared(plains(c));
    lemma_numbers_split_three(c, m);
    lemma_numbers_of_rational_part(c, m);
    lemma_squared_keeps_product(plains(c), m);
    lemma_numbers_of_join(r, s, 1, m);
    lemma_numbers_of_canonical(join(r, s, 1), m);
    let x = product(c) as real;
    let y = divisor(c) as real;
    let z = product_of_numbers(plains(c), m);
    assert(x * (1real / y) * z == (x / y) * z) by (nonlinear_arith)
        requires
            y != 0real,
    ;
}

/// The simplified product of operands with numbers has the product of their
/// numbers.
pub proof fn lemma_value_of_simplified_product(c: Seq<Term>, m: Reading)
    requires
        faithful(m),
        all_defined(c, m),
    ensures
        value(simplify_product(c), m) == Some(product_of_numbers(c, m)),
{
    reveal(simplify_product);
    let r = product_operands(c);
    lemma_numbers_of_product_operands(c, m);
    if r.len() == 0 {
    } else if r.len() == 1 {
        assert(r =~= seq![r[0]]);
        lemma_numbers_of_one(r[0], m);
        assert(value(r[0], m) is Some);
    } else if is_sign_pair(r) {
        let u = Term::Real(REAL_MINUS_ONE);
        assert(r =~= seq![u, u]);
        lemma_numbers_of_two(u, u, m);
        assert((-1real) * (-1real) == 1real) by (nonlinear_arith);
    } else {
    }
}

/// The simplified negation of a term with a number has minus that number.
pub proof fn lemma_value_of_negate(t: Term, m: Reading)
    requires
        faithful(m),
        value(t, m) is Some,
    ensures
        value(negate(t), m) == Some(-number(t, m)),
{
    let ops = seq![Term::Integer(MINUS_ONE), t];
    lemma_numbers_of_two(Term::Integer(MINUS_ONE), t, m);
    lemma_number_of_integer(MINUS_ONE, m);
    lemma_numbers_of_canonical(ops, m);
    lemma_value_of_simplified_product(canonical(ops), m);
    assert((-1real) * number(t, m) == -number(t, m)) by (nonlinear_arith);
}

/// Simplification keeps the number of a term: a term that has a number has the
/// same number when it is simplified.
pub proof fn lemma_simplify_keeps_value(t: Term, m: Reading)
    requires
        faithful(m),
        value(t, m) is Some,
    ensures
        value(simplify(t), m) == value(t, m),
    decreases t,
{
    match t {
        Term::Power(a, b) => {
            lemma_simplify_keeps_value(*a, m);
            lemma_simplify_keeps_value(*b, m);
        },
        Term::Logarithm(a, b) => {
            lemma_simplify_keeps_value(*a, m);
            lemma_simplify_keeps_value(*b, m);
        },
        Term::Sine(a) => {
            lemma_simplify_keeps_value(*a, m);
        },
        Term::Cosine(a) => {
            lemma_simplify_keeps_value(*a, m);
        },
        Term::Product(ops) => {
            let e = simplify_each(ops);
            assert(all_defined(ops, m));
            assert forall|i: int| 0 <= i < ops.len() implies value(#[trigger] ops[i], m) == value(
                e[i],
                m,
            ) by {
                assert(value(ops[i], m) is Some);
                lemma_simplify_keeps_value(ops[i], m);
            }
            lemma_numbers_of_same_values(ops, e, m);
            lemma_numbers_of_canonical(e, m);
            lemma_value_of_simplified_product(canonical(e), m);
        },
        Term::Sum(ops) => {
            let e = simplify_each(ops);
            assert(all_defined(ops, m));
            assert forall|i: int| 0 <= i < ops.len() implies value(#[trigger] ops[i], m) == value(
                e[i],
                m,
            ) by {
                assert(value(ops[i], m) is Some);
                lemma_simplify_keeps_value(ops[i], m);
            }
            lemma_numbers_of_same_values(ops, e, m);
            lemma_numbers_of_canonical(e, m);
            lemma_value_of_simplified_sum(canonical(e), m);
        },
        Term::Quotient(a, b) => {
            lemma_simplify_keeps_value(*a, m);
            lemma_simplify_keeps_value(*b, m);
            let x = number(*a, m);
            let y = number(*b, m);
            let inverse = Term::Power(Box::new(simplify(*b)), Box::new(Term::Integer(MINUS_ONE)));
            lemma_number_of_integer(MINUS_ONE, m);
            assert((MINUS_ONE as real) == -1real);
            assert(value(inverse, m) == Some(1real / y));
            let ops = seq![simplify(*a), inverse];
            lemma_numbers_of_two(simplify(*a), inverse, m);
            lemma_numbers_of_canonical(ops, m);
            lemma_value_of_simplified_product(canonical(ops), m);
            assert(x * (1real / y) == x / y) by (nonlinear_arith)
                requires
                    y != 0real,
            ;
        },
        Term::Difference(a, b) => {
            lemma_simplify_keeps_value(*a, m);
            lemma_simplify_keeps_value(*b, m);
            let x = number(*a, m);
            let y = number(*b, m);
            if simplify(*a) != simplify(*b) {
                lemma_value_of_negate(simplify(*b), m);
                let ops = seq![simplify(*a), negate(simplify(*b))];
                lemma_numbers_of_two(simplify(*a), negate(simplify(*b)), m);
                lemma_numbers_of_canonical(ops, m);
                lemma_value_of_simplified_sum(canonical(ops), m);
            }
        },
        _ => {},
    }
}

} // verus!

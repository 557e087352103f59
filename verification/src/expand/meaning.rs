//! Expansion keeps the number of a term: whatever has a number has the same
//! number when it is expanded.
use crate::differentiate::spec::{is_literal, product_of, sum_of};
use crate::expand::spec::{
    distribute, expand, expand_each, expand_power, first_sum, lemma_first_sum,
    lemma_replacing_lightens, power_expansion, spread, weights,
};
use crate::meaning::{
    all_defined, faithful, natural_power, number, product_of_numbers, sum_of_numbers, value,
    Reading,
};
use crate::meaning::lemmas::{
    lemma_numbers_of_canonical, lemma_numbers_of_remove, lemma_numbers_of_same_values,
};
use crate::simplify::meaning::{lemma_number_of_integer, lemma_numbers_of_two};
use crate::simplify::spec::MINUS_ONE;
use crate::term::{canonical, Term};
use vstd::prelude::*;

verus! {

/// The numbers of a list in which every operand is `p` times the operand of
/// another list add up to `p` times the sum of the numbers of that list.
pub proof fn lemma_sum_of_multiples(r: Seq<Term>, a: Seq<Term>, p: real, m: Reading)
    requires
        r.len() == a.len(),
        forall|j: int| 0 <= j < r.len() ==> number(#[trigger] r[j], m) == p * number(a[j], m),
    ensures
        sum_of_numbers(r, m) == p * sum_of_numbers(a, m),
    decreases r.len(),
{
    if r.len() == 0 {
        assert(p * 0real == 0real) by (nonlinear_arith);
    } else {
        assert forall|j: int| 0 <= j < r.drop_last().len() implies number(
            #[trigger] r.drop_last()[j],
            m,
        ) == p * number(a.drop_last()[j], m) by {
            assert(r.drop_last()[j] == r[j]);
            assert(a.drop_last()[j] == a[j]);
        }
        lemma_sum_of_multiples(r.drop_last(), a.drop_last(), p, m);
        assert(number(r[r.len() - 1], m) == p * number(a[r.len() - 1], m));
        let s = sum_of_numbers(a.drop_last(), m);
        let x = number(a.last(), m);
        assert(p * s + p * x == p * (s + x)) by (nonlinear_arith);
    }
}

/// The numbers of a list of which one operand is replaced.
pub proof fn lemma_numbers_of_update(s: Seq<Term>, k: int, x: Term, m: Reading)
    requires
        0 <= k < s.len(),
    ensures
        product_of_numbers(s.update(k, x), m) == product_of_numbers(s.remove(k), m) * number(
            x,
            m,
        ),
        all_defined(s.update(k, x), m) == (all_defined(s.remove(k), m) && value(x, m) is Some),
{
    lemma_numbers_of_remove(s.update(k, x), k, m);
    assert(s.update(k, x).remove(k) =~= s.remove(k));
}

/// A product multiplied out has the product of the numbers of its factors.
pub proof fn lemma_value_of_distribute(factors: Seq<Term>, m: Reading)
    requires
        all_defined(factors, m),
    ensures
        value(distribute(factors), m) == Some(product_of_numbers(factors, m)),
    decreases weights(factors),
{
    let k = first_sum(factors);
    lemma_first_sum(factors);
    if 0 <= k < factors.len() && factors[k] is Sum {
        let addends = factors[k]->Sum_0;
        let r = spread(factors, k);
        let p = product_of_numbers(factors.remove(k), m);
        lemma_numbers_of_remove(factors, k, m);
        assert(value(factors[k], m) is Some);
        assert(all_defined(addends, m));
        assert(number(factors[k], m) == sum_of_numbers(addends, m));
        assert forall|j: int| 0 <= j < r.len() implies value(#[trigger] r[j], m) == Some(
            p * number(addends[j], m),
        ) by {
            lemma_replacing_lightens(factors, k, j);
            lemma_numbers_of_update(factors, k, addends[j], m);
            assert(value(addends[j], m) is Some);
            lemma_value_of_distribute(factors.update(k, addends[j]), m);
        }
        assert(all_defined(r, m));
        assert forall|j: int| 0 <= j < r.len() implies number(#[trigger] r[j], m) == p * number(
            addends[j],
            m,
        ) by {
            assert(value(r[j], m) == Some(p * number(addends[j], m)));
        }
        lemma_sum_of_multiples(r, addends, p, m);
        lemma_numbers_of_canonical(r, m);
    } else {
        lemma_numbers_of_canonical(factors, m);
    }
}

/// The product of two terms with numbers, multiplied out, has the product of
/// their numbers.
pub proof fn lemma_value_of_distributed_pair(x: Term, y: Term, m: Reading)
    requires
        value(x, m) is Some,
        value(y, m) is Some,
    ensures
        value(distribute(canonical(seq![x, y])), m) == Some(number(x, m) * number(y, m)),
{
    lemma_numbers_of_two(x, y, m);
    lemma_numbers_of_canonical(seq![x, y], m);
    lemma_value_of_distribute(canonical(seq![x, y]), m);
}

/// A term multiplied by itself `k` times and multiplied out has the `k`-th power
/// of its number.
pub proof fn lemma_value_of_power_expansion(x: Term, k: nat, m: Reading)
    requires
        value(x, m) is Some,
    ensures
        value(power_expansion(x, k), m) == Some(natural_power(number(x, m), k)),
    decreases k,
{
    let v = number(x, m);
    if k == 0 {
    } else if k == 1 {
        assert(natural_power(v, 0) == 1real);
        assert(1real * v == v);
    } else {
        lemma_value_of_power_expansion(x, (k - 1) as nat, m);
        lemma_value_of_distributed_pair(power_expansion(x, (k - 1) as nat), x, m);
    }
}

/// The expansion of a power has the number of the power.
pub proof fn lemma_value_of_expanded_power(x: Term, y: Term, m: Reading)
    requires
        faithful(m),
        value(Term::Power(Box::new(x), Box::new(y)), m) is Some,
    ensures
        value(expand_power(x, y), m) == value(Term::Power(Box::new(x), Box::new(y)), m),
{
    if x is Sum && y is Integer && y->Integer_0 >= 0 {
        let k = y->Integer_0 as nat;
        let v = number(x, m);
        lemma_value_of_power_expansion(x, k, m);
        lemma_number_of_integer(y->Integer_0, m);
        assert((y->Integer_0 as real) == (k as real));
        assert((m.power)(v, k as real) == Some(natural_power(v, k)));
    }
}

/// Expansion keeps the number of a term: a term that has a number has the same
/// number when it is expanded.
pub proof fn lemma_expand_keeps_value(t: Term, m: Reading)
    requires
        faithful(m),
        value(t, m) is Some,
    ensures
        value(expand(t), m) == value(t, m),
    decreases t,
{
    match t {
        Term::Power(a, b) => {
            lemma_expand_keeps_value(*a, m);
            lemma_expand_keeps_value(*b, m);
            lemma_value_of_expanded_power(expand(*a), expand(*b), m);
        },
        Term::Logarithm(a, b) => {
            lemma_expand_keeps_value(*a, m);
            lemma_expand_keeps_value(*b, m);
        },
        Term::Sine(a) => {
            lemma_expand_keeps_value(*a, m);
        },
        Term::Cosine(a) => {
            lemma_expand_keeps_value(*a, m);
        },
        Term::Product(ops) => {
            let e = expand_each(ops);
            assert(all_defined(ops, m));
            assert forall|i: int| 0 <= i < ops.len() implies value(#[trigger] ops[i], m) == value(
                e[i],
                m,
            ) by {
                assert(value(ops[i], m) is Some);
                lemma_expand_keeps_value(ops[i], m);
            }
            lemma_numbers_of_same_values(ops, e, m);
            lemma_numbers_of_canonical(e, m);
            lemma_value_of_distribute(canonical(e), m);
        },
        Term::Sum(ops) => {
            let e = expand_each(ops);
            assert(all_defined(ops, m));
            assert forall|i: int| 0 <= i < ops.len() implies value(#[trigger] ops[i], m) == value(
                e[i],
                m,
            ) by {
                assert(value(ops[i], m) is Some);
                lemma_expand_keeps_value(ops[i], m);
            }
            lemma_numbers_of_same_values(ops, e, m);
            lemma_numbers_of_canonical(e, m);
        },
        Term::Quotient(a, b) => {
            lemma_expand_keeps_value(*a, m);
            lemma_expand_keeps_value(*b, m);
            let x = number(*a, m);
            let y = number(*b, m);
            let inverse = Term::Power(Box::new(expand(*b)), Box::new(Term::Integer(MINUS_ONE)));
            lemma_number_of_integer(MINUS_ONE, m);
            assert((MINUS_ONE as real) == -1real);
            assert(value(inverse, m) == Some(1real / y));
            lemma_value_of_distributed_pair(expand(*a), inverse, m);
            assert(x * (1real / y) == x / y) by (nonlinear_arith)
                requires
                    y != 0real,
            ;
        },
        Term::Difference(a, b) => {
            lemma_expand_keeps_value(*a, m);
            lemma_expand_keeps_value(*b, m);
            let x = number(*a, m);
            let y = number(*b, m);
            let minus = Term::Integer(MINUS_ONE);
            lemma_number_of_integer(MINUS_ONE, m);
            lemma_value_of_distributed_pair(minus, expand(*b), m);
            let negated = distribute(canonical(seq![minus, expand(*b)]));
            assert((-1real) * y == -y) by (nonlinear_arith);
            lemma_numbers_of_two(expand(*a), negated, m);
            lemma_numbers_of_canonical(seq![expand(*a), negated], m);
        },
        _ => {},
    }
}

/// The product of a sum of two literals and a literal has the same number
/// expanded as it has unexpanded.
pub proof fn lemma_expanding_literals_keeps_value(a: Term, b: Term, c: Term, m: Reading)
    requires
        faithful(m),
        is_literal(a),
        is_literal(b),
        is_literal(c),
    ensures
        value(expand(product_of(seq![sum_of(seq![a, b]), c])), m) == value(
            product_of(seq![sum_of(seq![a, b]), c]),
            m,
        ),
        value(product_of(seq![sum_of(seq![a, b]), c]), m) == Some(
            (number(a, m) + number(b, m)) * number(c, m),
        ),
{
    let s = sum_of(seq![a, b]);
    let t = product_of(seq![s, c]);
    lemma_numbers_of_two(a, b, m);
    lemma_numbers_of_canonical(seq![a, b], m);
    assert(value(s, m) == Some(number(a, m) + number(b, m)));
    lemma_numbers_of_two(s, c, m);
    lemma_numbers_of_canonical(seq![s, c], m);
    lemma_expand_keeps_value(t, m);
}

} // verus!

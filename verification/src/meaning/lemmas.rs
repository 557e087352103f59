//! Sums and products of the numbers of operand lists: they do not depend on the
//! order of the operands, and they split into the part of the integer literals
//! and the rest.
use crate::meaning::{all_defined, number, product_of_numbers, sum_of_numbers, value, Reading};
use crate::simplify::spec::{integers, others, product, total};
use crate::term::{canonical, lemma_canonical_permutes, Term};
use vstd::prelude::*;
use vstd::seq_lib::*;

verus! {

/// The product of two integers as a real number.
pub proof fn lemma_real_of_product(a: int, b: int)
    ensures
        (a * b) as real == (a as real) * (b as real),
{
    assert((a * b) as real == (a as real) * (b as real)) by (nonlinear_arith);
}

/// The sum and the product of the numbers of a list with one more operand.
pub proof fn lemma_numbers_of_push(s: Seq<Term>, x: Term, m: Reading)
    ensures
        sum_of_numbers(s.push(x), m) == sum_of_numbers(s, m) + number(x, m),
        product_of_numbers(s.push(x), m) == product_of_numbers(s, m) * number(x, m),
        all_defined(s.push(x), m) == (all_defined(s, m) && value(x, m) is Some),
{
    assert(s.push(x).drop_last() =~= s);
    assert(s.push(x).last() == x);
    if all_defined(s.push(x), m) {
        assert forall|i: int| 0 <= i < s.len() implies value(#[trigger] s[i], m) is Some by {
            assert(s.push(x)[i] == s[i]);
        }
        assert(s.push(x)[s.len() as int] == x);
    }
    if all_defined(s, m) && value(x, m) is Some {
        assert forall|i: int| 0 <= i < s.push(x).len() implies value(
            #[trigger] s.push(x)[i],
            m,
        ) is Some by {
            if i < s.len() {
                assert(s.push(x)[i] == s[i]);
            }
        }
    }
}

/// The sum and the product of the numbers of two lists joined.
pub proof fn lemma_numbers_of_joined(a: Seq<Term>, b: Seq<Term>, m: Reading)
    ensures
        sum_of_numbers(a + b, m) == sum_of_numbers(a, m) + sum_of_numbers(b, m),
        product_of_numbers(a + b, m) == product_of_numbers(a, m) * product_of_numbers(b, m),
        all_defined(a + b, m) == (all_defined(a, m) && all_defined(b, m)),
    decreases b.len(),
{
    if b.len() == 0 {
        assert(a + b =~= a);
        assert(product_of_numbers(a, m) * 1real == product_of_numbers(a, m));
    } else {
        let init = b.drop_last();
        let x = b.last();
        assert(a + b =~= (a + init).push(x));
        assert(b =~= init.push(x));
        lemma_numbers_of_joined(a, init, m);
        lemma_numbers_of_push(a + init, x, m);
        lemma_numbers_of_push(init, x, m);
        let pa = product_of_numbers(a, m);
        let pi = product_of_numbers(init, m);
        let nx = number(x, m);
        assert((pa * pi) * nx == pa * (pi * nx)) by (nonlinear_arith);
    }
}

/// The sum and the product of the numbers of a list, with one operand set apart.
pub proof fn lemma_numbers_of_remove(s: Seq<Term>, k: int, m: Reading)
    requires
        0 <= k < s.len(),
    ensures
        sum_of_numbers(s, m) == sum_of_numbers(s.remove(k), m) + number(s[k], m),
        product_of_numbers(s, m) == product_of_numbers(s.remove(k), m) * number(s[k], m),
        all_defined(s, m) == (all_defined(s.remove(k), m) && value(s[k], m) is Some),
{
    let a = s.take(k);
    let b = s.skip(k + 1);
    let x = s[k];
    assert(s =~= a.push(x) + b);
    assert(s.remove(k) =~= a + b);
    lemma_numbers_of_joined(a.push(x), b, m);
    lemma_numbers_of_joined(a, b, m);
    lemma_numbers_of_push(a, x, m);
    let pa = product_of_numbers(a, m);
    let pb = product_of_numbers(b, m);
    let nx = number(x, m);
    assert((pa * nx) * pb == (pa * pb) * nx) by (nonlinear_arith);
}

/// Lists that are permutations of each other have the same sum and the same
/// product of numbers, and the operands of one all have a number when those of
/// the other have.
pub proof fn lemma_numbers_of_permutation(a: Seq<Term>, b: Seq<Term>, m: Reading)
    requires
        a.to_multiset() == b.to_multiset(),
    ensures
        sum_of_numbers(a, m) == sum_of_numbers(b, m),
        product_of_numbers(a, m) == product_of_numbers(b, m),
        all_defined(a, m) == all_defined(b, m),
    decreases a.len(),
{
    a.to_multiset_ensures();
    b.to_multiset_ensures();
    if a.len() == 0 {
        assert(b.len() == 0);
    } else {
        let x = a.last();
        assert(a.contains(x)) by {
            assert(a[a.len() - 1] == x);
        }
        assert(b.to_multiset().count(x) > 0);
        assert(b.contains(x));
        let k = choose|k: int| 0 <= k < b.len() && b[k] == x;
        let a1 = a.drop_last();
        let b1 = b.remove(k);
        assert(a1 =~= a.remove(a.len() - 1));
        assert(a1.to_multiset() =~= b1.to_multiset());
        lemma_numbers_of_permutation(a1, b1, m);
        lemma_numbers_of_remove(b, k, m);
        lemma_numbers_of_remove(a, a.len() - 1, m);
    }
}

/// Putting the operands in canonical order changes neither the sum nor the
/// product of their numbers.
pub proof fn lemma_numbers_of_canonical(ops: Seq<Term>, m: Reading)
    ensures
        sum_of_numbers(canonical(ops), m) == sum_of_numbers(ops, m),
        product_of_numbers(canonical(ops), m) == product_of_numbers(ops, m),
        all_defined(canonical(ops), m) == all_defined(ops, m),
{
    lemma_canonical_permutes(ops);
    lemma_numbers_of_permutation(canonical(ops), ops, m);
}

/// Lists whose operands have the same values, one by one, have the same sum and
/// the same product of numbers.
pub proof fn lemma_numbers_of_same_values(a: Seq<Term>, b: Seq<Term>, m: Reading)
    requires
        a.len() == b.len(),
        forall|i: int| 0 <= i < a.len() ==> value(#[trigger] a[i], m) == value(b[i], m),
    ensures
        sum_of_numbers(a, m) == sum_of_numbers(b, m),
        product_of_numbers(a, m) == product_of_numbers(b, m),
        all_defined(a, m) == all_defined(b, m),
    decreases a.len(),
{
    if a.len() > 0 {
        assert forall|i: int| 0 <= i < a.drop_last().len() implies value(
            #[trigger] a.drop_last()[i],
            m,
        ) == value(b.drop_last()[i], m) by {
            assert(a.drop_last()[i] == a[i]);
            assert(b.drop_last()[i] == b[i]);
        }
        lemma_numbers_of_same_values(a.drop_last(), b.drop_last(), m);
        assert(value(a[a.len() - 1], m) == value(b[a.len() - 1], m));
        assert(number(a.last(), m) == number(b.last(), m));
    }
    if all_defined(a, m) {
        assert forall|i: int| 0 <= i < b.len() implies value(#[trigger] b[i], m) is Some by {
            assert(value(a[i], m) is Some);
        }
    }
    if all_defined(b, m) {
        assert forall|i: int| 0 <= i < a.len() implies value(#[trigger] a[i], m) is Some by {
            assert(value(b[i], m) is Some);
        }
    }
}

/// The numbers of a list split into those of the integer literals and those of
/// the other operands.
pub proof fn lemma_numbers_split(s: Seq<Term>, m: Reading)
    ensures
        sum_of_numbers(s, m) == sum_of_numbers(integers(s), m) + sum_of_numbers(others(s), m),
        product_of_numbers(s, m) == product_of_numbers(integers(s), m) * product_of_numbers(
            others(s),
            m,
        ),
        sum_of_numbers(integers(s), m) == total(s) as real,
        product_of_numbers(integers(s), m) == product(s) as real,
        all_defined(integers(s), m),
        all_defined(s, m) ==> all_defined(others(s), m),
    decreases s.len(),
{
    if s.len() > 0 {
        let init = s.drop_last();
        let x = s.last();
        lemma_numbers_split(init, m);
        let pi = product_of_numbers(integers(init), m);
        let po = product_of_numbers(others(init), m);
        let nx = number(x, m);
        if x is Integer {
            assert(integers(s) == integers(init).push(x));
            assert(others(s) == others(init));
            lemma_numbers_of_push(integers(init), x, m);
            assert((pi * po) * nx == (pi * nx) * po) by (nonlinear_arith);
            lemma_real_of_product(product(init), x->Integer_0 as int);
        } else {
            assert(integers(s) == integers(init));
            assert(others(s) == others(init).push(x));
            lemma_numbers_of_push(others(init), x, m);
            assert((pi * po) * nx == pi * (po * nx)) by (nonlinear_arith);
            assert(product(init) * 1 == product(init));
        }
        if all_defined(s, m) {
            assert forall|i: int| 0 <= i < init.len() implies value(
                #[trigger] init[i],
                m,
            ) is Some by {
                assert(init[i] == s[i]);
            }
            assert(value(s[s.len() - 1], m) is Some);
        }
    }
}

} // verus!

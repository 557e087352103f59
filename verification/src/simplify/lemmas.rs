//! Facts about the stages of simplification on operand lists: what the literal
//! part and the cancelling of opposites keep, and that doing a stage twice is
//! doing it once.
use crate::fraction::{fits, lemma_reduced_is_lowest, reduced_denominator, reduced_numerator};
use crate::simplify::spec::{
    cancel, denominator_of, divisor, divisor_of, factor_of, fraction_operands, integers, inverse,
    inverse_literals, inverses, is_negation, is_reciprocal, join, keep, negated, not_whole,
    numerator_in, opposite, others, partner, plain, plains, product, product_literals,
    product_operands, rational_part, reciprocal, reducible, square, squared, sum_literals,
    sum_operands, total, twin, whole,
};
use crate::term::{
    canonical, is_canonical, lemma_canonical_fixed, lemma_canonical_of_permutation,
    lemma_canonical_permutes, lemma_canonical_unique, lemma_rank_decides, term_order, Term,
};
use vstd::prelude::*;
use vstd::seq_lib::*;

verus! {

// ---------------------------------------------------------------------------
// Selecting operands
// ---------------------------------------------------------------------------
/// Selecting keeps a list of which every operand passes.
pub proof fn lemma_keep_all(s: Seq<Term>, p: spec_fn(Term) -> bool)
    requires
        forall|i: int| 0 <= i < s.len() ==> p(#[trigger] s[i]),
    ensures
        keep(s, p) == s,
    decreases s.len(),
{
    if s.len() > 0 {
        lemma_keep_all(s.drop_last(), p);
        assert(s.drop_last().push(s.last()) =~= s);
    }
}

/// Selecting empties a list of which no operand passes.
pub proof fn lemma_keep_none(s: Seq<Term>, p: spec_fn(Term) -> bool)
    requires
        forall|i: int| 0 <= i < s.len() ==> !p(#[trigger] s[i]),
    ensures
        keep(s, p) == Seq::<Term>::empty(),
    decreases s.len(),
{
    if s.len() > 0 {
        lemma_keep_none(s.drop_last(), p);
    }
}

/// What is selected passes the predicate and comes from the list.
pub proof fn lemma_keep_elements(s: Seq<Term>, p: spec_fn(Term) -> bool)
    ensures
        forall|i: int|
            0 <= i < keep(s, p).len() ==> p(#[trigger] keep(s, p)[i]) && s.contains(
                keep(s, p)[i],
            ),
    decreases s.len(),
{
    if s.len() > 0 {
        lemma_keep_elements(s.drop_last(), p);
        let f = keep(s, p);
        let before = keep(s.drop_last(), p);
        assert forall|i: int| 0 <= i < f.len() implies p(#[trigger] f[i]) && s.contains(
            f[i],
        ) by {
            if i < before.len() {
                assert(f[i] == before[i]);
                assert(s.drop_last().contains(before[i]));
                let j = choose|j: int| 0 <= j < s.drop_last().len() && s.drop_last()[j] == before[i];
                assert(s[j] == f[i]);
            } else {
                assert(f[i] == s.last());
                assert(s[s.len() - 1] == f[i]);
            }
        }
    }
}

/// Selecting from a canonical list leaves a canonical list.
pub proof fn lemma_keep_canonical(s: Seq<Term>, p: spec_fn(Term) -> bool)
    requires
        is_canonical(s),
    ensures
        is_canonical(keep(s, p)),
    decreases s.len(),
{
    if s.len() > 0 {
        let before = keep(s.drop_last(), p);
        assert(is_canonical(s.drop_last())) by {
            assert forall|i: int, j: int| 0 <= i < j < s.drop_last().len() implies #[trigger] term_order()(
                s.drop_last()[i],
                s.drop_last()[j],
            ) by {
                assert(term_order()(s[i], s[j]));
            }
        }
        lemma_keep_canonical(s.drop_last(), p);
        lemma_keep_elements(s.drop_last(), p);
        if p(s.last()) {
            let f = before.push(s.last());
            assert forall|i: int, j: int| 0 <= i < j < f.len() implies #[trigger] term_order()(
                f[i],
                f[j],
            ) by {
                if j < before.len() {
                    assert(term_order()(before[i], before[j]));
                } else {
                    assert(s.drop_last().contains(before[i]));
                    let k = choose|k: int| 0 <= k < s.drop_last().len() && s.drop_last()[k] == before[i];
                    assert(term_order()(s[k], s[s.len() - 1]));
                }
            }
        }
    }
}

/// Selecting from two lists joined is joining what is selected from each.
pub proof fn lemma_keep_of_joined(a: Seq<Term>, b: Seq<Term>, p: spec_fn(Term) -> bool)
    ensures
        keep(a + b, p) == keep(a, p) + keep(b, p),
    decreases b.len(),
{
    if b.len() == 0 {
        assert(a + b =~= a);
        assert(keep(a, p) + keep(b, p) =~= keep(a, p));
    } else {
        assert((a + b).drop_last() =~= a + b.drop_last());
        lemma_keep_of_joined(a, b.drop_last(), p);
        assert(keep(a + b, p) =~= keep(a, p) + keep(b, p));
    }
}

/// The integer literals of a list followed by a list without integer literals
/// are the integer literals of the first list.
pub proof fn lemma_integers_of_joined(a: Seq<Term>, b: Seq<Term>)
    requires
        forall|i: int| 0 <= i < a.len() ==> #[trigger] a[i] is Integer,
        forall|i: int| 0 <= i < b.len() ==> !(#[trigger] b[i] is Integer),
    ensures
        integers(a + b) == a,
        others(a + b) == b,
{
    lemma_keep_of_joined(a, b, whole());
    lemma_keep_of_joined(a, b, not_whole());
    lemma_keep_all(a, whole());
    lemma_keep_none(b, whole());
    lemma_keep_none(a, not_whole());
    lemma_keep_all(b, not_whole());
    assert(a + Seq::<Term>::empty() =~= a);
    assert(Seq::<Term>::empty() + b =~= b);
}

/// Integer literals followed by other operands are in canonical order when each
/// part is.
pub proof fn lemma_joined_canonical(a: Seq<Term>, b: Seq<Term>)
    requires
        is_canonical(a),
        is_canonical(b),
        forall|i: int| 0 <= i < a.len() ==> #[trigger] a[i] is Integer,
        forall|i: int| 0 <= i < b.len() ==> !(#[trigger] b[i] is Integer),
    ensures
        is_canonical(a + b),
{
    let s = a + b;
    assert forall|i: int, j: int| 0 <= i < j < s.len() implies #[trigger] term_order()(
        s[i],
        s[j],
    ) by {
        if j < a.len() {
            assert(term_order()(a[i], a[j]));
        } else if i >= a.len() {
            assert(term_order()(b[i - a.len()], b[j - a.len()]));
        } else {
            assert(a[i] is Integer);
            assert(!(b[j - a.len()] is Integer));
            lemma_rank_decides(s[i], s[j]);
        }
    }
}

// ---------------------------------------------------------------------------
// Sums and products of the integer literals
// ---------------------------------------------------------------------------
/// The sum of the literals of two lists joined is the sum of their sums.
pub proof fn lemma_total_of_joined(a: Seq<Term>, b: Seq<Term>)
    ensures
        total(a + b) == total(a) + total(b),
    decreases b.len(),
{
    if b.len() == 0 {
        assert(a + b =~= a);
    } else {
        assert((a + b).drop_last() =~= a + b.drop_last());
        lemma_total_of_joined(a, b.drop_last());
    }
}

/// The product of the literals of two lists joined is the product of their
/// products.
pub proof fn lemma_product_of_joined(a: Seq<Term>, b: Seq<Term>)
    ensures
        product(a + b) == product(a) * product(b),
    decreases b.len(),
{
    if b.len() == 0 {
        assert(a + b =~= a);
        assert(product(a) * 1 == product(a));
    } else {
        assert((a + b).drop_last() =~= a + b.drop_last());
        lemma_product_of_joined(a, b.drop_last());
        let f = factor_of(b.last());
        assert((product(a) * product(b.drop_last())) * f == product(a) * (product(b.drop_last())
            * f)) by (nonlinear_arith);
    }
}

/// A list without integer literals has the empty sum and the empty product.
pub proof fn lemma_no_literals(s: Seq<Term>)
    requires
        forall|i: int| 0 <= i < s.len() ==> !(#[trigger] s[i] is Integer),
    ensures
        total(s) == 0,
        product(s) == 1,
    decreases s.len(),
{
    if s.len() > 0 {
        lemma_no_literals(s.drop_last());
        assert(!(s[s.len() - 1] is Integer));
    }
}

/// Leaving out the operands that are not integer literals changes neither the
/// sum nor the product of the literals.
pub proof fn lemma_literals_only(s: Seq<Term>)
    ensures
        total(integers(s)) == total(s),
        product(integers(s)) == product(s),
    decreases s.len(),
{
    if s.len() > 0 {
        lemma_literals_only(s.drop_last());
        let before = integers(s.drop_last());
        if s.last() is Integer {
            assert(integers(s) == before.push(s.last()));
            assert(before.push(s.last()).drop_last() =~= before);
        } else {
            assert(integers(s) == before);
            assert(product(s.drop_last()) * 1 == product(s.drop_last()));
        }
    }
}

/// The sum and the product of a single integer literal are its value.
pub proof fn lemma_single_literal(v: i64)
    ensures
        total(seq![Term::Integer(v)]) == v,
        product(seq![Term::Integer(v)]) == v,
        integers(seq![Term::Integer(v)]) == seq![Term::Integer(v)],
        others(seq![Term::Integer(v)]) == Seq::<Term>::empty(),
{
    let s = seq![Term::Integer(v)];
    assert(s.drop_last() =~= Seq::<Term>::empty());
    assert(total(s.drop_last()) == 0);
    assert(product(s.drop_last()) == 1);
    assert(1 * (v as int) == v);
    lemma_keep_all(s, whole());
    lemma_keep_none(s, not_whole());
}

// ---------------------------------------------------------------------------
// Cancelling opposites
// ---------------------------------------------------------------------------
/// No two operands of the list are opposite.
pub open spec fn pair_free(s: Seq<Term>) -> bool {
    forall|i: int, j: int| 0 <= i < j < s.len() ==> !opposite(#[trigger] s[i], #[trigger] s[j])
}

/// `partner` finds the first opposite, if there is one.
pub proof fn lemma_partner(acc: Seq<Term>, x: Term)
    ensures
        0 <= partner(acc, x) <= acc.len(),
        forall|j: int| 0 <= j < partner(acc, x) ==> !opposite(#[trigger] acc[j], x),
        partner(acc, x) < acc.len() ==> opposite(acc[partner(acc, x)], x),
    decreases acc.len(),
{
    if acc.len() > 0 && !opposite(acc[0], x) {
        lemma_partner(acc.drop_first(), x);
        let k = partner(acc.drop_first(), x);
        assert forall|j: int| 0 <= j < 1 + k implies !opposite(#[trigger] acc[j], x) by {
            if j > 0 {
                assert(acc[j] == acc.drop_first()[j - 1]);
            }
        }
    }
}

/// A position that holds the first opposite of `x` is the one `partner` finds.
pub proof fn lemma_partner_is(acc: Seq<Term>, x: Term, k: int)
    requires
        0 <= k <= acc.len(),
        forall|j: int| 0 <= j < k ==> !opposite(#[trigger] acc[j], x),
        k < acc.len() ==> opposite(acc[k], x),
    ensures
        partner(acc, x) == k,
{
    lemma_partner(acc, x);
    let p = partner(acc, x);
    if p < k {
        assert(!opposite(acc[p], x));
    }
}

/// What is left after cancelling comes from the list, is in canonical order when
/// the list is, and holds no two opposite operands.
pub proof fn lemma_cancel_keeps(s: Seq<Term>)
    ensures
        forall|i: int| 0 <= i < cancel(s).len() ==> s.contains(#[trigger] cancel(s)[i]),
        pair_free(cancel(s)),
        is_canonical(s) ==> is_canonical(cancel(s)),
        cancel(s).len() <= s.len(),
    decreases s.len(),
{
    if s.len() > 0 {
        let init = s.drop_last();
        let x = s.last();
        lemma_cancel_keeps(init);
        let acc = cancel(init);
        let k = partner(acc, x);
        lemma_partner(acc, x);
        let r = cancel(s);
        assert forall|i: int| 0 <= i < r.len() implies s.contains(#[trigger] r[i]) by {
            if k < acc.len() {
                let e = if i < k {
                    acc[i]
                } else {
                    acc[i + 1]
                };
                assert(r[i] == e);
                assert(init.contains(e));
                let j = choose|j: int| 0 <= j < init.len() && init[j] == e;
                assert(s[j] == e);
            } else {
                if i < acc.len() {
                    assert(init.contains(acc[i]));
                    let j = choose|j: int| 0 <= j < init.len() && init[j] == acc[i];
                    assert(s[j] == r[i]);
                } else {
                    assert(s[s.len() - 1] == r[i]);
                }
            }
        }
        assert(pair_free(r)) by {
            assert forall|i: int, j: int| 0 <= i < j < r.len() implies !opposite(
                #[trigger] r[i],
                #[trigger] r[j],
            ) by {
                if k < acc.len() {
                    let a = if i < k {
                        i
                    } else {
                        i + 1
                    };
                    let b = if j < k {
                        j
                    } else {
                        j + 1
                    };
                    assert(r[i] == acc[a] && r[j] == acc[b]);
                    assert(!opposite(acc[a], acc[b]));
                } else {
                    if j < acc.len() {
                        assert(!opposite(acc[i], acc[j]));
                    } else {
                        assert(!opposite(acc[i], x));
                    }
                }
            }
        }
        if is_canonical(s) {
            assert(is_canonical(init)) by {
                assert forall|i: int, j: int| 0 <= i < j < init.len() implies #[trigger] term_order()(
                    init[i],
                    init[j],
                ) by {
                    assert(term_order()(s[i], s[j]));
                }
            }
            assert forall|i: int, j: int| 0 <= i < j < r.len() implies #[trigger] term_order()(
                r[i],
                r[j],
            ) by {
                if k < acc.len() {
                    let a = if i < k {
                        i
                    } else {
                        i + 1
                    };
                    let b = if j < k {
                        j
                    } else {
                        j + 1
                    };
                    assert(r[i] == acc[a] && r[j] == acc[b]);
                    assert(term_order()(acc[a], acc[b]));
                } else {
                    if j < acc.len() {
                        assert(term_order()(acc[i], acc[j]));
                    } else {
                        assert(init.contains(acc[i]));
                        let m = choose|m: int| 0 <= m < init.len() && init[m] == acc[i];
                        assert(term_order()(s[m], s[s.len() - 1]));
                    }
                }
            }
        }
    }
}

/// Cancelling leaves a list without opposite operands as it is.
pub proof fn lemma_cancel_fixed(s: Seq<Term>)
    requires
        pair_free(s),
    ensures
        cancel(s) == s,
    decreases s.len(),
{
    if s.len() > 0 {
        let init = s.drop_last();
        let x = s.last();
        assert(pair_free(init)) by {
            assert forall|i: int, j: int| 0 <= i < j < init.len() implies !opposite(
                #[trigger] init[i],
                #[trigger] init[j],
            ) by {
                assert(!opposite(s[i], s[j]));
            }
        }
        lemma_cancel_fixed(init);
        assert forall|j: int| 0 <= j < init.len() implies !opposite(#[trigger] init[j], x) by {
            assert(!opposite(s[j], s[s.len() - 1]));
        }
        lemma_partner_is(init, x, init.len() as int);
        assert(init.push(x) =~= s);
    }
}

/// Cancelling twice is cancelling once.
pub proof fn lemma_cancel_idempotent(s: Seq<Term>)
    ensures
        cancel(cancel(s)) == cancel(s),
{
    lemma_cancel_keeps(s);
    lemma_cancel_fixed(cancel(s));
}

// ---------------------------------------------------------------------------
// The parts of a simplified operand list
// ---------------------------------------------------------------------------
/// Every operand is an integer literal.
pub open spec fn all_whole(s: Seq<Term>) -> bool {
    forall|i: int| 0 <= i < s.len() ==> #[trigger] s[i] is Integer
}

/// No operand is an integer literal.
pub open spec fn none_whole(s: Seq<Term>) -> bool {
    forall|i: int| 0 <= i < s.len() ==> !(#[trigger] s[i] is Integer)
}

/// Every operand of `r` is an operand of `c` or an integer literal.
pub open spec fn drawn_from(r: Seq<Term>, c: Seq<Term>) -> bool {
    forall|i: int| 0 <= i < r.len() ==> c.contains(#[trigger] r[i]) || r[i] is Integer
}

/// A literal part that folding leaves as it is: at most one literal, or
/// literals whose sum is no 64-bit integer.
pub open spec fn steady_sum(l: Seq<Term>) -> bool {
    l.len() <= 1 || !fits(total(l))
}

/// A literal part that folding leaves as it is: at most one literal, or
/// literals whose product is no 64-bit integer.
pub open spec fn steady_product(l: Seq<Term>) -> bool {
    l.len() <= 1 || !fits(product(l))
}

/// The integer literals of a canonical list.
pub proof fn lemma_integers_part(c: Seq<Term>)
    requires
        is_canonical(c),
    ensures
        all_whole(integers(c)),
        is_canonical(integers(c)),
{
    lemma_keep_elements(c, whole());
    lemma_keep_canonical(c, whole());
    assert forall|i: int| 0 <= i < integers(c).len() implies #[trigger] integers(c)[i]
        is Integer by {
        assert(whole()(integers(c)[i]));
    }
}

/// The other operands of a canonical list.
pub proof fn lemma_others_part(c: Seq<Term>)
    requires
        is_canonical(c),
    ensures
        none_whole(others(c)),
        is_canonical(others(c)),
        drawn_from(others(c), c),
{
    lemma_keep_elements(c, not_whole());
    lemma_keep_canonical(c, not_whole());
    assert forall|i: int| 0 <= i < others(c).len() implies !(#[trigger] others(c)[i]
        is Integer) by {
        assert(not_whole()(others(c)[i]));
    }
}

/// What cancelling leaves of operands that are not integer literals.
pub proof fn lemma_cancel_part(s: Seq<Term>, c: Seq<Term>)
    requires
        none_whole(s),
        is_canonical(s),
        drawn_from(s, c),
    ensures
        none_whole(cancel(s)),
        is_canonical(cancel(s)),
        pair_free(cancel(s)),
        drawn_from(cancel(s), c),
{
    lemma_cancel_keeps(s);
    assert forall|i: int| 0 <= i < cancel(s).len() implies !(#[trigger] cancel(s)[i]
        is Integer) && c.contains(cancel(s)[i]) by {
        let x = cancel(s)[i];
        assert(s.contains(x));
        let j = choose|j: int| 0 <= j < s.len() && s[j] == x;
        assert(!(s[j] is Integer));
    }
}

/// A single term is a canonical list.
pub proof fn lemma_single_canonical(t: Term)
    ensures
        is_canonical(seq![t]),
{
}

/// The literal part of a simplified sum.
pub proof fn lemma_sum_literals_part(c: Seq<Term>)
    requires
        is_canonical(c),
    ensures
        all_whole(sum_literals(c)),
        is_canonical(sum_literals(c)),
        steady_sum(sum_literals(c)),
{
    lemma_integers_part(c);
    if integers(c).len() > 0 && fits(total(c)) {
        lemma_single_canonical(Term::Integer(total(c) as i64));
    } else {
        lemma_literals_only(c);
    }
}

/// The literal part of a simplified product.
pub proof fn lemma_product_literals_part(c: Seq<Term>)
    requires
        is_canonical(c),
    ensures
        all_whole(product_literals(c)),
        is_canonical(product_literals(c)),
        steady_product(product_literals(c)),
{
    lemma_integers_part(c);
    if integers(c).len() > 0 && fits(product(c)) {
        lemma_single_canonical(Term::Integer(product(c) as i64));
    } else {
        lemma_literals_only(c);
    }
}

/// A rest alone: a canonical list without integer literals.
pub proof fn lemma_rest_alone(rest: Seq<Term>)
    requires
        none_whole(rest),
    ensures
        others(rest) == rest,
        integers(rest) == Seq::<Term>::empty(),
{
    lemma_keep_none(rest, whole());
    lemma_keep_all(rest, not_whole());
}

/// A literal part followed by a rest: a canonical list of which the literal
/// part and the rest can be told again.
pub proof fn lemma_joined(lits: Seq<Term>, rest: Seq<Term>, c: Seq<Term>)
    requires
        all_whole(lits),
        none_whole(rest),
        is_canonical(lits),
        is_canonical(rest),
        drawn_from(rest, c),
    ensures
        is_canonical(lits + rest),
        drawn_from(lits + rest, c),
        others(lits + rest) == rest,
        integers(lits + rest) == lits,
{
    lemma_joined_canonical(lits, rest);
    lemma_integers_of_joined(lits, rest);
    let r = lits + rest;
    assert forall|i: int| 0 <= i < r.len() implies c.contains(#[trigger] r[i]) || r[i]
        is Integer by {
        if i < lits.len() {
            assert(lits[i] is Integer);
        } else {
            assert(r[i] == rest[i - lits.len()]);
        }
    }
}

/// Folding the literals of a steady literal part joined to a rest changes nothing.
pub proof fn lemma_sum_literals_steady(lits: Seq<Term>, rest: Seq<Term>)
    requires
        all_whole(lits),
        none_whole(rest),
        steady_sum(lits),
        integers(lits + rest) == lits,
    ensures
        sum_literals(lits + rest) == lits,
{
    lemma_total_of_joined(lits, rest);
    lemma_no_literals(rest);
    if lits.len() == 1 {
        let v = lits[0]->Integer_0;
        assert(lits =~= seq![Term::Integer(v)]);
        lemma_single_literal(v);
    }
}

/// The operands of a simplified sum are in canonical order, each is an operand
/// that was given or an integer literal, and simplifying them as a sum again
/// yields the same operands.
pub proof fn lemma_sum_stage(c: Seq<Term>)
    requires
        is_canonical(c),
    ensures
        is_canonical(sum_operands(c)),
        drawn_from(sum_operands(c), c),
        sum_operands(sum_operands(c)) == sum_operands(c),
{
    reveal(sum_operands);
    let lits = sum_literals(c);
    let rest = cancel(others(c));
    lemma_sum_literals_part(c);
    lemma_others_part(c);
    lemma_cancel_part(others(c), c);
    lemma_cancel_fixed(rest);
    if lits == seq![Term::Integer(0)] && rest.len() > 0 {
        lemma_rest_alone(rest);
        assert(Seq::<Term>::empty() + rest =~= rest);
    } else {
        lemma_joined(lits, rest, c);
        lemma_sum_literals_steady(lits, rest);
    }
}

/// A numerator followed by a reciprocal is a canonical list.
pub proof fn lemma_fraction_operands(n: i64, d: i64)
    ensures
        is_canonical(seq![Term::Integer(n), reciprocal(d)]),
        canonical(seq![Term::Integer(n), reciprocal(d)])
            == seq![Term::Integer(n), reciprocal(d)],
{
    let ops = seq![Term::Integer(n), reciprocal(d)];
    assert forall|i: int, j: int| 0 <= i < j < ops.len() implies #[trigger] term_order()(
        ops[i],
        ops[j],
    ) by {
        lemma_rank_decides(ops[0], ops[1]);
    }
    lemma_canonical_fixed(ops);
}

// ---------------------------------------------------------------------------
// Selecting from permutations
// ---------------------------------------------------------------------------
/// The operands that pass a predicate, counted: as often as in the list if they
/// pass, else never.
pub proof fn lemma_keep_counts(s: Seq<Term>, p: spec_fn(Term) -> bool, x: Term)
    ensures
        keep(s, p).to_multiset().count(x) == if p(x) {
            s.to_multiset().count(x)
        } else {
            0
        },
    decreases s.len(),
{
    broadcast use vstd::multiset::group_multiset_axioms;

    s.to_multiset_ensures();
    keep(s, p).to_multiset_ensures();
    if s.len() == 0 {
        assert(s.to_multiset().count(x) == 0) by {
            if s.to_multiset().count(x) > 0 {
                assert(s.contains(x));
            }
        }
        assert(keep(s, p).to_multiset().count(x) == 0) by {
            if keep(s, p).to_multiset().count(x) > 0 {
                assert(keep(s, p).contains(x));
            }
        }
    } else {
        let init = s.drop_last();
        let last = s.last();
        lemma_keep_counts(init, p, x);
        assert(s =~= init.push(last));
        init.to_multiset_ensures();
        assert(s.to_multiset() =~= init.to_multiset().insert(last));
        if p(last) {
            keep(init, p).to_multiset_ensures();
            assert(keep(s, p).to_multiset() =~= keep(init, p).to_multiset().insert(last));
        }
    }
}

/// Selecting from two lists that are permutations of each other gives two
/// lists that are permutations of each other.
pub proof fn lemma_keep_of_permutation(a: Seq<Term>, b: Seq<Term>, p: spec_fn(Term) -> bool)
    requires
        a.to_multiset() == b.to_multiset(),
    ensures
        keep(a, p).to_multiset() == keep(b, p).to_multiset(),
{
    assert forall|x: Term| keep(a, p).to_multiset().count(x) == keep(b, p).to_multiset().count(
        x,
    ) by {
        lemma_keep_counts(a, p, x);
        lemma_keep_counts(b, p, x);
    }
    assert(keep(a, p).to_multiset() =~= keep(b, p).to_multiset());
}

/// Selecting from the canonical arrangement of a list gives the canonical
/// arrangement of what is selected from the list.
pub proof fn lemma_keep_of_canonical(ops: Seq<Term>, p: spec_fn(Term) -> bool)
    ensures
        keep(canonical(ops), p) == canonical(keep(ops, p)),
{
    lemma_canonical_permutes(ops);
    lemma_canonical_permutes(keep(ops, p));
    lemma_keep_of_permutation(canonical(ops), ops, p);
    lemma_keep_canonical(canonical(ops), p);
    lemma_canonical_unique(keep(canonical(ops), p), canonical(keep(ops, p)));
}

// ---------------------------------------------------------------------------
// The denominators of a product
// ---------------------------------------------------------------------------
/// Every operand is the reciprocal of an integer literal.
pub open spec fn all_inverse(s: Seq<Term>) -> bool {
    forall|i: int| 0 <= i < s.len() ==> is_reciprocal(#[trigger] s[i])
}

/// No operand is an integer literal or the reciprocal of one.
pub open spec fn all_plain(s: Seq<Term>) -> bool {
    forall|i: int| 0 <= i < s.len() ==> !(#[trigger] s[i] is Integer) && !is_reciprocal(s[i])
}

/// A denominator part that folding leaves as it is: at most one reciprocal, or
/// reciprocals whose denominators multiply to no 64-bit integer.
pub open spec fn steady_divisor(l: Seq<Term>) -> bool {
    l.len() <= 1 || !fits(divisor(l))
}

/// The product of the denominators of two lists joined.
pub proof fn lemma_divisor_of_joined(a: Seq<Term>, b: Seq<Term>)
    ensures
        divisor(a + b) == divisor(a) * divisor(b),
    decreases b.len(),
{
    if b.len() == 0 {
        assert(a + b =~= a);
        assert(divisor(a) * 1 == divisor(a));
    } else {
        assert((a + b).drop_last() =~= a + b.drop_last());
        lemma_divisor_of_joined(a, b.drop_last());
        let f = divisor_of(b.last());
        assert((divisor(a) * divisor(b.drop_last())) * f == divisor(a) * (divisor(b.drop_last())
            * f)) by (nonlinear_arith);
    }
}

/// A list without reciprocals has the empty product of denominators.
pub proof fn lemma_no_inverses(s: Seq<Term>)
    requires
        forall|i: int| 0 <= i < s.len() ==> !is_reciprocal(#[trigger] s[i]),
    ensures
        divisor(s) == 1,
    decreases s.len(),
{
    if s.len() > 0 {
        lemma_no_inverses(s.drop_last());
        assert(!is_reciprocal(s[s.len() - 1]));
    }
}

/// Leaving out the operands that are not reciprocals does not change the
/// product of the denominators, which is not zero.
pub proof fn lemma_inverses_only(s: Seq<Term>)
    ensures
        divisor(inverses(s)) == divisor(s),
        divisor(s) != 0,
    decreases s.len(),
{
    if s.len() > 0 {
        lemma_inverses_only(s.drop_last());
        let before = inverses(s.drop_last());
        let d = divisor(s.drop_last());
        let f = divisor_of(s.last());
        if is_reciprocal(s.last()) {
            assert(inverses(s) == before.push(s.last()));
            assert(before.push(s.last()).drop_last() =~= before);
        } else {
            assert(inverses(s) == before);
            assert(d * 1 == d);
        }
        assert(d * f != 0) by (nonlinear_arith)
            requires
                d != 0,
                f != 0,
        ;
    }
}

/// The product of the denominators of a single reciprocal is its denominator.
pub proof fn lemma_single_inverse(d: i64)
    requires
        d != 0,
    ensures
        divisor(seq![reciprocal(d)]) == d,
        inverses(seq![reciprocal(d)]) == seq![reciprocal(d)],
        integers(seq![reciprocal(d)]) == Seq::<Term>::empty(),
        plains(seq![reciprocal(d)]) == Seq::<Term>::empty(),
        product(seq![reciprocal(d)]) == 1,
{
    let s = seq![reciprocal(d)];
    assert(s.drop_last() =~= Seq::<Term>::empty());
    assert(divisor(s.drop_last()) == 1);
    assert(product(s.drop_last()) == 1);
    assert(1 * (d as int) == d);
    lemma_keep_all(s, inverse());
    lemma_keep_none(s, whole());
    lemma_keep_none(s, plain());
}

/// The reciprocals of a canonical list.
pub proof fn lemma_inverses_part(c: Seq<Term>)
    requires
        is_canonical(c),
    ensures
        all_inverse(inverses(c)),
        is_canonical(inverses(c)),
{
    lemma_keep_elements(c, inverse());
    lemma_keep_canonical(c, inverse());
    assert forall|i: int| 0 <= i < inverses(c).len() implies is_reciprocal(
        #[trigger] inverses(c)[i],
    ) by {
        assert(inverse()(inverses(c)[i]));
    }
}

/// The operands of a canonical list that are neither integer literals nor
/// reciprocals.
pub proof fn lemma_plains_part(c: Seq<Term>)
    requires
        is_canonical(c),
    ensures
        all_plain(plains(c)),
        is_canonical(plains(c)),
        forall|i: int| 0 <= i < plains(c).len() ==> c.contains(#[trigger] plains(c)[i]),
{
    lemma_keep_elements(c, plain());
    lemma_keep_canonical(c, plain());
    assert forall|i: int| 0 <= i < plains(c).len() implies !(#[trigger] plains(c)[i]
        is Integer) && !is_reciprocal(plains(c)[i]) by {
        assert(plain()(plains(c)[i]));
    }
}

/// The denominator part of a simplified product.
pub proof fn lemma_inverse_literals_part(c: Seq<Term>)
    requires
        is_canonical(c),
    ensures
        all_inverse(inverse_literals(c)),
        is_canonical(inverse_literals(c)),
        steady_divisor(inverse_literals(c)),
{
    lemma_inverses_part(c);
    lemma_inverses_only(c);
    if inverses(c).len() > 0 && fits(divisor(c)) {
        lemma_single_canonical(reciprocal(divisor(c) as i64));
    }
}

/// What is selected from a literal part, a denominator part and a plain rest
/// joined.
pub proof fn lemma_parts_of_joined(n: Seq<Term>, d: Seq<Term>, rest: Seq<Term>)
    requires
        all_whole(n),
        all_inverse(d),
        all_plain(rest),
    ensures
        integers(n + d + rest) == n,
        inverses(n + d + rest) == d,
        plains(n + d + rest) == rest,
        product(n + d + rest) == product(n),
        divisor(n + d + rest) == divisor(d),
{
    let e = Seq::<Term>::empty();
    lemma_keep_of_joined(n + d, rest, whole());
    lemma_keep_of_joined(n, d, whole());
    lemma_keep_of_joined(n + d, rest, inverse());
    lemma_keep_of_joined(n, d, inverse());
    lemma_keep_of_joined(n + d, rest, plain());
    lemma_keep_of_joined(n, d, plain());
    lemma_keep_all(n, whole());
    lemma_keep_none(d, whole());
    lemma_keep_none(rest, whole());
    lemma_keep_none(n, inverse());
    lemma_keep_all(d, inverse());
    lemma_keep_none(rest, inverse());
    lemma_keep_none(n, plain());
    lemma_keep_none(d, plain());
    lemma_keep_all(rest, plain());
    assert(n + e + e =~= n);
    assert(e + d + e =~= d);
    assert(e + e + rest =~= rest);
    lemma_product_of_joined(n + d, rest);
    lemma_product_of_joined(n, d);
    lemma_divisor_of_joined(n + d, rest);
    lemma_divisor_of_joined(n, d);
    lemma_no_literals(d);
    lemma_no_literals(rest);
    assert forall|i: int| 0 <= i < n.len() implies !is_reciprocal(#[trigger] n[i]) by {
        assert(n[i] is Integer);
    }
    lemma_no_inverses(n);
    lemma_no_inverses(rest);
    assert(product(n) * 1 * 1 == product(n));
    assert(1 * divisor(d) * 1 == divisor(d));
}

/// A literal part, a denominator part and a plain rest joined are in canonical
/// order when each part is and the rest is.
pub proof fn lemma_rational_joined_canonical(n: Seq<Term>, d: Seq<Term>)
    requires
        all_whole(n),
        all_inverse(d),
        is_canonical(n),
        is_canonical(d),
    ensures
        is_canonical(n + d),
{
    assert forall|i: int| 0 <= i < d.len() implies !(#[trigger] d[i] is Integer) by {
        assert(is_reciprocal(d[i]));
    }
    lemma_joined_canonical(n, d);
}

// ---------------------------------------------------------------------------
// Squaring equal negations
// ---------------------------------------------------------------------------
/// No negation occurs twice among the operands.
pub open spec fn twin_free(s: Seq<Term>) -> bool {
    forall|x: Term| is_negation(x) ==> #[trigger] s.to_multiset().count(x) <= 1
}

/// Whether `t` is the square of what a negation among the operands negates.
pub open spec fn is_square_from(t: Term, s: Seq<Term>) -> bool {
    exists|j: int| 0 <= j < s.len() && is_negation(#[trigger] s[j]) && t == square(negated(s[j]))
}

/// Every operand of `r` is an operand of `s` or the square of what a negation
/// among the operands of `s` negates.
pub open spec fn made_from(r: Seq<Term>, s: Seq<Term>) -> bool {
    forall|i: int| 0 <= i < r.len() ==> s.contains(#[trigger] r[i]) || is_square_from(r[i], s)
}

/// `twin` finds the first operand that is `x`, if there is one.
pub proof fn lemma_twin(acc: Seq<Term>, x: Term)
    ensures
        0 <= twin(acc, x) <= acc.len(),
        forall|j: int| 0 <= j < twin(acc, x) ==> #[trigger] acc[j] != x,
        twin(acc, x) < acc.len() ==> acc[twin(acc, x)] == x,
        (twin(acc, x) < acc.len()) == acc.contains(x),
    decreases acc.len(),
{
    if acc.len() > 0 && acc[0] != x {
        lemma_twin(acc.drop_first(), x);
        let k = twin(acc.drop_first(), x);
        assert forall|j: int| 0 <= j < 1 + k implies #[trigger] acc[j] != x by {
            if j > 0 {
                assert(acc[j] == acc.drop_first()[j - 1]);
            }
        }
        if k < acc.drop_first().len() {
            assert(acc[1 + k] == acc.drop_first()[k]);
        }
        if acc.contains(x) {
            let j = choose|j: int| 0 <= j < acc.len() && acc[j] == x;
            assert(acc.drop_first()[j - 1] == x);
        }
    }
}

/// A position that holds the first operand that is `x` is the one `twin` finds.
pub proof fn lemma_twin_is(acc: Seq<Term>, x: Term, k: int)
    requires
        0 <= k <= acc.len(),
        forall|j: int| 0 <= j < k ==> #[trigger] acc[j] != x,
        k < acc.len() ==> acc[k] == x,
    ensures
        twin(acc, x) == k,
{
    lemma_twin(acc, x);
    let p = twin(acc, x);
    if p < k {
        assert(acc[p] != x);
    }
}

/// What squaring equal negations leaves: no negation twice, operands that were
/// given or squares of what was negated, and plain operands if plain operands
/// were given.
pub proof fn lemma_squared_keeps(s: Seq<Term>)
    ensures
        twin_free(squared(s)),
        made_from(squared(s), s),
        all_plain(s) ==> all_plain(squared(s)),
        squared(s).len() <= s.len(),
    decreases s.len(),
{
    broadcast use vstd::multiset::group_multiset_axioms;

    if s.len() == 0 {
        s.to_multiset_ensures();
        assert forall|x: Term| is_negation(x) implies #[trigger] s.to_multiset().count(x)
            <= 1 by {
            if s.to_multiset().count(x) > 0 {
                assert(s.contains(x));
            }
        }
    } else {
        let init = s.drop_last();
        let x = s.last();
        lemma_squared_keeps(init);
        let acc = squared(init);
        let k = twin(acc, x);
        lemma_twin(acc, x);
        let r = squared(s);
        acc.to_multiset_ensures();
        assert(s[s.len() - 1] == x);
        if is_negation(x) && k < acc.len() {
            let q = square(negated(x));
            let cut = acc.remove(k);
            cut.to_multiset_ensures();
            assert(cut.to_multiset() =~= acc.to_multiset().remove(x));
            assert(r.to_multiset() =~= cut.to_multiset().insert(q));
            assert(!is_negation(q));
            assert forall|y: Term| is_negation(y) implies #[trigger] r.to_multiset().count(y)
                <= 1 by {
                assert(acc.to_multiset().count(y) <= 1);
            }
            assert forall|i: int| 0 <= i < r.len() implies s.contains(#[trigger] r[i])
                || is_square_from(r[i], s) by {
                if i < cut.len() {
                    let e = if i < k {
                        acc[i]
                    } else {
                        acc[i + 1]
                    };
                    assert(r[i] == e);
                    lemma_made_from_longer(acc, init, s, e);
                } else {
                    assert(r[i] == q);
                    assert(is_negation(s[s.len() - 1]));
                }
            }
            if all_plain(s) {
                assert(all_plain(init)) by {
                    assert forall|i: int| 0 <= i < init.len() implies !(#[trigger] init[i]
                        is Integer) && !is_reciprocal(init[i]) by {
                        assert(init[i] == s[i]);
                    }
                }
                assert forall|i: int| 0 <= i < r.len() implies !(#[trigger] r[i] is Integer)
                    && !is_reciprocal(r[i]) by {
                    if i < cut.len() {
                        let e = if i < k {
                            acc[i]
                        } else {
                            acc[i + 1]
                        };
                        assert(r[i] == e);
                    }
                }
            }
        } else {
            assert(r.to_multiset() =~= acc.to_multiset().insert(x));
            assert forall|y: Term| is_negation(y) implies #[trigger] r.to_multiset().count(y)
                <= 1 by {
                assert(acc.to_multiset().count(y) <= 1);
                if y == x {
                    assert(!acc.contains(x));
                    assert(acc.to_multiset().count(x) == 0);
                }
            }
            assert forall|i: int| 0 <= i < r.len() implies s.contains(#[trigger] r[i])
                || is_square_from(r[i], s) by {
                if i < acc.len() {
                    assert(r[i] == acc[i]);
                    lemma_made_from_longer(acc, init, s, acc[i]);
                }
            }
            if all_plain(s) {
                assert(all_plain(init)) by {
                    assert forall|i: int| 0 <= i < init.len() implies !(#[trigger] init[i]
                        is Integer) && !is_reciprocal(init[i]) by {
                        assert(init[i] == s[i]);
                    }
                }
                assert forall|i: int| 0 <= i < r.len() implies !(#[trigger] r[i] is Integer)
                    && !is_reciprocal(r[i]) by {
                    if i < acc.len() {
                        assert(r[i] == acc[i]);
                    }
                }
            }
        }
    }
}

/// What is made from all but the last operand of a list is made from the list.
pub proof fn lemma_made_from_longer(acc: Seq<Term>, init: Seq<Term>, s: Seq<Term>, e: Term)
    requires
        s.len() > 0,
        init == s.drop_last(),
        made_from(acc, init),
        acc.contains(e),
    ensures
        s.contains(e) || is_square_from(e, s),
{
    let i = choose|i: int| 0 <= i < acc.len() && acc[i] == e;
    assert(init.contains(acc[i]) || is_square_from(acc[i], init));
    if init.contains(e) {
        let j = choose|j: int| 0 <= j < init.len() && init[j] == e;
        assert(s[j] == e);
    } else {
        let j = choose|j: int|
            0 <= j < init.len() && is_negation(#[trigger] init[j]) && e == square(
                negated(init[j]),
            );
        assert(s[j] == init[j]);
    }
}

/// Squaring equal negations leaves a list without two equal negations as it is.
pub proof fn lemma_squared_fixed(s: Seq<Term>)
    requires
        twin_free(s),
    ensures
        squared(s) == s,
    decreases s.len(),
{
    broadcast use vstd::multiset::group_multiset_axioms;

    if s.len() > 0 {
        let init = s.drop_last();
        let x = s.last();
        s.to_multiset_ensures();
        init.to_multiset_ensures();
        assert(s =~= init.push(x));
        assert(s.to_multiset() =~= init.to_multiset().insert(x));
        assert(twin_free(init)) by {
            assert forall|y: Term| is_negation(y) implies #[trigger] init.to_multiset().count(y)
                <= 1 by {
                assert(s.to_multiset().count(y) <= 1);
            }
        }
        lemma_squared_fixed(init);
        lemma_twin(init, x);
        if is_negation(x) && twin(init, x) < init.len() {
            assert(init.contains(x));
            assert(init.to_multiset().count(x) > 0);
            assert(s.to_multiset().count(x) <= 1);
        }
    }
}

// ---------------------------------------------------------------------------
// The rational part of a product
// ---------------------------------------------------------------------------
/// A rational part that simplifying leaves as it is: integer literals followed
/// by reciprocals, in canonical order, each of the two folded as far as it can
/// be, and in lowest terms where they are a fraction.
pub open spec fn steady_rational(r: Seq<Term>) -> bool {
    &&& r == integers(r) + inverses(r)
    &&& is_canonical(r)
    &&& steady_product(integers(r))
    &&& steady_divisor(inverses(r))
    &&& reducible(integers(r), inverses(r)) ==> fraction_operands(
        reduced_numerator(
            numerator_in(integers(r)),
            denominator_of(inverses(r)[0]) as int,
        ) as i64,
        reduced_denominator(
            numerator_in(integers(r)),
            denominator_of(inverses(r)[0]) as int,
        ) as i64,
    ) == r
}

/// A literal part followed by a denominator part is a steady rational part if
/// the two are no fraction that can be reduced.
pub proof fn lemma_unreduced_is_steady(n: Seq<Term>, d: Seq<Term>)
    requires
        all_whole(n),
        all_inverse(d),
        is_canonical(n),
        is_canonical(d),
        steady_product(n),
        steady_divisor(d),
        !reducible(n, d),
    ensures
        steady_rational(n + d),
        integers(n + d) == n,
        inverses(n + d) == d,
{
    let e = Seq::<Term>::empty();
    assert(all_plain(e));
    lemma_parts_of_joined(n, d, e);
    assert(n + d + e =~= n + d);
    lemma_rational_joined_canonical(n, d);
}

/// The operands of a fraction in lowest terms are a steady rational part.
pub proof fn lemma_fraction_is_steady(p: i64, q: i64)
    requires
        q > 0,
        reduced_numerator(p as int, q as int) == p,
        reduced_denominator(p as int, q as int) == q,
    ensures
        steady_rational(fraction_operands(p, q)),
{
    let e = Seq::<Term>::empty();
    let r = fraction_operands(p, q);
    assert(all_plain(e));
    assert(all_whole(e));
    assert(all_inverse(e));
    lemma_single_canonical(Term::Integer(p));
    lemma_single_canonical(reciprocal(q));
    if q == 1 {
        let n = seq![Term::Integer(p)];
        assert(all_whole(n));
        lemma_parts_of_joined(n, e, e);
        assert(n + e + e =~= n);
        assert(n + e =~= n);
    } else if p == 1 {
        let d = seq![reciprocal(q)];
        assert(all_inverse(d));
        lemma_parts_of_joined(e, d, e);
        assert(e + d + e =~= d);
        assert(e + d =~= d);
    } else {
        let n = seq![Term::Integer(p)];
        let d = seq![reciprocal(q)];
        assert(all_whole(n));
        assert(all_inverse(d));
        lemma_parts_of_joined(n, d, e);
        assert(n + d + e =~= r);
        assert(n + d =~= r);
        lemma_fraction_operands(p, q);
    }
}

/// The rational part of a simplified product is steady.
pub proof fn lemma_rational_part(c: Seq<Term>)
    requires
        is_canonical(c),
    ensures
        steady_rational(rational_part(c)),
{
    let n = product_literals(c);
    let d = inverse_literals(c);
    lemma_product_literals_part(c);
    lemma_inverse_literals_part(c);
    if reducible(n, d) {
        let a = numerator_in(n);
        let b = denominator_of(d[0]) as int;
        lemma_reduced_is_lowest(a, b);
        lemma_fraction_is_steady(reduced_numerator(a, b) as i64, reduced_denominator(a, b) as i64);
    } else {
        lemma_unreduced_is_steady(n, d);
    }
}

/// The rational part of a list that holds the integer literals and the
/// reciprocals of a steady rational part is that rational part.
pub proof fn lemma_rational_part_again(y: Seq<Term>, r: Seq<Term>)
    requires
        steady_rational(r),
        integers(y) == integers(r),
        inverses(y) == inverses(r),
    ensures
        rational_part(y) == r,
{
    let n = integers(r);
    let d = inverses(r);
    lemma_literals_only(y);
    lemma_inverses_only(y);
    lemma_keep_elements(r, whole());
    lemma_keep_elements(r, inverse());
    if n.len() == 1 {
        assert(whole()(n[0]));
        let v = n[0]->Integer_0;
        assert(n =~= seq![Term::Integer(v)]);
        lemma_single_literal(v);
    }
    if d.len() == 1 {
        assert(inverse()(d[0]));
        let v = denominator_of(d[0]);
        assert(d =~= seq![reciprocal(v)]);
        lemma_single_inverse(v);
    }
    assert(product_literals(y) == n);
    assert(inverse_literals(y) == d);
}

/// Every operand of `r` is an operand of `c`, an integer literal, the
/// reciprocal of one, or the square of what a negation among the operands of
/// `c` negates.
pub open spec fn produced_from(r: Seq<Term>, c: Seq<Term>) -> bool {
    forall|i: int|
        0 <= i < r.len() ==> c.contains(#[trigger] r[i]) || r[i] is Integer || is_reciprocal(r[i])
            || is_square_from(r[i], c)
}

/// What is made from a selection of a list is produced from the list.
pub proof fn lemma_made_from_selection(s: Seq<Term>, sel: Seq<Term>, c: Seq<Term>)
    requires
        made_from(s, sel),
        forall|i: int| 0 <= i < sel.len() ==> c.contains(#[trigger] sel[i]),
    ensures
        produced_from(s, c),
{
    assert forall|i: int| 0 <= i < s.len() implies c.contains(#[trigger] s[i]) || s[i]
        is Integer || is_reciprocal(s[i]) || is_square_from(s[i], c) by {
        if sel.contains(s[i]) {
            let j = choose|j: int| 0 <= j < sel.len() && sel[j] == s[i];
            assert(c.contains(sel[j]));
        } else {
            let j = choose|j: int|
                0 <= j < sel.len() && is_negation(#[trigger] sel[j]) && s[i] == square(
                    negated(sel[j]),
                );
            assert(c.contains(sel[j]));
            let k = choose|k: int| 0 <= k < c.len() && c[k] == sel[j];
            assert(is_negation(c[k]));
        }
    }
}

/// The operands of a simplified product are in canonical order, each is
/// produced from the operands given, and simplifying them as a product again
/// yields the same operands.
pub proof fn lemma_product_stage(c: Seq<Term>)
    requires
        is_canonical(c),
    ensures
        is_canonical(product_operands(c)),
        produced_from(product_operands(c), c),
        product_operands(product_operands(c)) == product_operands(c),
{
    reveal(product_operands);
    let r = rational_part(c);
    let p = plains(c);
    let s = squared(p);
    let j = join(r, s, 1);
    let y = canonical(j);
    let e = Seq::<Term>::empty();
    lemma_rational_part(c);
    lemma_plains_part(c);
    lemma_squared_keeps(p);
    lemma_made_from_selection(s, p, c);
    lemma_canonical_permutes(j);
    lemma_keep_elements(r, whole());
    lemma_keep_elements(r, inverse());
    assert(all_whole(integers(r))) by {
        assert forall|i: int| 0 <= i < integers(r).len() implies #[trigger] integers(r)[i]
            is Integer by {
            assert(whole()(integers(r)[i]));
        }
    }
    assert(all_inverse(inverses(r))) by {
        assert forall|i: int| 0 <= i < inverses(r).len() implies is_reciprocal(
            #[trigger] inverses(r)[i],
        ) by {
            assert(inverse()(inverses(r)[i]));
        }
    }
    assert(produced_from(j, c)) by {
        assert forall|i: int| 0 <= i < j.len() implies c.contains(#[trigger] j[i]) || j[i]
            is Integer || is_reciprocal(j[i]) || is_square_from(j[i], c) by {
            if r == seq![Term::Integer(1)] && s.len() > 0 {
                assert(j[i] == s[i]);
            } else if i < r.len() {
                assert(j[i] == r[i]);
                if i < integers(r).len() {
                    assert(r[i] == integers(r)[i]);
                } else {
                    assert(r[i] == inverses(r)[i - integers(r).len()]);
                }
            } else {
                assert(j[i] == s[i - r.len()]);
            }
        }
    }
    assert(produced_from(y, c)) by {
        assert forall|i: int| 0 <= i < y.len() implies c.contains(#[trigger] y[i]) || y[i]
            is Integer || is_reciprocal(y[i]) || is_square_from(y[i], c) by {
            assert(j.contains(y[i]));
            let k = choose|k: int| 0 <= k < j.len() && j[k] == y[i];
            assert(c.contains(j[k]) || j[k] is Integer || is_reciprocal(j[k]) || is_square_from(
                j[k],
                c,
            ));
        }
    }
    lemma_canonical_permutes(s);
    assert(twin_free(canonical(s)));
    lemma_squared_fixed(canonical(s));
    lemma_keep_of_canonical(j, whole());
    lemma_keep_of_canonical(j, inverse());
    lemma_keep_of_canonical(j, plain());
    lemma_canonical_fixed(y);
    if r == seq![Term::Integer(1)] && s.len() > 0 {
        assert(all_whole(e));
        assert(all_inverse(e));
        lemma_parts_of_joined(e, e, s);
        assert(e + e + s =~= s);
        assert(canonical(e) =~= e) by {
            lemma_canonical_permutes(e);
        }
        assert(product_literals(y) == e);
        assert(inverse_literals(y) == e);
        assert(rational_part(y) =~= e);
        assert(e + y =~= y);
        assert(join(e, y, 1) == y);
    } else {
        lemma_parts_of_joined(integers(r), inverses(r), s);
        lemma_keep_canonical(r, whole());
        lemma_keep_canonical(r, inverse());
        lemma_canonical_fixed(integers(r));
        lemma_canonical_fixed(inverses(r));
        lemma_rational_part_again(y, r);
        let again = r + canonical(s);
        assert(join(r, canonical(s), 1) == again);
        assert(again.to_multiset() =~= j.to_multiset()) by {
            lemma_multiset_commutative(r, canonical(s));
            lemma_multiset_commutative(r, s);
        }
        lemma_canonical_of_permutation(again, j);
    }
}

} // verus!

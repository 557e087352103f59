//! Laws of simplification: a simplified term is settled, so that simplifying it
//! again changes nothing; a term minus itself is zero; a negation times itself is
//! a square.
use crate::classification::is_symbolic;
use crate::simplify::lemmas::{
    all_inverse, all_plain, all_whole, drawn_from, lemma_parts_of_joined, lemma_product_stage,
    lemma_single_canonical, lemma_single_literal, lemma_sum_stage, lemma_twin, produced_from,
};
use crate::simplify::spec::{
    denominator_of, inverse_literals, is_negation, is_reciprocal, is_sign_pair, join, negate,
    negated, product, product_literals, product_operands, rational_part, reciprocal, reducible,
    simplify, simplify_each, simplify_product, simplify_sum, square, squared, sum_operands, twin,
    MINUS_ONE,
};
use crate::term::{
    canonical, is_canonical, lemma_canonical_fixed, lemma_canonical_permutes, lemma_rank_decides,
    term_order, Term,
};
use vstd::prelude::*;

verus! {

/// A term is settled when simplifying it changes nothing, and the same holds of
/// everything inside it.
pub open spec fn settled(t: Term) -> bool
    decreases t,
{
    &&& simplify(t) == t
    &&& match t {
        Term::Power(a, b) => settled(*a) && settled(*b),
        Term::Logarithm(a, b) => settled(*a) && settled(*b),
        Term::Quotient(a, b) => settled(*a) && settled(*b),
        Term::Difference(a, b) => settled(*a) && settled(*b),
        Term::Sine(a) => settled(*a),
        Term::Cosine(a) => settled(*a),
        Term::Product(ops) => forall|i: int| 0 <= i < ops.len() ==> settled(#[trigger] ops[i]),
        Term::Sum(ops) => forall|i: int| 0 <= i < ops.len() ==> settled(#[trigger] ops[i]),
        _ => true,
    }
}

/// All operands of a list are settled.
pub open spec fn all_settled(ops: Seq<Term>) -> bool {
    forall|i: int| 0 <= i < ops.len() ==> settled(#[trigger] ops[i])
}

/// Simplifying each operand of a settled list changes nothing.
pub proof fn lemma_each_settled(ops: Seq<Term>)
    requires
        all_settled(ops),
    ensures
        simplify_each(ops) == ops,
{
    assert(simplify_each(ops) =~= ops);
}

/// The canonical arrangement of settled operands is settled.
pub proof fn lemma_canonical_settled(ops: Seq<Term>)
    requires
        all_settled(ops),
    ensures
        all_settled(canonical(ops)),
        is_canonical(canonical(ops)),
{
    lemma_canonical_permutes(ops);
    assert forall|i: int| 0 <= i < canonical(ops).len() implies settled(
        #[trigger] canonical(ops)[i],
    ) by {
        let x = canonical(ops)[i];
        assert(ops.contains(x));
        let j = choose|j: int| 0 <= j < ops.len() && ops[j] == x;
        assert(settled(ops[j]));
    }
}

/// An integer literal is settled.
pub proof fn lemma_integer_settled(v: i64)
    ensures
        settled(Term::Integer(v)),
{
}

/// `1 / d` is settled.
pub proof fn lemma_reciprocal_settled(d: i64)
    ensures
        settled(reciprocal(d)),
{
    lemma_integer_settled(d);
    lemma_integer_settled(MINUS_ONE);
}

/// Operands that are settled operands or integer literals are settled.
pub proof fn lemma_drawn_settled(r: Seq<Term>, c: Seq<Term>)
    requires
        drawn_from(r, c),
        all_settled(c),
    ensures
        all_settled(r),
{
    assert forall|i: int| 0 <= i < r.len() implies settled(#[trigger] r[i]) by {
        if c.contains(r[i]) {
            let j = choose|j: int| 0 <= j < c.len() && c[j] == r[i];
            assert(settled(c[j]));
        }
    }
}

/// The simplified sum of settled operands in canonical order is settled.
pub proof fn lemma_sum_settles(c: Seq<Term>)
    requires
        is_canonical(c),
        all_settled(c),
    ensures
        settled(simplify_sum(c)),
{
    reveal(simplify_sum);
    let r = sum_operands(c);
    lemma_sum_stage(c);
    lemma_drawn_settled(r, c);
    if r.len() >= 2 {
        lemma_each_settled(r);
        lemma_canonical_fixed(r);
        assert(simplify(Term::Sum(r)) == simplify_sum(r));
    }
}

/// The square of a settled term is settled.
pub proof fn lemma_square_settled(w: Term)
    requires
        settled(w),
    ensures
        settled(square(w)),
{
    lemma_integer_settled(2);
}

/// Operands that are produced from settled operands are settled.
pub proof fn lemma_produced_settled(r: Seq<Term>, c: Seq<Term>)
    requires
        produced_from(r, c),
        all_settled(c),
    ensures
        all_settled(r),
{
    assert forall|i: int| 0 <= i < r.len() implies settled(#[trigger] r[i]) by {
        let t = r[i];
        if c.contains(t) {
            let j = choose|j: int| 0 <= j < c.len() && c[j] == t;
            assert(settled(c[j]));
        } else if t is Integer {
        } else if is_reciprocal(t) {
            assert(t == reciprocal(denominator_of(t)));
            lemma_reciprocal_settled(denominator_of(t));
        } else {
            let j = choose|j: int|
                0 <= j < c.len() && is_negation(#[trigger] c[j]) && t == square(negated(c[j]));
            assert(settled(c[j]));
            assert(settled(c[j]->Product_0[1]));
            lemma_square_settled(negated(c[j]));
        }
    }
}

/// The simplified product of settled operands in canonical order is settled.
pub proof fn lemma_product_settles(c: Seq<Term>)
    requires
        is_canonical(c),
        all_settled(c),
    ensures
        settled(simplify_product(c)),
{
    reveal(simplify_product);
    let r = product_operands(c);
    lemma_product_stage(c);
    lemma_produced_settled(r, c);
    if r.len() == 0 {
    } else if r.len() == 1 {
        assert(settled(r[0]));
    } else if is_sign_pair(r) {
    } else {
        lemma_each_settled(r);
        lemma_canonical_fixed(r);
        assert(simplify(Term::Product(r)) == simplify_product(r));
    }
}

/// Two settled terms in canonical order are settled operands.
pub proof fn lemma_pair_settled(x: Term, y: Term)
    requires
        settled(x),
        settled(y),
    ensures
        all_settled(canonical(seq![x, y])),
        is_canonical(canonical(seq![x, y])),
{
    let ops = seq![x, y];
    assert(all_settled(ops));
    lemma_canonical_settled(ops);
}

/// The simplified negation of a settled term is settled.
pub proof fn lemma_negate_settles(t: Term)
    requires
        settled(t),
    ensures
        settled(negate(t)),
{
    lemma_integer_settled(MINUS_ONE);
    lemma_pair_settled(Term::Integer(MINUS_ONE), t);
    lemma_product_settles(canonical(seq![Term::Integer(MINUS_ONE), t]));
}

/// Whatever is simplified is settled.
pub proof fn lemma_simplify_settles(t: Term)
    ensures
        settled(simplify(t)),
    decreases t,
{
    match t {
        Term::Power(a, b) => {
            lemma_simplify_settles(*a);
            lemma_simplify_settles(*b);
        },
        Term::Logarithm(a, b) => {
            lemma_simplify_settles(*a);
            lemma_simplify_settles(*b);
        },
        Term::Sine(a) => {
            lemma_simplify_settles(*a);
        },
        Term::Cosine(a) => {
            lemma_simplify_settles(*a);
        },
        Term::Product(ops) => {
            let e = simplify_each(ops);
            assert forall|i: int| 0 <= i < e.len() implies settled(#[trigger] e[i]) by {
                lemma_simplify_settles(ops[i]);
            }
            lemma_canonical_settled(e);
            lemma_product_settles(canonical(e));
        },
        Term::Sum(ops) => {
            let e = simplify_each(ops);
            assert forall|i: int| 0 <= i < e.len() implies settled(#[trigger] e[i]) by {
                lemma_simplify_settles(ops[i]);
            }
            lemma_canonical_settled(e);
            lemma_sum_settles(canonical(e));
        },
        Term::Quotient(a, b) => {
            lemma_simplify_settles(*a);
            lemma_simplify_settles(*b);
            let x = simplify(*a);
            let y = Term::Power(Box::new(simplify(*b)), Box::new(Term::Integer(MINUS_ONE)));
            lemma_integer_settled(MINUS_ONE);
            assert(settled(y));
            lemma_pair_settled(x, y);
            lemma_product_settles(canonical(seq![x, y]));
        },
        Term::Difference(a, b) => {
            lemma_simplify_settles(*a);
            lemma_simplify_settles(*b);
            let x = simplify(*a);
            let y = simplify(*b);
            if x != y {
                lemma_negate_settles(y);
                lemma_pair_settled(x, negate(y));
                lemma_sum_settles(canonical(seq![x, negate(y)]));
            }
        },
        _ => {},
    }
}

/// Simplifying twice is simplifying once.
pub proof fn lemma_simplify_idempotent(t: Term)
    ensures
        simplify(simplify(t)) == simplify(t),
{
    lemma_simplify_settles(t);
}

/// `-t`, as the product of the integer `-1` and `t`.
pub open spec fn negation(t: Term) -> Term {
    Term::Product(canonical(seq![Term::Integer(MINUS_ONE), t]))
}

/// A term minus itself simplifies to zero.
pub proof fn lemma_difference_of_equals(a: Term)
    ensures
        simplify(Term::Difference(Box::new(a), Box::new(a))) == Term::Integer(0),
{
}

/// Two terms in canonical order are the two terms, one way round or the other.
pub proof fn lemma_canonical_pair(x: Term, y: Term)
    ensures
        canonical(seq![x, y]) == seq![x, y] || canonical(seq![x, y]) == seq![y, x],
{
    let c = canonical(seq![x, y]);
    let given = seq![x, y];
    lemma_canonical_permutes(given);
    given.to_multiset_ensures();
    c.to_multiset_ensures();
    assert(given[0] == x && given[1] == y);
    assert(given.contains(x));
    assert(given.contains(y));
    assert(c.to_multiset().count(x) > 0);
    assert(c.to_multiset().count(y) > 0);
    assert(c.contains(x));
    assert(c.contains(y));
    assert(given.contains(c[0]));
    assert(given.contains(c[1]));
    let i = choose|i: int| 0 <= i < c.len() && c[i] == x;
    let j = choose|j: int| 0 <= j < c.len() && c[j] == y;
    if c[0] == x {
        if c[1] != y {
            assert(j == 0);
        }
        assert(c =~= seq![x, y]);
    } else {
        assert(i == 1);
        if c[0] != y {
            assert(j == 1);
        }
        assert(c =~= seq![y, x]);
    }
}

/// Simplifying the two operands of a pair and putting them in canonical order
/// does not depend on the order they had.
pub proof fn lemma_simplified_pair(x: Term, y: Term)
    ensures
        canonical(simplify_each(canonical(seq![x, y]))) == canonical(
            seq![simplify(x), simplify(y)],
        ),
{
    lemma_canonical_pair(x, y);
    let c = canonical(seq![x, y]);
    if c == seq![x, y] {
        assert(simplify_each(c) =~= seq![simplify(x), simplify(y)]);
    } else {
        assert(simplify_each(c) =~= seq![simplify(y), simplify(x)]);
        lemma_canonical_pair(simplify(y), simplify(x));
        lemma_canonical_pair(simplify(x), simplify(y));
        let a = seq![simplify(y), simplify(x)];
        let b = seq![simplify(x), simplify(y)];
        assert(a.to_multiset() =~= b.to_multiset()) by {
            a.to_multiset_ensures();
            b.to_multiset_ensures();
            assert(a =~= seq![simplify(y)].push(simplify(x)));
            assert(b =~= seq![simplify(x)].push(simplify(y)));
            seq![simplify(y)].to_multiset_ensures();
            seq![simplify(x)].to_multiset_ensures();
            assert(seq![simplify(y)] =~= Seq::<Term>::empty().push(simplify(y)));
            assert(seq![simplify(x)] =~= Seq::<Term>::empty().push(simplify(x)));
            Seq::<Term>::empty().to_multiset_ensures();
        }
        crate::term::lemma_canonical_of_permutation(a, b);
    }
}

/// Simplifying a negation is negating what is simplified.
pub proof fn lemma_simplify_negation(a: Term)
    ensures
        simplify(negation(a)) == negate(simplify(a)),
{
    lemma_simplified_pair(Term::Integer(MINUS_ONE), a);
}

/// A list of one operand squared is the list.
pub proof fn lemma_squared_single(t: Term)
    ensures
        squared(seq![t]) == seq![t],
{
    let s = seq![t];
    assert(s.drop_last() =~= Seq::<Term>::empty());
    assert(squared(s.drop_last()) =~= Seq::<Term>::empty());
    assert(Seq::<Term>::empty().push(t) =~= s);
}

/// The simplified negation of a symbolic term is the product of `-1` and the
/// term.
pub proof fn lemma_negate_symbolic(s: Term)
    requires
        is_symbolic(s),
    ensures
        negate(s) == Term::Product(seq![Term::Integer(MINUS_ONE), s]),
        is_negation(negate(s)),
        negated(negate(s)) == s,
{
    reveal(simplify_product);
    reveal(product_operands);
    let m = Term::Integer(MINUS_ONE);
    let n = seq![m];
    let e = Seq::<Term>::empty();
    let rest = seq![s];
    let ops = seq![m, s];
    assert(ops =~= n + e + rest);
    assert(all_whole(n));
    assert(all_inverse(e));
    assert(all_plain(rest));
    assert(is_canonical(ops)) by {
        assert forall|i: int, j: int| 0 <= i < j < ops.len() implies #[trigger] term_order()(
            ops[i],
            ops[j],
        ) by {
            lemma_rank_decides(ops[0], ops[1]);
        }
    }
    lemma_canonical_fixed(ops);
    lemma_parts_of_joined(n, e, rest);
    lemma_single_literal(MINUS_ONE);
    assert(product_literals(ops) == n);
    assert(inverse_literals(ops) == e);
    assert(!reducible(n, e));
    assert(n + e =~= n);
    assert(rational_part(ops) == n);
    lemma_squared_single(s);
    assert(n != seq![Term::Integer(1)]) by {
        assert(n[0] != seq![Term::Integer(1)][0]);
    }
    assert(join(n, rest, 1) =~= ops);
    assert(product_operands(ops) == ops);
    assert(!is_sign_pair(ops));
}

/// The product of a negation with itself simplifies to a square.
pub proof fn lemma_square_of_negation(u: Term)
    requires
        is_negation(u),
    ensures
        simplify_product(canonical(seq![u, u])) == square(negated(u)),
{
    reveal(simplify_product);
    reveal(product_operands);
    let e = Seq::<Term>::empty();
    let ops = seq![u, u];
    let q = square(negated(u));
    assert(ops =~= e + e + ops);
    assert(all_whole(e));
    assert(all_inverse(e));
    assert(all_plain(ops));
    assert(is_canonical(ops)) by {
        assert forall|i: int, j: int| 0 <= i < j < ops.len() implies #[trigger] term_order()(
            ops[i],
            ops[j],
        ) by {
            assert(ops[i] == ops[j]);
        }
    }
    lemma_canonical_fixed(ops);
    lemma_parts_of_joined(e, e, ops);
    assert(product_literals(ops) == e);
    assert(inverse_literals(ops) == e);
    assert(!reducible(e, e));
    assert(rational_part(ops) =~= e);
    assert(ops.drop_last() =~= seq![u]);
    lemma_squared_single(u);
    lemma_twin(seq![u], u);
    assert(seq![u][0] == u);
    assert(twin(seq![u], u) == 0);
    assert(seq![u].remove(0).push(q) =~= seq![q]);
    assert(squared(ops) == seq![q]);
    assert(join(e, seq![q], 1) =~= seq![q]);
    lemma_single_canonical(q);
    lemma_canonical_fixed(seq![q]);
    assert(product_operands(ops) == seq![q]);
}

/// `(-1) * (-1)` simplifies to `1`.
pub proof fn lemma_minus_one_squared()
    ensures
        simplify(
            Term::Product(canonical(seq![Term::Integer(MINUS_ONE), Term::Integer(MINUS_ONE)])),
        ) == Term::Integer(1),
{
    reveal(simplify_product);
    reveal(product_operands);
    let m = Term::Integer(MINUS_ONE);
    let e = Seq::<Term>::empty();
    let ops = seq![m, m];
    let one = seq![Term::Integer(1)];
    assert(ops =~= ops + e + e);
    assert(all_whole(ops));
    assert(all_inverse(e));
    assert(all_plain(e));
    assert(is_canonical(ops)) by {
        assert forall|i: int, j: int| 0 <= i < j < ops.len() implies #[trigger] term_order()(
            ops[i],
            ops[j],
        ) by {
            assert(ops[i] == ops[j]);
        }
    }
    lemma_canonical_fixed(ops);
    assert(simplify_each(ops) =~= ops);
    lemma_parts_of_joined(ops, e, e);
    assert(ops.drop_last() =~= seq![m]);
    lemma_single_literal(MINUS_ONE);
    assert(product(ops) == 1) by {
        assert((-1) * (-1) == 1);
    }
    assert(product_literals(ops) == one);
    assert(inverse_literals(ops) == e);
    assert(!reducible(one, e));
    assert(one + e =~= one);
    assert(rational_part(ops) == one);
    assert(squared(e) =~= e);
    assert(join(one, e, 1) =~= one);
    lemma_single_canonical(Term::Integer(1));
    lemma_canonical_fixed(one);
    assert(product_operands(ops) == one);
}

/// For a term `a` that simplifies to a symbolic term, `(-a) * (-a)` simplifies
/// to what `a ^ 2` simplifies to.
pub proof fn lemma_negations_multiply_to_square(a: Term)
    requires
        is_symbolic(simplify(a)),
    ensures
        simplify(Term::Product(canonical(seq![negation(a), negation(a)]))) == simplify(square(a)),
{
    let s = simplify(a);
    let u = negate(s);
    let n = negation(a);
    lemma_simplify_negation(a);
    lemma_simplified_pair(n, n);
    lemma_negate_symbolic(s);
    lemma_square_of_negation(u);
    assert(simplify(Term::Product(canonical(seq![n, n]))) == simplify_product(
        canonical(simplify_each(canonical(seq![n, n]))),
    ));
    assert(simplify(Term::Integer(2)) == Term::Integer(2));
}

} // verus!

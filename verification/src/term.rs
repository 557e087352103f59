//! The mathematical model of expression trees and the canonical total order on it.
//!
//! Every executable expression is viewed as a [`Term`]. The order defined here is the
//! one that operand lists of sums and products are kept sorted by, so that two
//! commutative nodes built from the same operands in any order are the same value.
//!
//! The order ranks terms by kind first:
//!
//! | rank | kind |
//! |------|------|
//! | 0 | integer literal |
//! | 1 | real literal |
//! | 2 | bound constant |
//! | 3 | free variable |
//! | 4 | power |
//! | 5 | logarithm |
//! | 6 | sine |
//! | 7 | cosine |
//! | 8 | product |
//! | 9 | sum |
//! | 10 | quotient |
//! | 11 | difference |
//!
//! Two terms of one kind are ordered by their contents: integers by value, reals by
//! the total order of IEEE 754 (negative numbers before positive ones, each by
//! magnitude, `-0` before `+0`, NaNs at the two ends), symbols by the UTF-8 bytes of
//! their label (and then, for constants, by the value as a real), binary nodes by the
//! first child and then the second, unary nodes by their argument, and sums and
//! products lexicographically by their operand lists.
use vstd::prelude::*;
use vstd::relations::*;
use vstd::seq_lib::*;
use vstd::utf8::*;

verus! {

/// The value of an expression tree.
///
/// Real numbers are carried as IEEE-754 binary64 bit patterns; they are ordered and
/// classified, never computed with.
pub enum Term {
    Integer(i64),
    Real(u64),
    Constant(Seq<char>, u64),
    Variable(Seq<char>),
    Power(Box<Term>, Box<Term>),
    Logarithm(Box<Term>, Box<Term>),
    Sine(Box<Term>),
    Cosine(Box<Term>),
    Product(Seq<Term>),
    Sum(Seq<Term>),
    Quotient(Box<Term>, Box<Term>),
    Difference(Box<Term>, Box<Term>),
}

/// The position of a term's kind in the kind ordering.
pub open spec fn rank(t: Term) -> int {
    match t {
        Term::Integer(_) => 0,
        Term::Real(_) => 1,
        Term::Constant(_, _) => 2,
        Term::Variable(_) => 3,
        Term::Power(_, _) => 4,
        Term::Logarithm(_, _) => 5,
        Term::Sine(_) => 6,
        Term::Cosine(_) => 7,
        Term::Product(_) => 8,
        Term::Sum(_) => 9,
        Term::Quotient(_, _) => 10,
        Term::Difference(_, _) => 11,
    }
}

/// The place of a real number, given as its bit pattern, in the total order of
/// IEEE 754: bit patterns with the sign bit set count down from the middle,
/// the others count up from it.
pub open spec fn real_key(bits: u64) -> int {
    if bits >= 0x8000_0000_0000_0000 {
        0xffff_ffff_ffff_ffff - bits
    } else {
        bits + 0x8000_0000_0000_0000
    }
}

/// Strict lexicographic order on byte strings.
pub open spec fn bytes_lt(a: Seq<u8>, b: Seq<u8>) -> bool
    decreases a.len(),
{
    if b.len() == 0 {
        false
    } else if a.len() == 0 {
        true
    } else if a[0] == b[0] {
        bytes_lt(a.drop_first(), b.drop_first())
    } else {
        a[0] < b[0]
    }
}

/// Strict order on labels: lexicographic on their UTF-8 encoding.
pub open spec fn label_lt(a: Seq<char>, b: Seq<char>) -> bool {
    bytes_lt(encode_utf8(a), encode_utf8(b))
}

/// The canonical strict order on terms.
#[verifier::opaque]
pub open spec fn term_lt(a: Term, b: Term) -> bool
    decreases a,
{
    if rank(a) != rank(b) {
        rank(a) < rank(b)
    } else {
        match (a, b) {
            (Term::Integer(x), Term::Integer(y)) => x < y,
            (Term::Real(x), Term::Real(y)) => real_key(x) < real_key(y),
            (Term::Constant(l, v), Term::Constant(m, w)) => label_lt(l, m) || (l == m && real_key(v)
                < real_key(w)),
            (Term::Variable(l), Term::Variable(m)) => label_lt(l, m),
            (Term::Power(a1, a2), Term::Power(b1, b2)) => term_lt(*a1, *b1) || (*a1 == *b1
                && term_lt(*a2, *b2)),
            (Term::Logarithm(a1, a2), Term::Logarithm(b1, b2)) => term_lt(*a1, *b1) || (*a1
                == *b1 && term_lt(*a2, *b2)),
            (Term::Sine(x), Term::Sine(y)) => term_lt(*x, *y),
            (Term::Cosine(x), Term::Cosine(y)) => term_lt(*x, *y),
            (Term::Product(xs), Term::Product(ys)) => terms_lt(xs, ys),
            (Term::Sum(xs), Term::Sum(ys)) => terms_lt(xs, ys),
            (Term::Quotient(a1, a2), Term::Quotient(b1, b2)) => term_lt(*a1, *b1) || (*a1
                == *b1 && term_lt(*a2, *b2)),
            (Term::Difference(a1, a2), Term::Difference(b1, b2)) => term_lt(*a1, *b1) || (*a1
                == *b1 && term_lt(*a2, *b2)),
            _ => false,
        }
    }
}

/// Strict lexicographic order on operand lists: the first position at which the
/// lists differ decides, and a proper prefix comes first.
pub open spec fn terms_lt(xs: Seq<Term>, ys: Seq<Term>) -> bool
    decreases xs,
{
    if ys.len() == 0 {
        false
    } else if xs.len() == 0 {
        true
    } else if xs[0] == ys[0] {
        terms_lt(xs.drop_first(), ys.drop_first())
    } else {
        term_lt(xs[0], ys[0])
    }
}

/// The canonical non-strict order on terms.
pub open spec fn term_le(a: Term, b: Term) -> bool {
    a == b || term_lt(a, b)
}

/// `term_le` as a relation value, for the sequence library.
pub open spec fn term_order() -> spec_fn(Term, Term) -> bool {
    |a: Term, b: Term| term_le(a, b)
}

/// An operand list is canonical when it is sorted by the canonical order.
pub open spec fn is_canonical(ops: Seq<Term>) -> bool {
    sorted_by(ops, term_order())
}

/// The canonical arrangement of an operand list: the same operands, duplicates
/// kept, sorted by the canonical order.
pub open spec fn canonical(ops: Seq<Term>) -> Seq<Term> {
    ops.sort_by(term_order())
}

// ---------------------------------------------------------------------------
// Byte strings
// ---------------------------------------------------------------------------
/// No byte string comes before itself.
pub proof fn lemma_bytes_lt_irreflexive(a: Seq<u8>)
    ensures
        !bytes_lt(a, a),
    decreases a.len(),
{
    if a.len() > 0 {
        lemma_bytes_lt_irreflexive(a.drop_first());
    }
}

/// Of two different byte strings one comes before the other.
pub proof fn lemma_bytes_lt_connected(a: Seq<u8>, b: Seq<u8>)
    ensures
        a == b || bytes_lt(a, b) || bytes_lt(b, a),
    decreases a.len(),
{
    if a.len() == 0 || b.len() == 0 {
        if a.len() == 0 && b.len() == 0 {
            assert(a =~= b);
        }
    } else if a[0] == b[0] {
        lemma_bytes_lt_connected(a.drop_first(), b.drop_first());
        if a.drop_first() == b.drop_first() {
            assert(a =~= seq![a[0]] + a.drop_first());
            assert(b =~= seq![b[0]] + b.drop_first());
        }
    }
}

/// If one byte string comes before another, the other does not come before it.
pub proof fn lemma_bytes_lt_asymmetric(a: Seq<u8>, b: Seq<u8>)
    requires
        bytes_lt(a, b),
    ensures
        !bytes_lt(b, a),
    decreases a.len(),
{
    if a.len() > 0 && b.len() > 0 && a[0] == b[0] {
        lemma_bytes_lt_asymmetric(a.drop_first(), b.drop_first());
    }
}

/// The order on byte strings passes along chains.
pub proof fn lemma_bytes_lt_transitive(a: Seq<u8>, b: Seq<u8>, c: Seq<u8>)
    requires
        bytes_lt(a, b),
        bytes_lt(b, c),
    ensures
        bytes_lt(a, c),
    decreases a.len(),
{
    if a.len() > 0 && b.len() > 0 && c.len() > 0 && a[0] == b[0] && b[0] == c[0] {
        lemma_bytes_lt_transitive(a.drop_first(), b.drop_first(), c.drop_first());
    }
}

/// Comparing from position `i` on decides, when the lists agree before it.
pub proof fn lemma_bytes_lt_from(a: Seq<u8>, b: Seq<u8>, i: int)
    requires
        0 <= i <= a.len(),
        i <= b.len(),
        forall|j: int| 0 <= j < i ==> a[j] == b[j],
    ensures
        bytes_lt(a, b) == bytes_lt(a.skip(i), b.skip(i)),
    decreases i,
{
    if i == 0 {
        assert(a.skip(0) =~= a);
        assert(b.skip(0) =~= b);
    } else {
        lemma_bytes_lt_from(a.drop_first(), b.drop_first(), i - 1);
        assert(a.drop_first().skip(i - 1) =~= a.skip(i));
        assert(b.drop_first().skip(i - 1) =~= b.skip(i));
    }
}

/// Two labels with the same UTF-8 encoding are the same label.
pub proof fn lemma_encoding_injective(a: Seq<char>, b: Seq<char>)
    requires
        encode_utf8(a) == encode_utf8(b),
    ensures
        a == b,
{
    encode_utf8_decode_utf8(a);
    encode_utf8_decode_utf8(b);
}

/// Of two different labels one comes before the other.
pub proof fn lemma_label_lt_connected(a: Seq<char>, b: Seq<char>)
    ensures
        a == b || label_lt(a, b) || label_lt(b, a),
{
    lemma_bytes_lt_connected(encode_utf8(a), encode_utf8(b));
    if encode_utf8(a) == encode_utf8(b) {
        lemma_encoding_injective(a, b);
    }
}

// ---------------------------------------------------------------------------
// Terms
// ---------------------------------------------------------------------------
/// No term comes before itself.
pub proof fn lemma_term_lt_irreflexive(a: Term)
    ensures
        !term_lt(a, a),
    decreases a,
{
    reveal(term_lt);
    match a {
        Term::Constant(l, _) => {
            lemma_bytes_lt_irreflexive(encode_utf8(l));
        },
        Term::Variable(l) => {
            lemma_bytes_lt_irreflexive(encode_utf8(l));
        },
        Term::Power(x, y) => {
            lemma_term_lt_irreflexive(*x);
            lemma_term_lt_irreflexive(*y);
        },
        Term::Logarithm(x, y) => {
            lemma_term_lt_irreflexive(*x);
            lemma_term_lt_irreflexive(*y);
        },
        Term::Quotient(x, y) => {
            lemma_term_lt_irreflexive(*x);
            lemma_term_lt_irreflexive(*y);
        },
        Term::Difference(x, y) => {
            lemma_term_lt_irreflexive(*x);
            lemma_term_lt_irreflexive(*y);
        },
        Term::Sine(x) => {
            lemma_term_lt_irreflexive(*x);
        },
        Term::Cosine(x) => {
            lemma_term_lt_irreflexive(*x);
        },
        Term::Product(xs) => {
            lemma_terms_lt_irreflexive(xs);
        },
        Term::Sum(xs) => {
            lemma_terms_lt_irreflexive(xs);
        },
        _ => {},
    }
}

/// No operand list comes before itself.
pub proof fn lemma_terms_lt_irreflexive(xs: Seq<Term>)
    ensures
        !terms_lt(xs, xs),
    decreases xs,
{
    reveal(term_lt);
    if xs.len() > 0 {
        lemma_terms_lt_irreflexive(xs.drop_first());
    }
}

/// Of two different terms one comes before the other.
pub proof fn lemma_term_lt_connected(a: Term, b: Term)
    ensures
        a == b || term_lt(a, b) || term_lt(b, a),
    decreases a,
{
    reveal(term_lt);
    if rank(a) == rank(b) {
        match (a, b) {
            (Term::Constant(l, v), Term::Constant(m, w)) => {
                lemma_label_lt_connected(l, m);
            },
            (Term::Variable(l), Term::Variable(m)) => {
                lemma_label_lt_connected(l, m);
            },
            (Term::Power(a1, a2), Term::Power(b1, b2)) => {
                lemma_term_lt_connected(*a1, *b1);
                lemma_term_lt_connected(*a2, *b2);
            },
            (Term::Logarithm(a1, a2), Term::Logarithm(b1, b2)) => {
                lemma_term_lt_connected(*a1, *b1);
                lemma_term_lt_connected(*a2, *b2);
            },
            (Term::Quotient(a1, a2), Term::Quotient(b1, b2)) => {
                lemma_term_lt_connected(*a1, *b1);
                lemma_term_lt_connected(*a2, *b2);
            },
            (Term::Difference(a1, a2), Term::Difference(b1, b2)) => {
                lemma_term_lt_connected(*a1, *b1);
                lemma_term_lt_connected(*a2, *b2);
            },
            (Term::Sine(x), Term::Sine(y)) => {
                lemma_term_lt_connected(*x, *y);
            },
            (Term::Cosine(x), Term::Cosine(y)) => {
                lemma_term_lt_connected(*x, *y);
            },
            (Term::Product(xs), Term::Product(ys)) => {
                lemma_terms_lt_connected(xs, ys);
            },
            (Term::Sum(xs), Term::Sum(ys)) => {
                lemma_terms_lt_connected(xs, ys);
            },
            _ => {},
        }
    }
}

/// Of two different operand lists one comes before the other.
pub proof fn lemma_terms_lt_connected(xs: Seq<Term>, ys: Seq<Term>)
    ensures
        xs == ys || terms_lt(xs, ys) || terms_lt(ys, xs),
    decreases xs,
{
    reveal(term_lt);
    if xs.len() == 0 || ys.len() == 0 {
        if xs.len() == 0 && ys.len() == 0 {
            assert(xs =~= ys);
        }
    } else if xs[0] == ys[0] {
        lemma_terms_lt_connected(xs.drop_first(), ys.drop_first());
        if xs.drop_first() == ys.drop_first() {
            assert(xs =~= seq![xs[0]] + xs.drop_first());
            assert(ys =~= seq![ys[0]] + ys.drop_first());
        }
    } else {
        lemma_term_lt_connected(xs[0], ys[0]);
    }
}

/// If one term comes before another, the other does not come before it.
pub proof fn lemma_term_lt_asymmetric(a: Term, b: Term)
    requires
        term_lt(a, b),
    ensures
        !term_lt(b, a),
    decreases a,
{
    reveal(term_lt);
    if rank(a) == rank(b) {
        match (a, b) {
            (Term::Constant(l, v), Term::Constant(m, w)) => {
                if label_lt(l, m) {
                    lemma_bytes_lt_asymmetric(encode_utf8(l), encode_utf8(m));
                    lemma_bytes_lt_irreflexive(encode_utf8(l));
                } else {
                    lemma_bytes_lt_irreflexive(encode_utf8(l));
                }
            },
            (Term::Variable(l), Term::Variable(m)) => {
                lemma_bytes_lt_asymmetric(encode_utf8(l), encode_utf8(m));
            },
            (Term::Power(a1, a2), Term::Power(b1, b2)) => {
                if term_lt(*a1, *b1) {
                    lemma_term_lt_asymmetric(*a1, *b1);
                }
                if term_lt(*a2, *b2) {
                    lemma_term_lt_asymmetric(*a2, *b2);
                }
                lemma_term_lt_irreflexive(*a1);
            },
            (Term::Logarithm(a1, a2), Term::Logarithm(b1, b2)) => {
                if term_lt(*a1, *b1) {
                    lemma_term_lt_asymmetric(*a1, *b1);
                }
                if term_lt(*a2, *b2) {
                    lemma_term_lt_asymmetric(*a2, *b2);
                }
                lemma_term_lt_irreflexive(*a1);
            },
            (Term::Quotient(a1, a2), Term::Quotient(b1, b2)) => {
                if term_lt(*a1, *b1) {
                    lemma_term_lt_asymmetric(*a1, *b1);
                }
                if term_lt(*a2, *b2) {
                    lemma_term_lt_asymmetric(*a2, *b2);
                }
                lemma_term_lt_irreflexive(*a1);
            },
            (Term::Difference(a1, a2), Term::Difference(b1, b2)) => {
                if term_lt(*a1, *b1) {
                    lemma_term_lt_asymmetric(*a1, *b1);
                }
                if term_lt(*a2, *b2) {
                    lemma_term_lt_asymmetric(*a2, *b2);
                }
                lemma_term_lt_irreflexive(*a1);
            },
            (Term::Sine(x), Term::Sine(y)) => {
                lemma_term_lt_asymmetric(*x, *y);
            },
            (Term::Cosine(x), Term::Cosine(y)) => {
                lemma_term_lt_asymmetric(*x, *y);
            },
            (Term::Product(xs), Term::Product(ys)) => {
                lemma_terms_lt_asymmetric(xs, ys);
            },
            (Term::Sum(xs), Term::Sum(ys)) => {
                lemma_terms_lt_asymmetric(xs, ys);
            },
            _ => {},
        }
    }
}

/// If one operand list comes before another, the other does not come before it.
pub proof fn lemma_terms_lt_asymmetric(xs: Seq<Term>, ys: Seq<Term>)
    requires
        terms_lt(xs, ys),
    ensures
        !terms_lt(ys, xs),
    decreases xs,
{
    reveal(term_lt);
    if xs.len() > 0 && ys.len() > 0 {
        if xs[0] == ys[0] {
            lemma_terms_lt_asymmetric(xs.drop_first(), ys.drop_first());
        } else {
            lemma_term_lt_asymmetric(xs[0], ys[0]);
        }
    }
}

/// The order passes along chains.
pub proof fn lemma_term_lt_transitive(a: Term, b: Term, c: Term)
    requires
        term_lt(a, b),
        term_lt(b, c),
    ensures
        term_lt(a, c),
    decreases a,
{
    reveal(term_lt);
    if rank(a) == rank(b) && rank(b) == rank(c) {
        match (a, b, c) {
            (Term::Constant(l, v), Term::Constant(m, w), Term::Constant(n, x)) => {
                if label_lt(l, m) && label_lt(m, n) {
                    lemma_bytes_lt_transitive(encode_utf8(l), encode_utf8(m), encode_utf8(n));
                }
            },
            (Term::Variable(l), Term::Variable(m), Term::Variable(n)) => {
                lemma_bytes_lt_transitive(encode_utf8(l), encode_utf8(m), encode_utf8(n));
            },
            (Term::Power(a1, a2), Term::Power(b1, b2), Term::Power(c1, c2)) => {
                if term_lt(*a1, *b1) && term_lt(*b1, *c1) {
                    lemma_term_lt_transitive(*a1, *b1, *c1);
                }
                if term_lt(*a2, *b2) && term_lt(*b2, *c2) {
                    lemma_term_lt_transitive(*a2, *b2, *c2);
                }
            },
            (Term::Logarithm(a1, a2), Term::Logarithm(b1, b2), Term::Logarithm(c1, c2)) => {
                if term_lt(*a1, *b1) && term_lt(*b1, *c1) {
                    lemma_term_lt_transitive(*a1, *b1, *c1);
                }
                if term_lt(*a2, *b2) && term_lt(*b2, *c2) {
                    lemma_term_lt_transitive(*a2, *b2, *c2);
                }
            },
            (Term::Quotient(a1, a2), Term::Quotient(b1, b2), Term::Quotient(c1, c2)) => {
                if term_lt(*a1, *b1) && term_lt(*b1, *c1) {
                    lemma_term_lt_transitive(*a1, *b1, *c1);
                }
                if term_lt(*a2, *b2) && term_lt(*b2, *c2) {
                    lemma_term_lt_transitive(*a2, *b2, *c2);
                }
            },
            (Term::Difference(a1, a2), Term::Difference(b1, b2), Term::Difference(c1, c2)) => {
                if term_lt(*a1, *b1) && term_lt(*b1, *c1) {
                    lemma_term_lt_transitive(*a1, *b1, *c1);
                }
                if term_lt(*a2, *b2) && term_lt(*b2, *c2) {
                    lemma_term_lt_transitive(*a2, *b2, *c2);
                }
            },
            (Term::Sine(x), Term::Sine(y), Term::Sine(z)) => {
                lemma_term_lt_transitive(*x, *y, *z);
            },
            (Term::Cosine(x), Term::Cosine(y), Term::Cosine(z)) => {
                lemma_term_lt_transitive(*x, *y, *z);
            },
            (Term::Product(xs), Term::Product(ys), Term::Product(zs)) => {
                lemma_terms_lt_transitive(xs, ys, zs);
            },
            (Term::Sum(xs), Term::Sum(ys), Term::Sum(zs)) => {
                lemma_terms_lt_transitive(xs, ys, zs);
            },
            _ => {},
        }
    }
}

/// The order on operand lists passes along chains.
pub proof fn lemma_terms_lt_transitive(xs: Seq<Term>, ys: Seq<Term>, zs: Seq<Term>)
    requires
        terms_lt(xs, ys),
        terms_lt(ys, zs),
    ensures
        terms_lt(xs, zs),
    decreases xs,
{
    reveal(term_lt);
    if xs.len() > 0 && ys.len() > 0 && zs.len() > 0 {
        if xs[0] == ys[0] && ys[0] == zs[0] {
            lemma_terms_lt_transitive(xs.drop_first(), ys.drop_first(), zs.drop_first());
        } else if xs[0] != ys[0] && ys[0] != zs[0] {
            lemma_term_lt_transitive(xs[0], ys[0], zs[0]);
            lemma_term_lt_irreflexive(xs[0]);
        }
    }
}

/// Comparing from position `i` on decides, when the lists agree before it.
pub proof fn lemma_terms_lt_from(xs: Seq<Term>, ys: Seq<Term>, i: int)
    requires
        0 <= i <= xs.len(),
        i <= ys.len(),
        forall|j: int| 0 <= j < i ==> xs[j] == ys[j],
    ensures
        terms_lt(xs, ys) == terms_lt(xs.skip(i), ys.skip(i)),
    decreases i,
{
    reveal(term_lt);
    if i == 0 {
        assert(xs.skip(0) =~= xs);
        assert(ys.skip(0) =~= ys);
    } else {
        lemma_terms_lt_from(xs.drop_first(), ys.drop_first(), i - 1);
        assert(xs.drop_first().skip(i - 1) =~= xs.skip(i));
        assert(ys.drop_first().skip(i - 1) =~= ys.skip(i));
    }
}

/// A term of a lower kind comes before a term of a higher kind.
pub proof fn lemma_rank_decides(a: Term, b: Term)
    requires
        rank(a) != rank(b),
    ensures
        term_lt(a, b) == (rank(a) < rank(b)),
{
    reveal(term_lt);
}

/// Integer literals are ordered by their value.
pub proof fn lemma_integers_ordered(x: i64, y: i64)
    ensures
        term_lt(Term::Integer(x), Term::Integer(y)) == (x < y),
{
    reveal(term_lt);
}

/// The canonical order is a total order: reflexive, antisymmetric, transitive,
/// and any two terms are comparable.
pub proof fn lemma_term_order_total()
    ensures
        total_ordering(term_order()),
{
    let r = term_order();
    assert forall|x: Term, y: Term| #[trigger] r(x, y) && #[trigger] r(y, x) implies x == y by {
        if x != y {
            lemma_term_lt_asymmetric(x, y);
        }
    }
    assert forall|x: Term, y: Term, z: Term| #[trigger] r(x, y) && #[trigger] r(y, z) implies r(
        x,
        z,
    ) by {
        if x != y && y != z {
            lemma_term_lt_transitive(x, y, z);
        }
    }
    assert forall|x: Term, y: Term| #[trigger] r(x, y) || #[trigger] r(y, x) by {
        lemma_term_lt_connected(x, y);
    }
}

// ---------------------------------------------------------------------------
// Canonical operand lists
// ---------------------------------------------------------------------------
/// The canonical arrangement is sorted and holds the same operands, each as often
/// as the list it was made from.
pub proof fn lemma_canonical_permutes(ops: Seq<Term>)
    ensures
        is_canonical(canonical(ops)),
        canonical(ops).to_multiset() == ops.to_multiset(),
        canonical(ops).len() == ops.len(),
        forall|i: int|
            0 <= i < canonical(ops).len() ==> ops.contains(#[trigger] canonical(ops)[i]),
{
    lemma_term_order_total();
    ops.lemma_sort_by_ensures(term_order());
    ops.to_multiset_ensures();
    canonical(ops).to_multiset_ensures();
    assert forall|i: int| 0 <= i < canonical(ops).len() implies ops.contains(
        #[trigger] canonical(ops)[i],
    ) by {
        let x = canonical(ops)[i];
        assert(canonical(ops).contains(x));
    }
}

/// Two canonical lists with the same operands are the same list.
pub proof fn lemma_canonical_unique(a: Seq<Term>, b: Seq<Term>)
    requires
        is_canonical(a),
        is_canonical(b),
        a.to_multiset() == b.to_multiset(),
    ensures
        a == b,
{
    lemma_term_order_total();
    lemma_sorted_unique(a, b, term_order());
}

/// A list that is already canonical is its own canonical arrangement.
pub proof fn lemma_canonical_fixed(ops: Seq<Term>)
    requires
        is_canonical(ops),
    ensures
        canonical(ops) == ops,
{
    lemma_canonical_permutes(ops);
    lemma_canonical_unique(canonical(ops), ops);
}

/// Operand lists that are permutations of each other have the same canonical
/// arrangement: the order in which operands are given does not matter.
pub proof fn lemma_canonical_of_permutation(a: Seq<Term>, b: Seq<Term>)
    requires
        a.to_multiset() == b.to_multiset(),
    ensures
        canonical(a) == canonical(b),
{
    lemma_canonical_permutes(a);
    lemma_canonical_permutes(b);
    lemma_canonical_unique(canonical(a), canonical(b));
}

/// Two operand lists have the same canonical arrangement exactly when they are
/// permutations of each other: a sum or a product is the same term in whatever
/// order its operands are given, and in no other case.
pub proof fn lemma_canonical_iff_permutation(a: Seq<Term>, b: Seq<Term>)
    ensures
        canonical(a) == canonical(b) <==> a.to_multiset() == b.to_multiset(),
{
    lemma_canonical_permutes(a);
    lemma_canonical_permutes(b);
    if a.to_multiset() == b.to_multiset() {
        lemma_canonical_of_permutation(a, b);
    }
}

/// Putting `x` into a canonical list behind everything that does not come after
/// it and before everything that it precedes keeps the list canonical.
pub proof fn lemma_insert_keeps_canonical(s: Seq<Term>, k: int, x: Term)
    requires
        is_canonical(s),
        0 <= k <= s.len(),
        forall|j: int| 0 <= j < k ==> term_le(#[trigger] s[j], x),
        k < s.len() ==> term_lt(x, s[k]),
    ensures
        is_canonical(s.insert(k, x)),
{
    let t = s.insert(k, x);
    s.insert_ensures(k, x);
    assert forall|i: int, j: int| 0 <= i < j < t.len() implies #[trigger] term_order()(
        t[i],
        t[j],
    ) by {
        if j < k {
            assert(term_order()(s[i], s[j]));
        } else if j == k {
            assert(t[i] == s[i]);
        } else {
            assert(t[j] == s[j - 1]);
            if k < j - 1 {
                assert(term_order()(s[k], s[j - 1]));
            }
            if s[k] != s[j - 1] {
                lemma_term_lt_transitive(x, s[k], s[j - 1]);
            }
            if i < k {
                if x != s[j - 1] && t[i] != x {
                    lemma_term_lt_transitive(t[i], x, s[j - 1]);
                }
            } else if i > k {
                assert(t[i] == s[i - 1]);
                assert(term_order()(s[i - 1], s[j - 1]));
            }
        }
    }
}

/// Applying a function to every operand of two lists that are permutations of
/// each other gives two lists that are permutations of each other.
pub proof fn lemma_map_of_permutation(a: Seq<Term>, b: Seq<Term>, f: spec_fn(Term) -> Term)
    requires
        a.to_multiset() == b.to_multiset(),
    ensures
        a.map_values(f).to_multiset() == b.map_values(f).to_multiset(),
    decreases a.len(),
{
    a.to_multiset_ensures();
    b.to_multiset_ensures();
    if a.len() == 0 {
        assert(b.len() == 0);
        assert(a.map_values(f) =~= b.map_values(f));
    } else {
        let x = a.last();
        assert(a.contains(x)) by {
            assert(a[a.len() - 1] == x);
        }
        assert(b.to_multiset().count(x) > 0);
        assert(b.contains(x));
        let k = choose|k: int| 0 <= k < b.len() && b[k] == x;
        let a1 = a.drop_last();
        let b1 = b.remove(k);
        assert(a1 =~= a.remove(a.len() - 1));
        assert(a1.to_multiset() =~= b1.to_multiset());
        lemma_map_of_permutation(a1, b1, f);
        assert(a.map_values(f) =~= a1.map_values(f).push(f(x)));
        assert(b.map_values(f) =~= b1.map_values(f).insert(k, f(x)));
        a1.map_values(f).to_multiset_ensures();
        to_multiset_insert(b1.map_values(f), k, f(x));
    }
}

/// Applying a function to every operand and putting the results in canonical
/// order does not depend on the order that the operands had.
pub proof fn lemma_canonical_of_mapped(ops: Seq<Term>, f: spec_fn(Term) -> Term)
    ensures
        canonical(canonical(ops).map_values(f)) == canonical(ops.map_values(f)),
{
    lemma_canonical_permutes(ops);
    lemma_map_of_permutation(canonical(ops), ops, f);
    lemma_canonical_of_permutation(canonical(ops).map_values(f), ops.map_values(f));
}

} // verus!

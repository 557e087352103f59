//! Expression trees: the closed set of node kinds, their value as a [`Term`],
//! and structural clone, equality and comparison.
use crate::term::{
    canonical, is_canonical, label_lt, lemma_bytes_lt_from, lemma_canonical_permutes,
    lemma_canonical_unique, lemma_encoding_injective, lemma_insert_keeps_canonical,
    lemma_term_lt_asymmetric, lemma_term_lt_connected, lemma_term_lt_irreflexive,
    lemma_terms_lt_from, rank, real_key, term_le, term_lt, terms_lt, Term,
};
use std::cmp::Ordering;
use vstd::prelude::*;
use vstd::seq_lib::*;
use vstd::slice::*;
use vstd::std_specs::cmp::{PartialEqSpecImpl, PartialOrdSpecImpl};
use vstd::string::*;
use vstd::utf8::encode_utf8;

verus! {

/// The operands of a sum or a product, kept in canonical order. Duplicates stay.
#[derive(Debug, Hash)]
pub struct CommutativeAssociation {
    items: Vec<Expression>,
}

/// `left_hand_side - right_hand_side`.
#[derive(Debug, Hash)]
pub struct Subtraction {
    pub left_hand_side: Box<Expression>,
    pub right_hand_side: Box<Expression>,
}

/// `left_hand_side / right_hand_side`.
#[derive(Debug, Hash)]
pub struct Division {
    pub left_hand_side: Box<Expression>,
    pub right_hand_side: Box<Expression>,
}

/// `base ^ exp`.
#[derive(Debug, Hash)]
pub struct Power {
    pub base: Box<Expression>,
    pub exp: Box<Expression>,
}

/// The logarithm of `argument` to the base `base`.
#[derive(Debug, Hash)]
pub struct Logarithm {
    pub argument: Box<Expression>,
    pub base: Box<Expression>,
}

/// An algebraic expression.
///
/// A real number is held as its IEEE-754 binary64 bit pattern.
#[derive(Debug, Hash)]
pub enum Expression {
    Integer(i64),
    Real(u64),
    Constant(String, u64),
    Variable(String),
    Power(Power),
    Logarithm(Logarithm),
    Sin(Box<Expression>),
    Cos(Box<Expression>),
    Multiplication(CommutativeAssociation),
    Addition(CommutativeAssociation),
    Division(Division),
    Subtraction(Subtraction),
}

/// The terms of a list of expressions, element by element.
pub open spec fn terms_of(s: Seq<Expression>) -> Seq<Term>
    decreases s,
{
    Seq::new(
        s.len(),
        |i: int|
            if 0 <= i < s.len() {
                term_of(s[i])
            } else {
                Term::Integer(0)
            },
    )
}

/// The term that an expression stands for.
pub open spec fn term_of(e: Expression) -> Term
    decreases e,
{
    match e {
        Expression::Integer(v) => Term::Integer(v),
        Expression::Real(bits) => Term::Real(bits),
        Expression::Constant(label, bits) => Term::Constant(label@, bits),
        Expression::Variable(label) => Term::Variable(label@),
        Expression::Power(p) => Term::Power(Box::new(term_of(*p.base)), Box::new(term_of(*p.exp))),
        Expression::Logarithm(l) => Term::Logarithm(
            Box::new(term_of(*l.argument)),
            Box::new(term_of(*l.base)),
        ),
        Expression::Sin(a) => Term::Sine(Box::new(term_of(*a))),
        Expression::Cos(a) => Term::Cosine(Box::new(term_of(*a))),
        Expression::Multiplication(c) => Term::Product(c.operands()),
        Expression::Addition(c) => Term::Sum(c.operands()),
        Expression::Division(d) => Term::Quotient(
            Box::new(term_of(*d.left_hand_side)),
            Box::new(term_of(*d.right_hand_side)),
        ),
        Expression::Subtraction(s) => Term::Difference(
            Box::new(term_of(*s.left_hand_side)),
            Box::new(term_of(*s.right_hand_side)),
        ),
    }
}

impl CommutativeAssociation {
    /// The operands as terms, in the order in which they are held.
    pub closed spec fn operands(self) -> Seq<Term>
        decreases self,
    {
        terms_of(self.items@)
    }

    /// The operands as expressions, in the order in which they are held.
    pub closed spec fn elements(self) -> Seq<Expression> {
        self.items@
    }

    /// The operands as terms are the terms of the operands as expressions.
    pub proof fn lemma_elements(self)
        ensures
            self@ == terms_of(self.elements()),
            self@.len() == self.elements().len(),
    {
    }

    #[verifier::type_invariant]
    spec fn sorted(self) -> bool {
        is_canonical(self.operands())
    }
}

impl View for CommutativeAssociation {
    type V = Seq<Term>;

    open spec fn view(&self) -> Seq<Term> {
        self.operands()
    }
}

impl View for Expression {
    type V = Term;

    open spec fn view(&self) -> Term {
        term_of(*self)
    }
}

/// How the first of two values stands to the second in the canonical order.
#[derive(Clone, Copy, Debug, PartialEq, Eq, Structural)]
pub enum Precedence {
    Before,
    Same,
    After,
}

/// What a [`Precedence`] between two terms claims.
pub open spec fn precedence_holds(p: Precedence, a: Term, b: Term) -> bool {
    match p {
        Precedence::Before => term_lt(a, b),
        Precedence::Same => a == b,
        Precedence::After => term_lt(b, a),
    }
}

/// The kind rank of an expression.
fn rank_of(e: &Expression) -> (r: u8)
    ensures
        r == rank(e@),
{
    match e {
        Expression::Integer(_) => 0,
        Expression::Real(_) => 1,
        Expression::Constant(_, _) => 2,
        Expression::Variable(_) => 3,
        Expression::Power(_) => 4,
        Expression::Logarithm(_) => 5,
        Expression::Sin(_) => 6,
        Expression::Cos(_) => 7,
        Expression::Multiplication(_) => 8,
        Expression::Addition(_) => 9,
        Expression::Division(_) => 10,
        Expression::Subtraction(_) => 11,
    }
}

/// The place of a real number, given as its bit pattern, in the total order of
/// IEEE 754.
fn real_key_of(bits: u64) -> (k: u64)
    ensures
        k == real_key(bits),
{
    if bits >= 0x8000_0000_0000_0000 {
        0xffff_ffff_ffff_ffff - bits
    } else {
        bits + 0x8000_0000_0000_0000
    }
}

/// Orders two real numbers, given as bit patterns, by the total order of IEEE 754.
fn real_precedence(x: u64, y: u64) -> (p: Precedence)
    ensures
        match p {
            Precedence::Before => real_key(x) < real_key(y),
            Precedence::Same => x == y,
            Precedence::After => real_key(y) < real_key(x),
        },
{
    let a = real_key_of(x);
    let b = real_key_of(y);
    if a < b {
        Precedence::Before
    } else if a > b {
        Precedence::After
    } else {
        Precedence::Same
    }
}

/// Orders two labels by their UTF-8 bytes.
fn label_precedence(a: &String, b: &String) -> (p: Precedence)
    ensures
        match p {
            Precedence::Before => label_lt(a@, b@),
            Precedence::Same => a@ == b@,
            Precedence::After => label_lt(b@, a@),
        },
{
    let x = a.as_str().as_bytes();
    let y = b.as_str().as_bytes();
    let mut i: usize = 0;
    while i < x.len() && i < y.len()
        invariant
            i <= x@.len(),
            i <= y@.len(),
            forall|j: int| 0 <= j < i ==> x@[j] == y@[j],
            x@ == encode_utf8(a@),
            y@ == encode_utf8(b@),
        decreases x@.len() - i,
    {
        if x[i] != y[i] {
            proof {
                lemma_bytes_lt_from(x@, y@, i as int);
                lemma_bytes_lt_from(y@, x@, i as int);
            }
            if x[i] < y[i] {
                return Precedence::Before;
            } else {
                return Precedence::After;
            }
        }
        i += 1;
    }
    proof {
        lemma_bytes_lt_from(x@, y@, i as int);
        lemma_bytes_lt_from(y@, x@, i as int);
    }
    if x.len() < y.len() {
        Precedence::Before
    } else if x.len() > y.len() {
        Precedence::After
    } else {
        proof {
            assert(x@ =~= y@);
            lemma_encoding_injective(a@, b@);
        }
        Precedence::Same
    }
}

/// Copies a list of expressions.
pub(crate) fn clone_items(items: &Vec<Expression>) -> (r: Vec<Expression>)
    ensures
        terms_of(r@) == terms_of(items@),
        r@.len() == items@.len(),
    decreases items,
{
    let mut out: Vec<Expression> = Vec::new();
    let mut i: usize = 0;
    while i < items.len()
        invariant
            i <= items.len(),
            out.len() == i,
            forall|j: int| 0 <= j < i ==> term_of(out@[j]) == term_of(items@[j]),
        decreases items.len() - i,
    {
        let c = clone_expression(&items[i]);
        out.push(c);
        i += 1;
    }
    assert(terms_of(out@) =~= terms_of(items@));
    out
}

/// Copies an expression tree.
fn clone_expression(e: &Expression) -> (r: Expression)
    ensures
        r@ == e@,
    decreases e,
{
    match e {
        Expression::Integer(v) => Expression::Integer(*v),
        Expression::Real(bits) => Expression::Real(*bits),
        Expression::Constant(label, bits) => Expression::Constant(label.clone(), *bits),
        Expression::Variable(label) => Expression::Variable(label.clone()),
        Expression::Power(p) => Expression::Power(
            Power {
                base: Box::new(clone_expression(&p.base)),
                exp: Box::new(clone_expression(&p.exp)),
            },
        ),
        Expression::Logarithm(l) => Expression::Logarithm(
            Logarithm {
                argument: Box::new(clone_expression(&l.argument)),
                base: Box::new(clone_expression(&l.base)),
            },
        ),
        Expression::Sin(a) => Expression::Sin(Box::new(clone_expression(a))),
        Expression::Cos(a) => Expression::Cos(Box::new(clone_expression(a))),
        Expression::Multiplication(c) => {
            proof {
                use_type_invariant(c);
            }
            Expression::Multiplication(CommutativeAssociation { items: clone_items(&c.items) })
        },
        Expression::Addition(c) => {
            proof {
                use_type_invariant(c);
            }
            Expression::Addition(CommutativeAssociation { items: clone_items(&c.items) })
        },
        Expression::Division(d) => Expression::Division(
            Division {
                left_hand_side: Box::new(clone_expression(&d.left_hand_side)),
                right_hand_side: Box::new(clone_expression(&d.right_hand_side)),
            },
        ),
        Expression::Subtraction(s) => Expression::Subtraction(
            Subtraction {
                left_hand_side: Box::new(clone_expression(&s.left_hand_side)),
                right_hand_side: Box::new(clone_expression(&s.right_hand_side)),
            },
        ),
    }
}

/// Orders two lists of expressions lexicographically.
fn items_precedence(xs: &Vec<Expression>, ys: &Vec<Expression>) -> (p: Precedence)
    ensures
        match p {
            Precedence::Before => terms_lt(terms_of(xs@), terms_of(ys@)),
            Precedence::Same => terms_of(xs@) == terms_of(ys@),
            Precedence::After => terms_lt(terms_of(ys@), terms_of(xs@)),
        },
    decreases xs,
{
    let ghost a = terms_of(xs@);
    let ghost b = terms_of(ys@);
    let mut i: usize = 0;
    while i < xs.len() && i < ys.len()
        invariant
            i <= xs.len(),
            i <= ys.len(),
            a == terms_of(xs@),
            b == terms_of(ys@),
            forall|j: int| 0 <= j < i ==> a[j] == b[j],
        decreases xs.len() - i,
    {
        let p = expression_precedence(&xs[i], &ys[i]);
        match p {
            Precedence::Same => {},
            _ => {
                proof {
                    lemma_terms_lt_from(a, b, i as int);
                    lemma_terms_lt_from(b, a, i as int);
                    lemma_term_lt_irreflexive(a[i as int]);
                    reveal(term_lt);
                    assert(a.skip(i as int)[0] == a[i as int]);
                    assert(b.skip(i as int)[0] == b[i as int]);
                }
                return p;
            },
        }
        i += 1;
    }
    proof {
        lemma_terms_lt_from(a, b, i as int);
        lemma_terms_lt_from(b, a, i as int);
    }
    if xs.len() < ys.len() {
        Precedence::Before
    } else if xs.len() > ys.len() {
        Precedence::After
    } else {
        assert(a =~= b);
        Precedence::Same
    }
}

/// Orders two expressions by the canonical order.
fn expression_precedence(a: &Expression, b: &Expression) -> (p: Precedence)
    ensures
        precedence_holds(p, a@, b@),
    decreases a,
{
    proof {
        reveal(term_lt);
    }
    let ra = rank_of(a);
    let rb = rank_of(b);
    if ra < rb {
        return Precedence::Before;
    }
    if ra > rb {
        return Precedence::After;
    }
    match (a, b) {
        (Expression::Integer(x), Expression::Integer(y)) => {
            if *x < *y {
                Precedence::Before
            } else if *x > *y {
                Precedence::After
            } else {
                Precedence::Same
            }
        },
        (Expression::Real(x), Expression::Real(y)) => real_precedence(*x, *y),
        (Expression::Constant(l, v), Expression::Constant(m, w)) => {
            match label_precedence(l, m) {
                Precedence::Same => real_precedence(*v, *w),
                p => p,
            }
        },
        (Expression::Variable(l), Expression::Variable(m)) => label_precedence(l, m),
        (Expression::Power(x), Expression::Power(y)) => {
            match expression_precedence(&x.base, &y.base) {
                Precedence::Same => expression_precedence(&x.exp, &y.exp),
                p => p,
            }
        },
        (Expression::Logarithm(x), Expression::Logarithm(y)) => {
            match expression_precedence(&x.argument, &y.argument) {
                Precedence::Same => expression_precedence(&x.base, &y.base),
                p => p,
            }
        },
        (Expression::Sin(x), Expression::Sin(y)) => expression_precedence(x, y),
        (Expression::Cos(x), Expression::Cos(y)) => expression_precedence(x, y),
        (Expression::Multiplication(x), Expression::Multiplication(y)) => {
            assert(x.operands() == terms_of(x.items@));
            assert(y.operands() == terms_of(y.items@));
            items_precedence(&x.items, &y.items)
        },
        (Expression::Addition(x), Expression::Addition(y)) => {
            assert(x.operands() == terms_of(x.items@));
            assert(y.operands() == terms_of(y.items@));
            items_precedence(&x.items, &y.items)
        },
        (Expression::Division(x), Expression::Division(y)) => {
            match expression_precedence(&x.left_hand_side, &y.left_hand_side) {
                Precedence::Same => expression_precedence(&x.right_hand_side, &y.right_hand_side),
                p => p,
            }
        },
        (Expression::Subtraction(x), Expression::Subtraction(y)) => {
            match expression_precedence(&x.left_hand_side, &y.left_hand_side) {
                Precedence::Same => expression_precedence(&x.right_hand_side, &y.right_hand_side),
                p => p,
            }
        },
        _ => Precedence::Same,
    }
}

/// Sorts a list of expressions into canonical order.
pub(crate) fn canonicalize(items: Vec<Expression>) -> (r: Vec<Expression>)
    ensures
        terms_of(r@) == canonical(terms_of(items@)),
{
    broadcast use {vstd::multiset::group_multiset_axioms, group_to_multiset_ensures};

    let ghost all = terms_of(items@);
    let mut rest = items;
    let mut out: Vec<Expression> = Vec::new();
    proof {
        assert(terms_of(out@) =~= Seq::<Term>::empty());
        assert(terms_of(out@).to_multiset().add(all.to_multiset()) =~= all.to_multiset());
    }
    while rest.len() > 0
        invariant
            is_canonical(terms_of(out@)),
            terms_of(out@).to_multiset().add(terms_of(rest@).to_multiset()) == all.to_multiset(),
        decreases rest.len(),
    {
        let ghost before = terms_of(rest@);
        let ghost sorted = terms_of(out@);
        let x = rest.pop().unwrap();
        proof {
            assert(terms_of(rest@) =~= before.drop_last());
            assert(before =~= terms_of(rest@).push(x@));
            terms_of(rest@).to_multiset_ensures();
        }
        let mut k: usize = 0;
        let mut found = false;
        while k < out.len() && !found
            invariant
                k <= out.len(),
                sorted == terms_of(out@),
                forall|j: int| 0 <= j < k ==> term_le(#[trigger] sorted[j], x@),
                found ==> k < out.len() && term_lt(x@, sorted[k as int]),
            decreases out.len() - k + (if found { 0int } else { 1int }),
        {
            let p = expression_precedence(&x, &out[k]);
            match p {
                Precedence::Before => {
                    found = true;
                },
                _ => {
                    k += 1;
                },
            }
        }
        out.insert(k, x);
        proof {
            assert(terms_of(out@) =~= sorted.insert(k as int, x@));
            lemma_insert_keeps_canonical(sorted, k as int, x@);
            to_multiset_insert(sorted, k as int, x@);
            assert(terms_of(out@).to_multiset().add(terms_of(rest@).to_multiset())
                =~= all.to_multiset());
        }
    }
    proof {
        assert(terms_of(rest@) =~= Seq::<Term>::empty());
        assert(terms_of(out@).to_multiset() =~= all.to_multiset());
        lemma_canonical_permutes(all);
        lemma_canonical_unique(terms_of(out@), canonical(all));
    }
    out
}

impl CommutativeAssociation {
    /// Makes the operand list of a sum or a product: the given operands in
    /// canonical order, whatever order they were given in.
    pub fn new(items: Vec<Expression>) -> (r: Self)
        ensures
            r@ == canonical(terms_of(items@)),
    {
        let ghost given = terms_of(items@);
        let sorted = canonicalize(items);
        proof {
            lemma_canonical_permutes(given);
        }
        CommutativeAssociation { items: sorted }
    }

    /// The number of operands.
    pub fn len(&self) -> (n: usize)
        ensures
            n == self@.len(),
    {
        self.items.len()
    }

    /// The operand at position `i` of the canonical order.
    pub fn operand(&self, i: usize) -> (r: &Expression)
        requires
            i < self@.len(),
        ensures
            r@ == self@[i as int],
            *r == self.elements()[i as int],
    {
        &self.items[i]
    }

    /// The operands are held in canonical order. This is a proof only: the
    /// function does nothing when it runs.
    pub fn order_holds(&self)
        ensures
            is_canonical(self@),
    {
        proof {
            use_type_invariant(self);
        }
    }

    /// The operands in canonical order.
    pub fn items(&self) -> (r: Vec<Expression>)
        ensures
            terms_of(r@) == self@,
            is_canonical(self@),
    {
        proof {
            use_type_invariant(self);
        }
        clone_items(&self.items)
    }
}

impl Clone for CommutativeAssociation {
    fn clone(&self) -> (r: Self)
        ensures
            r@ == self@,
    {
        proof {
            use_type_invariant(self);
        }
        CommutativeAssociation { items: clone_items(&self.items) }
    }
}

impl Clone for Expression {
    fn clone(&self) -> (r: Self)
        ensures
            r@ == self@,
    {
        clone_expression(self)
    }
}

impl Clone for Power {
    fn clone(&self) -> (r: Self)
        ensures
            r.base@ == self.base@,
            r.exp@ == self.exp@,
    {
        Power { base: Box::new(clone_expression(&self.base)), exp: Box::new(clone_expression(&self.exp)) }
    }
}

impl Clone for Logarithm {
    fn clone(&self) -> (r: Self)
        ensures
            r.argument@ == self.argument@,
            r.base@ == self.base@,
    {
        Logarithm {
            argument: Box::new(clone_expression(&self.argument)),
            base: Box::new(clone_expression(&self.base)),
        }
    }
}

impl Clone for Division {
    fn clone(&self) -> (r: Self)
        ensures
            r.left_hand_side@ == self.left_hand_side@,
            r.right_hand_side@ == self.right_hand_side@,
    {
        Division {
            left_hand_side: Box::new(clone_expression(&self.left_hand_side)),
            right_hand_side: Box::new(clone_expression(&self.right_hand_side)),
        }
    }
}

impl Clone for Subtraction {
    fn clone(&self) -> (r: Self)
        ensures
            r.left_hand_side@ == self.left_hand_side@,
            r.right_hand_side@ == self.right_hand_side@,
    {
        Subtraction {
            left_hand_side: Box::new(clone_expression(&self.left_hand_side)),
            right_hand_side: Box::new(clone_expression(&self.right_hand_side)),
        }
    }
}

impl PartialEq for Expression {
    /// Structural equality: two expressions are equal when they are the same term.
    fn eq(&self, other: &Self) -> (r: bool) {
        proof {
            lemma_term_lt_irreflexive(self@);
        }
        match expression_precedence(self, other) {
            Precedence::Same => true,
            _ => false,
        }
    }
}

impl PartialEqSpecImpl for Expression {
    open spec fn obeys_eq_spec() -> bool {
        true
    }

    open spec fn eq_spec(&self, other: &Self) -> bool {
        self@ == other@
    }
}

impl Eq for Expression {

}

/// How two terms stand in the canonical order.
pub open spec fn ordering_of(a: Term, b: Term) -> Ordering {
    if a == b {
        Ordering::Equal
    } else if term_lt(a, b) {
        Ordering::Less
    } else {
        Ordering::Greater
    }
}

impl PartialOrd for Expression {
    /// The canonical order, in which any two expressions are comparable.
    fn partial_cmp(&self, other: &Self) -> (r: Option<Ordering>) {
        Some(self.compare(other))
    }
}

impl PartialOrdSpecImpl for Expression {
    open spec fn obeys_partial_cmp_spec() -> bool {
        true
    }

    open spec fn partial_cmp_spec(&self, other: &Self) -> Option<Ordering> {
        Some(ordering_of(self@, other@))
    }
}

impl Expression {
    /// Where `self` stands to `other` in the canonical order: exactly one of
    /// "before", "the same term" and "after" holds of any two expressions.
    pub fn compare(&self, other: &Expression) -> (r: Ordering)
        ensures
            (r == Ordering::Less) == term_lt(self@, other@),
            (r == Ordering::Equal) == (self@ == other@),
            (r == Ordering::Greater) == term_lt(other@, self@),
            r == ordering_of(self@, other@),
    {
        proof {
            lemma_term_lt_connected(self@, other@);
        }
        proof {
            lemma_term_lt_irreflexive(self@);
            if term_lt(self@, other@) {
                lemma_term_lt_asymmetric(self@, other@);
            }
            if term_lt(other@, self@) {
                lemma_term_lt_asymmetric(other@, self@);
            }
        }
        match expression_precedence(self, other) {
            Precedence::Before => Ordering::Less,
            Precedence::Same => Ordering::Equal,
            Precedence::After => Ordering::Greater,
        }
    }

    /// Whether `self` and `other` are the same term.
    pub fn equals(&self, other: &Expression) -> (r: bool)
        ensures
            r == (self@ == other@),
    {
        self == other
    }
}

impl Expression {
    /// The sum of the given operands, in canonical order.
    pub fn addition(items: Vec<Expression>) -> (r: Expression)
        ensures
            r@ == Term::Sum(canonical(terms_of(items@))),
    {
        Expression::Addition(CommutativeAssociation::new(items))
    }

    /// The product of the given operands, in canonical order.
    pub fn multiplication(items: Vec<Expression>) -> (r: Expression)
        ensures
            r@ == Term::Product(canonical(terms_of(items@))),
    {
        Expression::Multiplication(CommutativeAssociation::new(items))
    }

    /// `base` raised to `exp`.
    pub fn power(base: Expression, exp: Expression) -> (r: Expression)
        ensures
            r@ == Term::Power(Box::new(base@), Box::new(exp@)),
    {
        Expression::Power(Power { base: Box::new(base), exp: Box::new(exp) })
    }

    /// The logarithm of `argument` to the base `base`.
    pub fn logarithm(argument: Expression, base: Expression) -> (r: Expression)
        ensures
            r@ == Term::Logarithm(Box::new(argument@), Box::new(base@)),
    {
        Expression::Logarithm(Logarithm { argument: Box::new(argument), base: Box::new(base) })
    }

    /// The sine of `argument`.
    pub fn sin(argument: Expression) -> (r: Expression)
        ensures
            r@ == Term::Sine(Box::new(argument@)),
    {
        Expression::Sin(Box::new(argument))
    }

    /// The cosine of `argument`.
    pub fn cos(argument: Expression) -> (r: Expression)
        ensures
            r@ == Term::Cosine(Box::new(argument@)),
    {
        Expression::Cos(Box::new(argument))
    }
}

impl Subtraction {
    /// The node `left_hand_side - right_hand_side`.
    pub fn new(left_hand_side: Expression, right_hand_side: Expression) -> (r: Expression)
        ensures
            r@ == Term::Difference(Box::new(left_hand_side@), Box::new(right_hand_side@)),
    {
        Expression::Subtraction(
            Subtraction {
                left_hand_side: Box::new(left_hand_side),
                right_hand_side: Box::new(right_hand_side),
            },
        )
    }

    /// The left operand.
    pub fn left_hand_side(&self) -> (r: &Expression)
        ensures
            *r == *self.left_hand_side,
    {
        &self.left_hand_side
    }

    /// The right operand.
    pub fn right_hand_side(&self) -> (r: &Expression)
        ensures
            *r == *self.right_hand_side,
    {
        &self.right_hand_side
    }
}

impl Division {
    /// The node `left_hand_side / right_hand_side`.
    pub fn new(left_hand_side: Expression, right_hand_side: Expression) -> (r: Expression)
        ensures
            r@ == Term::Quotient(Box::new(left_hand_side@), Box::new(right_hand_side@)),
    {
        Expression::Division(
            Division {
                left_hand_side: Box::new(left_hand_side),
                right_hand_side: Box::new(right_hand_side),
            },
        )
    }

    /// The left operand.
    pub fn left_hand_side(&self) -> (r: &Expression)
        ensures
            *r == *self.left_hand_side,
    {
        &self.left_hand_side
    }

    /// The right operand.
    pub fn right_hand_side(&self) -> (r: &Expression)
        ensures
            *r == *self.right_hand_side,
    {
        &self.right_hand_side
    }
}

impl Power {
    /// The node `base ^ exp`.
    pub fn new(base: Expression, exp: Expression) -> (r: Expression)
        ensures
            r@ == Term::Power(Box::new(base@), Box::new(exp@)),
    {
        Expression::power(base, exp)
    }

    /// The base.
    pub fn argument(&self) -> (r: &Expression)
        ensures
            *r == *self.base,
    {
        &self.base
    }

    /// The exponent.
    pub fn modifier(&self) -> (r: &Expression)
        ensures
            *r == *self.exp,
    {
        &self.exp
    }
}

impl Logarithm {
    /// The node for the logarithm of `argument` to the base `base`.
    pub fn new(argument: Expression, base: Expression) -> (r: Expression)
        ensures
            r@ == Term::Logarithm(Box::new(argument@), Box::new(base@)),
    {
        Expression::logarithm(argument, base)
    }

    /// What the logarithm is taken of.
    pub fn argument(&self) -> (r: &Expression)
        ensures
            *r == *self.argument,
    {
        &self.argument
    }

    /// The base.
    pub fn modifier(&self) -> (r: &Expression)
        ensures
            *r == *self.base,
    {
        &self.base
    }
}

/// The list of two expressions.
pub(crate) fn list_of_two(x: Expression, y: Expression) -> (r: Vec<Expression>)
    ensures
        terms_of(r@) == seq![x@, y@],
{
    let mut out: Vec<Expression> = Vec::new();
    let ghost a = x@;
    let ghost b = y@;
    out.push(x);
    out.push(y);
    assert(terms_of(out@) =~= seq![a, b]);
    out
}

/// The list of three expressions.
pub(crate) fn list_of_three(x: Expression, y: Expression, z: Expression) -> (r: Vec<Expression>)
    ensures
        terms_of(r@) == seq![x@, y@, z@],
{
    let mut out: Vec<Expression> = Vec::new();
    let ghost a = x@;
    let ghost b = y@;
    let ghost c = z@;
    out.push(x);
    out.push(y);
    out.push(z);
    assert(terms_of(out@) =~= seq![a, b, c]);
    out
}

} // verus!

//! Classification of the operands of a sum or a product: which are literals, which
//! are rational, which are symbolic. All queries look at the operands themselves,
//! not inside them, except that a product among the operands is rational when
//! each of its own factors is a numerator or a denominator.
use crate::expression::{terms_of, CommutativeAssociation, Expression};
use crate::term::Term;
use vstd::prelude::*;
use vstd::seq_lib::*;

verus! {

/// An integer raised to an integer: the shape of a denominator.
pub open spec fn is_integer_power(t: Term) -> bool {
    t matches Term::Power(b, e) && *b is Integer && *e is Integer
}

/// A numerator or a denominator: an integer, or an integer raised to an integer.
pub open spec fn is_ratio_part(t: Term) -> bool {
    t is Integer || is_integer_power(t)
}

/// An integer, an integer raised to an integer, or a product each of whose
/// factors is an integer or an integer raised to an integer. The factors of a
/// product are not looked into any further.
pub open spec fn is_rational(t: Term) -> bool {
    match t {
        Term::Integer(_) => true,
        Term::Power(b, e) => *b is Integer && *e is Integer,
        Term::Product(fs) => forall|i: int| 0 <= i < fs.len() ==> is_ratio_part(#[trigger] fs[i]),
        _ => false,
    }
}

/// Neither an integer, nor a real, nor an integer raised to an integer.
pub open spec fn is_symbolic(t: Term) -> bool {
    !(t is Integer) && !(t is Real) && !is_integer_power(t)
}

/// The base of a power; any other term is its own base.
pub open spec fn base_of(t: Term) -> Term {
    match t {
        Term::Power(b, _) => *b,
        _ => t,
    }
}

/// The classes that an operand can be asked for.
#[derive(Clone, Copy, Debug, PartialEq, Eq, Structural)]
pub enum Class {
    Real,
    Integer,
    IntegerPower,
    Rational,
    NonRational,
    Symbolic,
}

/// Whether a term is of a class.
pub open spec fn in_class(c: Class, t: Term) -> bool {
    match c {
        Class::Real => t is Real,
        Class::Integer => t is Integer,
        Class::IntegerPower => is_integer_power(t),
        Class::Rational => is_rational(t),
        Class::NonRational => !is_rational(t),
        Class::Symbolic => is_symbolic(t),
    }
}

/// A class as a predicate on terms.
pub open spec fn class_of(c: Class) -> spec_fn(Term) -> bool {
    |t: Term| in_class(c, t)
}

/// The terms of `s` at the positions at which `keep` holds, in their order.
pub open spec fn chosen(s: Seq<Term>, keep: Seq<bool>) -> Seq<Term>
    decreases s.len(),
{
    if s.len() == 0 || keep.len() != s.len() {
        Seq::empty()
    } else {
        let before = chosen(s.drop_last(), keep.drop_last());
        if keep.last() {
            before.push(s.last())
        } else {
            before
        }
    }
}

/// Filtering one element more.
proof fn lemma_filter_step(s: Seq<Term>, i: int, pred: spec_fn(Term) -> bool)
    requires
        0 <= i < s.len(),
    ensures
        s.take(i + 1).filter(pred) == if pred(s[i]) {
            s.take(i).filter(pred).push(s[i])
        } else {
            s.take(i).filter(pred)
        },
{
    assert(s.take(i + 1) =~= s.take(i).push(s[i]));
    s.take(i).lemma_filter_push(s[i], pred);
}

impl Expression {
    /// Whether the expression is an integer literal.
    pub fn is_integer(&self) -> (r: bool)
        ensures
            r == (self@ is Integer),
    {
        match self {
            Expression::Integer(_) => true,
            _ => false,
        }
    }

    /// Whether the expression is a sum.
    pub fn is_sum(&self) -> (r: bool)
        ensures
            r == (self@ is Sum),
    {
        match self {
            Expression::Addition(_) => true,
            _ => false,
        }
    }

    /// The value of an integer literal.
    pub fn integer_value(&self) -> (r: Option<i64>)
        ensures
            match r {
                Some(v) => self@ == Term::Integer(v),
                None => !(self@ is Integer),
            },
    {
        match self {
            Expression::Integer(v) => Some(*v),
            _ => None,
        }
    }

    /// Whether the expression is an integer raised to an integer.
    pub fn is_integer_power(&self) -> (r: bool)
        ensures
            r == is_integer_power(self@),
    {
        match self {
            Expression::Power(p) => p.base.is_integer() && p.exp.is_integer(),
            _ => false,
        }
    }

    /// Whether the expression is an integer or an integer raised to an integer.
    pub fn is_ratio_part(&self) -> (r: bool)
        ensures
            r == is_ratio_part(self@),
    {
        self.is_integer() || self.is_integer_power()
    }

    /// Whether the expression is an integer, an integer raised to an integer, or
    /// a product each of whose factors is one of these two.
    pub fn is_rational(&self) -> (r: bool)
        ensures
            r == is_rational(self@),
    {
        match self {
            Expression::Integer(_) => true,
            Expression::Power(_) => self.is_integer_power(),
            Expression::Multiplication(factors) => {
                let mut i: usize = 0;
                while i < factors.len()
                    invariant
                        i <= factors@.len(),
                        self@ == Term::Product(factors@),
                        forall|j: int| 0 <= j < i ==> is_ratio_part(#[trigger] factors@[j]),
                    decreases factors@.len() - i,
                {
                    let factor = factors.operand(i);
                    if !factor.is_ratio_part() {
                        assert(!is_ratio_part(factors@[i as int]));
                        assert(self@->Product_0[i as int] == factors@[i as int]);
                        return false;
                    }
                    i += 1;
                }
                true
            },
            _ => false,
        }
    }

    /// Whether the expression is of the class `c`.
    pub fn is_of(&self, c: Class) -> (r: bool)
        ensures
            r == in_class(c, self@),
    {
        match c {
            Class::Real => match self {
                Expression::Real(_) => true,
                _ => false,
            },
            Class::Integer => match self {
                Expression::Integer(_) => true,
                _ => false,
            },
            Class::IntegerPower => self.is_integer_power(),
            Class::Rational => self.is_rational(),
            Class::NonRational => !self.is_rational(),
            Class::Symbolic => match self {
                Expression::Integer(_) => false,
                Expression::Real(_) => false,
                _ => !self.is_integer_power(),
            },
        }
    }
}

impl CommutativeAssociation {
    /// The operands of the class `c`, in canonical order.
    pub fn of_class(&self, c: Class) -> (r: Vec<Expression>)
        ensures
            terms_of(r@) == self@.filter(class_of(c)),
    {
        let mut out: Vec<Expression> = Vec::new();
        let mut i: usize = 0;
        proof {
            assert(self@.take(0) =~= Seq::<Term>::empty());
            assert(self@.take(0).filter(class_of(c)) =~= Seq::<Term>::empty()) by {
                reveal(Seq::filter);
            }
            assert(terms_of(out@) =~= Seq::<Term>::empty());
        }
        while i < self.len()
            invariant
                i <= self@.len(),
                terms_of(out@) == self@.take(i as int).filter(class_of(c)),
            decreases self@.len() - i,
        {
            let ghost before = terms_of(out@);
            let item = self.operand(i);
            proof {
                lemma_filter_step(self@, i as int, class_of(c));
            }
            if item.is_of(c) {
                out.push(item.clone());
                assert(terms_of(out@) =~= before.push(item@));
            }
            i += 1;
        }
        assert(self@.take(i as int) =~= self@);
        out
    }

    /// The operands that are real literals.
    pub fn get_reals(&self) -> (r: Vec<Expression>)
        ensures
            terms_of(r@) == self@.filter(class_of(Class::Real)),
    {
        self.of_class(Class::Real)
    }

    /// The operands that are integer literals: the numerators.
    pub fn get_rational_numerators(&self) -> (r: Vec<Expression>)
        ensures
            terms_of(r@) == self@.filter(class_of(Class::Integer)),
    {
        self.of_class(Class::Integer)
    }

    /// The bases of the operands that are an integer raised to an integer: the
    /// denominators. The exponent is left out.
    pub fn get_rational_denominators(&self) -> (r: Vec<Expression>)
        ensures
            terms_of(r@) == self@.filter(class_of(Class::IntegerPower)).map_values(
                |t: Term| base_of(t),
            ),
    {
        let powers = self.of_class(Class::IntegerPower);
        let ghost shown = self@.filter(class_of(Class::IntegerPower));
        let mut out: Vec<Expression> = Vec::new();
        let mut i: usize = 0;
        while i < powers.len()
            invariant
                i <= powers.len(),
                out.len() == i,
                terms_of(powers@) == shown,
                forall|j: int| 0 <= j < i ==> (#[trigger] out@[j])@ == base_of(shown[j]),
            decreases powers.len() - i,
        {
            assert(terms_of(powers@)[i as int] == powers@[i as int]@);
            match &powers[i] {
                Expression::Power(p) => {
                    out.push((*p.base).clone());
                },
                other => {
                    out.push(other.clone());
                },
            }
            i += 1;
        }
        assert(terms_of(out@) =~= shown.map_values(|t: Term| base_of(t)));
        out
    }

    /// The operands that are rational.
    pub fn get_rationals(&self) -> (r: Vec<Expression>)
        ensures
            terms_of(r@) == self@.filter(class_of(Class::Rational)),
    {
        self.of_class(Class::Rational)
    }

    /// The operands that are not rational.
    pub fn get_non_rationals(&self) -> (r: Vec<Expression>)
        ensures
            terms_of(r@) == self@.filter(class_of(Class::NonRational)),
    {
        self.of_class(Class::NonRational)
    }

    /// The operands that are symbolic.
    pub fn get_symbolics(&self) -> (r: Vec<Expression>)
        ensures
            terms_of(r@) == self@.filter(class_of(Class::Symbolic)),
    {
        self.of_class(Class::Symbolic)
    }

    /// The operands for which `f` answers `true`, in canonical order.
    pub fn get<F: Fn(&Expression) -> bool>(&self, f: &F) -> (r: Vec<Expression>)
        requires
            forall|i: int|
                0 <= i < self.elements().len() ==> call_requires(
                    f,
                    (&#[trigger] self.elements()[i],),
                ),
        ensures
            exists|keep: Seq<bool>|
                {
                    &&& keep.len() == self@.len()
                    &&& forall|i: int|
                        0 <= i < keep.len() ==> call_ensures(
                            f,
                            (&self.elements()[i],),
                            #[trigger] keep[i],
                        )
                    &&& terms_of(r@) == chosen(self@, keep)
                },
    {
        let mut out: Vec<Expression> = Vec::new();
        let mut i: usize = 0;
        let ghost mut keep: Seq<bool> = Seq::empty();
        proof {
            self.lemma_elements();
            assert(self@.take(0) =~= Seq::<Term>::empty());
            assert(terms_of(out@) =~= Seq::<Term>::empty());
        }
        while i < self.len()
            invariant
                i <= self@.len(),
                self@.len() == self.elements().len(),
                keep.len() == i,
                forall|j: int|
                    0 <= j < self.elements().len() ==> call_requires(
                        f,
                        (&#[trigger] self.elements()[j],),
                    ),
                forall|j: int|
                    0 <= j < i ==> call_ensures(f, (&self.elements()[j],), #[trigger] keep[j]),
                terms_of(out@) == chosen(self@.take(i as int), keep),
            decreases self@.len() - i,
        {
            let ghost before = terms_of(out@);
            let ghost kept = keep;
            let item = self.operand(i);
            let wanted = f(item);
            proof {
                keep = keep.push(wanted);
                assert(self@.take(i + 1).drop_last() =~= self@.take(i as int));
                assert(keep.drop_last() =~= kept);
            }
            if wanted {
                out.push(item.clone());
                assert(terms_of(out@) =~= before.push(item@));
            }
            i += 1;
        }
        assert(self@.take(i as int) =~= self@);
        out
    }

    /// The first operand, in canonical order, for which `f` answers `true`.
    pub fn get_one<F: Fn(&Expression) -> bool>(&self, f: &F) -> (r: Option<Expression>)
        requires
            forall|i: int|
                0 <= i < self.elements().len() ==> call_requires(
                    f,
                    (&#[trigger] self.elements()[i],),
                ),
        ensures
            match r {
                Some(e) => exists|k: int|
                    {
                        &&& 0 <= k < self@.len()
                        &&& e@ == self@[k]
                        &&& call_ensures(f, (&#[trigger] self.elements()[k],), true)
                        &&& forall|j: int|
                            0 <= j < k ==> call_ensures(
                                f,
                                (&#[trigger] self.elements()[j],),
                                false,
                            )
                    },
                None => forall|j: int|
                    0 <= j < self@.len() ==> call_ensures(
                        f,
                        (&#[trigger] self.elements()[j],),
                        false,
                    ),
            },
    {
        let mut i: usize = 0;
        proof {
            self.lemma_elements();
        }
        while i < self.len()
            invariant
                i <= self@.len(),
                self@.len() == self.elements().len(),
                forall|j: int|
                    0 <= j < self.elements().len() ==> call_requires(
                        f,
                        (&#[trigger] self.elements()[j],),
                    ),
                forall|j: int|
                    0 <= j < i ==> call_ensures(f, (&#[trigger] self.elements()[j],), false),
            decreases self@.len() - i,
        {
            let item = self.operand(i);
            if f(item) {
                return Some(item.clone());
            }
            i += 1;
        }
        None
    }

    /// What `f` makes of each operand, in canonical order of the operands. The
    /// results are not sorted again.
    pub fn map<F: Fn(&Expression) -> Expression>(&self, f: &F) -> (r: Vec<Expression>)
        requires
            forall|i: int|
                0 <= i < self.elements().len() ==> call_requires(
                    f,
                    (&#[trigger] self.elements()[i],),
                ),
        ensures
            r@.len() == self@.len(),
            forall|i: int|
                0 <= i < r@.len() ==> call_ensures(f, (&self.elements()[i],), #[trigger] r@[i]),
    {
        let mut out: Vec<Expression> = Vec::new();
        let mut i: usize = 0;
        proof {
            self.lemma_elements();
        }
        while i < self.len()
            invariant
                i <= self@.len(),
                out@.len() == i,
                self@.len() == self.elements().len(),
                forall|j: int|
                    0 <= j < self.elements().len() ==> call_requires(
                        f,
                        (&#[trigger] self.elements()[j],),
                    ),
                forall|j: int|
                    0 <= j < i ==> call_ensures(f, (&self.elements()[j],), #[trigger] out@[j]),
            decreases self@.len() - i,
        {
            let item = self.operand(i);
            out.push(f(item));
            i += 1;
        }
        out
    }
}

} // verus!

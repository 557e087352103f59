//! Leaves of expression trees: literals, bound constants and free variables.
use crate::expression::Expression;
use crate::term::Term;
use vstd::prelude::*;
use vstd::string::*;

verus! {

/// A leaf before it becomes an expression.
///
/// A real number is given as its IEEE-754 binary64 bit pattern.
#[derive(Debug)]
pub enum Symbol {
    Integer(i64),
    Real(u64),
    Constant(String, u64),
    Variable(String),
}

impl View for Symbol {
    type V = Term;

    open spec fn view(&self) -> Term {
        match self {
            Symbol::Integer(v) => Term::Integer(*v),
            Symbol::Real(bits) => Term::Real(*bits),
            Symbol::Constant(label, bits) => Term::Constant(label@, *bits),
            Symbol::Variable(label) => Term::Variable(label@),
        }
    }
}

impl Symbol {
    /// The integer literal `value`.
    pub fn integer(value: i64) -> (s: Symbol)
        ensures
            s@ == Term::Integer(value),
    {
        Symbol::Integer(value)
    }

    /// The real literal with the bit pattern `bits`.
    pub fn real_from_bits(bits: u64) -> (s: Symbol)
        ensures
            s@ == Term::Real(bits),
    {
        Symbol::Real(bits)
    }

    /// The constant named `label`, bound to the real with the bit pattern `bits`.
    pub fn constant(label: &str, bits: u64) -> (s: Symbol)
        ensures
            s@ == Term::Constant(label@, bits),
    {
        Symbol::Constant(label.to_owned(), bits)
    }

    /// The free variable named `label`.
    pub fn variable(label: &str) -> (s: Symbol)
        ensures
            s@ == Term::Variable(label@),
    {
        Symbol::Variable(label.to_owned())
    }

    /// The symbol as an expression.
    pub fn expr(self) -> (e: Expression)
        ensures
            e@ == self@,
    {
        match self {
            Symbol::Integer(v) => Expression::Integer(v),
            Symbol::Real(bits) => Expression::Real(bits),
            Symbol::Constant(label, bits) => Expression::Constant(label, bits),
            Symbol::Variable(label) => Expression::Variable(label),
        }
    }
}

} // verus!

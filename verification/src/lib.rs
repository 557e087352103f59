//! A symbolic algebra engine: algebraic expressions as trees, with a canonical
//! order, simplification, expansion, differentiation and the order of numeric
//! evaluation.
//!
//! An [`expression::Expression`] is a literal, a symbol, a binary node (power,
//! logarithm, difference, quotient), a sine or cosine, or a sum or product of any
//! number of operands. The operands of sums and products are kept in the
//! canonical order of [`term`], so that a sum is the same value in whatever order
//! its operands were given. Every expression stands for a [`term::Term`], and
//! what a function returns is stated over terms.
//!
//! Integer literals are 64-bit integers and are computed with exactly. Real
//! literals are IEEE-754 binary64 bit patterns; they are ordered and classified,
//! never computed with, because floating-point arithmetic is outside what is
//! proved here. [`meaning`] says what number a term stands for in exact
//! arithmetic; [`simplify::meaning`] and [`expand::meaning`] prove that
//! simplification and expansion keep it, and [`evaluate`] lays out the steps by
//! which a caller computes it with the arithmetic of its choice.
pub mod classification;
pub mod differentiate;
pub mod evaluate;
pub mod expand;
pub mod expression;
pub mod fraction;
pub mod meaning;
pub mod operators;
pub mod render;
pub mod simplify;
pub mod symbol;
pub mod term;

//! The number that a term stands for.
//!
//! The meaning of a term is a real number, or nothing: a free variable without a
//! value, a division by zero, a power or a logarithm outside its domain have no
//! number, and neither has anything built on them. Real literals, variables,
//! powers, logarithms, sines and cosines are read through a [`Reading`], so that
//! what is proved here holds however they are read, as long as the reading is
//! [`faithful`].
pub mod lemmas;

use crate::simplify::spec::{REAL_MINUS_ONE, REAL_ONE};
use crate::term::Term;
use vstd::prelude::*;

verus! {

/// How to read what the library does not compute.
pub struct Reading {
    /// The real number with a bit pattern.
    pub literal: spec_fn(u64) -> real,
    /// The value of a free variable, if it has one.
    pub variable: spec_fn(Seq<char>) -> Option<real>,
    /// A base raised to an exponent, where that is a number.
    pub power: spec_fn(real, real) -> Option<real>,
    /// The logarithm of a number to a base, where that is a number.
    pub logarithm: spec_fn(real, real) -> Option<real>,
    /// The sine.
    pub sine: spec_fn(real) -> real,
    /// The cosine.
    pub cosine: spec_fn(real) -> real,
}

/// `x` multiplied by itself `k` times.
pub open spec fn natural_power(x: real, k: nat) -> real
    decreases k,
{
    if k == 0 {
        1real
    } else {
        natural_power(x, (k - 1) as nat) * x
    }
}

/// A reading is faithful when it reads the bit patterns of `-1` and `1` as these
/// numbers, the power with a natural exponent as repeated multiplication, and
/// the power with the exponent `-1` as the inverse, which zero does not have.
pub open spec fn faithful(m: Reading) -> bool {
    &&& (m.literal)(REAL_MINUS_ONE) == -1real
    &&& (m.literal)(REAL_ONE) == 1real
    &&& forall|x: real, y: real, k: nat|
        #![trigger (m.power)(x, y), natural_power(x, k)]
        y == k as real ==> (m.power)(x, y) == Some(natural_power(x, k))
    &&& forall|x: real|
        #[trigger] (m.power)(x, -1real) == if x == 0real {
            None
        } else {
            Some(1real / x)
        }
}

/// The number of a term, or zero where it has none.
pub open spec fn number(t: Term, m: Reading) -> real
    decreases t, 1int,
{
    match value(t, m) {
        Some(v) => v,
        None => 0real,
    }
}

/// Whether every operand has a number.
pub open spec fn all_defined(ops: Seq<Term>, m: Reading) -> bool
    decreases ops, 2int,
{
    forall|i: int| 0 <= i < ops.len() ==> value(#[trigger] ops[i], m) is Some
}

/// The numbers of the operands, added up.
pub open spec fn sum_of_numbers(ops: Seq<Term>, m: Reading) -> real
    decreases ops, 2int,
{
    if ops.len() == 0 {
        0real
    } else {
        sum_of_numbers(ops.drop_last(), m) + number(ops.last(), m)
    }
}

/// The numbers of the operands, multiplied.
pub open spec fn product_of_numbers(ops: Seq<Term>, m: Reading) -> real
    decreases ops, 2int,
{
    if ops.len() == 0 {
        1real
    } else {
        product_of_numbers(ops.drop_last(), m) * number(ops.last(), m)
    }
}

/// The number that a term stands for, if it stands for one.
pub open spec fn value(t: Term, m: Reading) -> Option<real>
    decreases t, 0int,
{
    match t {
        Term::Integer(v) => Some(v as real),
        Term::Real(bits) => Some((m.literal)(bits)),
        Term::Constant(_, bits) => Some((m.literal)(bits)),
        Term::Variable(label) => (m.variable)(label),
        Term::Power(a, b) => match (value(*a, m), value(*b, m)) {
            (Some(x), Some(y)) => (m.power)(x, y),
            _ => None,
        },
        Term::Logarithm(a, b) => match (value(*a, m), value(*b, m)) {
            (Some(x), Some(y)) => (m.logarithm)(x, y),
            _ => None,
        },
        Term::Sine(a) => match value(*a, m) {
            Some(x) => Some((m.sine)(x)),
            None => None,
        },
        Term::Cosine(a) => match value(*a, m) {
            Some(x) => Some((m.cosine)(x)),
            None => None,
        },
        Term::Product(ops) => if all_defined(ops, m) {
            Some(product_of_numbers(ops, m))
        } else {
            None
        },
        Term::Sum(ops) => if all_defined(ops, m) {
            Some(sum_of_numbers(ops, m))
        } else {
            None
        },
        Term::Quotient(a, b) => match (value(*a, m), value(*b, m)) {
            (Some(x), Some(y)) => if y == 0real {
                None
            } else {
                Some(x / y)
            },
            _ => None,
        },
        Term::Difference(a, b) => match (value(*a, m), value(*b, m)) {
            (Some(x), Some(y)) => Some(x - y),
            _ => None,
        },
    }
}

/// Whether a real number is the natural number `k`.
pub open spec fn is_natural(y: real, k: nat) -> bool {
    y == k as real
}

/// A reading that is faithful: it knows the power with a natural exponent and
/// with the exponent `-1`, no other power and no logarithm, reads the two bit
/// patterns that it must and every other as zero, and gives no variable a value.
pub open spec fn plain_reading() -> Reading {
    Reading {
        literal: |bits: u64|
            if bits == REAL_MINUS_ONE {
                -1real
            } else if bits == REAL_ONE {
                1real
            } else {
                0real
            },
        variable: |label: Seq<char>| None::<real>,
        power: |x: real, y: real|
            if exists|k: nat| #[trigger] is_natural(y, k) {
                Some(natural_power(x, choose|k: nat| #[trigger] is_natural(y, k)))
            } else if y == -1real && x != 0real {
                Some(1real / x)
            } else {
                None
            },
        logarithm: |x: real, y: real| None::<real>,
        sine: |x: real| 0real,
        cosine: |x: real| 0real,
    }
}

/// There are faithful readings.
pub proof fn lemma_plain_reading_is_faithful()
    ensures
        faithful(plain_reading()),
{
    let m = plain_reading();
    assert forall|x: real, y: real, k: nat|
        #![trigger (m.power)(x, y), natural_power(x, k)]
        y == k as real implies (m.power)(x, y) == Some(natural_power(x, k)) by {
        assert(is_natural(y, k));
        let j = choose|j: nat| #[trigger] is_natural(y, j);
        assert(j == k);
    }
    assert forall|x: real|
        #[trigger] (m.power)(x, -1real) == if x == 0real {
            None
        } else {
            Some(1real / x)
        } by {
        if exists|k: nat| #[trigger] is_natural(-1real, k) {
            let k = choose|k: nat| #[trigger] is_natural(-1real, k);
            assert(k as real >= 0real);
        }
    }
}

} // verus!

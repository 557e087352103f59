//! Expressions as text, in infix notation.
//!
//! An operand is put in parentheses when it binds less tightly than the place
//! it stands in asks for: sums and differences bind least, then products and
//! quotients, then powers; literals, symbols and function applications bind
//! tightest, but a negative integer literal binds less than anything.
//! A real literal is written as its bit pattern, `0x` and sixteen hexadecimal
//! digits; `parts` gives the same text in pieces, for a caller that writes the
//! real literals in a notation of its own.
pub mod parts;

use crate::expression::{CommutativeAssociation, Expression};
use crate::term::Term;
use vstd::prelude::*;
use vstd::string::*;

verus! {

/// The text of a digit below sixteen.
pub open spec fn digit(d: nat) -> Seq<char> {
    if d == 0 {
        "0"@
    } else if d == 1 {
        "1"@
    } else if d == 2 {
        "2"@
    } else if d == 3 {
        "3"@
    } else if d == 4 {
        "4"@
    } else if d == 5 {
        "5"@
    } else if d == 6 {
        "6"@
    } else if d == 7 {
        "7"@
    } else if d == 8 {
        "8"@
    } else if d == 9 {
        "9"@
    } else if d == 10 {
        "a"@
    } else if d == 11 {
        "b"@
    } else if d == 12 {
        "c"@
    } else if d == 13 {
        "d"@
    } else if d == 14 {
        "e"@
    } else {
        "f"@
    }
}

/// A natural number in decimal notation.
pub open spec fn decimal(n: nat) -> Seq<char>
    decreases n,
{
    if n < 10 {
        digit(n)
    } else {
        decimal(n / 10) + digit(n % 10)
    }
}

/// An integer in decimal notation.
pub open spec fn integer_text(v: int) -> Seq<char> {
    if v < 0 {
        "-"@ + decimal((-v) as nat)
    } else {
        decimal(v as nat)
    }
}

/// The lowest `width` hexadecimal digits of a natural number.
pub open spec fn hexadecimal(n: nat, width: nat) -> Seq<char>
    decreases width,
{
    if width == 0 {
        Seq::empty()
    } else {
        hexadecimal(n / 16, (width - 1) as nat) + digit(n % 16)
    }
}

/// How tightly a term binds.
pub open spec fn level(t: Term) -> int {
    match t {
        Term::Integer(v) => if v < 0 {
            0
        } else {
            4
        },
        Term::Sum(_) => 1,
        Term::Difference(_, _) => 1,
        Term::Product(_) => 2,
        Term::Quotient(_, _) => 2,
        Term::Power(_, _) => 3,
        _ => 4,
    }
}

/// A text in parentheses when `enclose` holds.
pub open spec fn enclosed(text: Seq<char>, enclose: bool) -> Seq<char> {
    if enclose {
        "("@ + text + ")"@
    } else {
        text
    }
}

/// The operands, each in parentheses if it binds less tightly than `least`,
/// with `separator` between them.
pub open spec fn rendering_of_list(ops: Seq<Term>, separator: Seq<char>, least: int) -> Seq<char>
    decreases ops,
{
    if ops.len() == 0 {
        Seq::empty()
    } else if ops.len() == 1 {
        enclosed(rendering(ops[0]), level(ops[0]) < least)
    } else {
        rendering_of_list(ops.drop_last(), separator, least) + separator + enclosed(
            rendering(ops.last()),
            level(ops.last()) < least,
        )
    }
}

/// The text of a term.
pub open spec fn rendering(t: Term) -> Seq<char>
    decreases t,
{
    match t {
        Term::Integer(v) => integer_text(v as int),
        Term::Real(bits) => "0x"@ + hexadecimal(bits as nat, 16),
        Term::Constant(label, _) => label,
        Term::Variable(label) => label,
        Term::Power(a, b) => enclosed(rendering(*a), level(*a) < 4) + "^"@ + enclosed(
            rendering(*b),
            level(*b) < 4,
        ),
        Term::Logarithm(a, b) => "log("@ + rendering(*a) + ", "@ + rendering(*b) + ")"@,
        Term::Sine(a) => "sin("@ + rendering(*a) + ")"@,
        Term::Cosine(a) => "cos("@ + rendering(*a) + ")"@,
        Term::Product(ops) => if ops.len() == 0 {
            "1"@
        } else {
            rendering_of_list(ops, " * "@, 2)
        },
        Term::Sum(ops) => if ops.len() == 0 {
            "0"@
        } else {
            rendering_of_list(ops, " + "@, 1)
        },
        Term::Quotient(a, b) => enclosed(rendering(*a), level(*a) < 2) + " / "@ + enclosed(
            rendering(*b),
            level(*b) < 3,
        ),
        Term::Difference(a, b) => enclosed(rendering(*a), level(*a) < 1) + " - "@ + enclosed(
            rendering(*b),
            level(*b) < 2,
        ),
    }
}

/// The text of a digit below sixteen.
fn digit_of(d: u64) -> (r: &'static str)
    requires
        d < 16,
    ensures
        r@ == digit(d as nat),
{
    if d == 0 {
        "0"
    } else if d == 1 {
        "1"
    } else if d == 2 {
        "2"
    } else if d == 3 {
        "3"
    } else if d == 4 {
        "4"
    } else if d == 5 {
        "5"
    } else if d == 6 {
        "6"
    } else if d == 7 {
        "7"
    } else if d == 8 {
        "8"
    } else if d == 9 {
        "9"
    } else if d == 10 {
        "a"
    } else if d == 11 {
        "b"
    } else if d == 12 {
        "c"
    } else if d == 13 {
        "d"
    } else if d == 14 {
        "e"
    } else {
        "f"
    }
}

/// A natural number in decimal notation.
fn decimal_of(n: u64) -> (r: String)
    ensures
        r@ == decimal(n as nat),
    decreases n,
{
    if n < 10 {
        digit_of(n).to_owned()
    } else {
        let mut text = decimal_of(n / 10);
        text.append(digit_of(n % 10));
        text
    }
}

/// An integer in decimal notation.
pub(crate) fn integer_text_of(v: i64) -> (r: String)
    ensures
        r@ == integer_text(v as int),
{
    if v < 0 {
        let magnitude: u64 = if v == i64::MIN {
            9223372036854775808u64
        } else {
            (-v) as u64
        };
        let mut text = "-".to_owned();
        let digits = decimal_of(magnitude);
        text.append(digits.as_str());
        text
    } else {
        decimal_of(v as u64)
    }
}

/// The lowest `width` hexadecimal digits of a number.
fn hexadecimal_of(n: u64, width: u8) -> (r: String)
    ensures
        r@ == hexadecimal(n as nat, width as nat),
    decreases width,
{
    if width == 0 {
        String::new()
    } else {
        let mut text = hexadecimal_of(n / 16, width - 1);
        text.append(digit_of(n % 16));
        text
    }
}

/// A text in parentheses when `enclose` holds.
fn enclosed_of(text: String, enclose: bool) -> (r: String)
    ensures
        r@ == enclosed(text@, enclose),
{
    if enclose {
        let mut out = "(".to_owned();
        out.append(text.as_str());
        out.append(")");
        out
    } else {
        text
    }
}

/// How tightly an expression binds.
pub(crate) fn level_of(e: &Expression) -> (r: u8)
    ensures
        r == level(e@),
{
    match e {
        Expression::Integer(v) => {
            if *v < 0 {
                0
            } else {
                4
            }
        },
        Expression::Addition(_) => 1,
        Expression::Subtraction(_) => 1,
        Expression::Multiplication(_) => 2,
        Expression::Division(_) => 2,
        Expression::Power(_) => 3,
        _ => 4,
    }
}

impl Expression {
    /// The expression as text, in infix notation.
    pub fn to_string(&self) -> (r: String)
        ensures
            r@ == rendering(self@),
        decreases self@, 2int,
    {
        match self {
            Expression::Integer(v) => integer_text_of(*v),
            Expression::Real(bits) => {
                let mut text = "0x".to_owned();
                let digits = hexadecimal_of(*bits, 16);
                text.append(digits.as_str());
                text
            },
            Expression::Constant(label, _) => label.clone(),
            Expression::Variable(label) => label.clone(),
            Expression::Power(p) => {
                proof {
                    assert(decreases_to!(self@ => self@->Power_0));
                    assert(decreases_to!(self@ => self@->Power_1));
                }
                let mut text = p.argument().operand_text(self, 4);
                text.append("^");
                text.append(p.modifier().operand_text(self, 4).as_str());
                text
            },
            Expression::Logarithm(l) => {
                proof {
                    assert(decreases_to!(self@ => self@->Logarithm_0));
                    assert(decreases_to!(self@ => self@->Logarithm_1));
                }
                let argument = l.argument().to_string();
                let base = l.modifier().to_string();
                let mut text = "log(".to_owned();
                text.append(argument.as_str());
                text.append(", ");
                text.append(base.as_str());
                text.append(")");
                text
            },
            Expression::Sin(a) => {
                proof {
                    assert(decreases_to!(self@ => self@->Sine_0));
                }
                let argument = a.to_string();
                let mut text = "sin(".to_owned();
                text.append(argument.as_str());
                text.append(")");
                text
            },
            Expression::Cos(a) => {
                proof {
                    assert(decreases_to!(self@ => self@->Cosine_0));
                }
                let argument = a.to_string();
                let mut text = "cos(".to_owned();
                text.append(argument.as_str());
                text.append(")");
                text
            },
            Expression::Multiplication(c) => {
                if c.len() == 0 {
                    "1".to_owned()
                } else {
                    self.list_text(c, " * ", 2)
                }
            },
            Expression::Addition(c) => {
                if c.len() == 0 {
                    "0".to_owned()
                } else {
                    self.list_text(c, " + ", 1)
                }
            },
            Expression::Division(d) => {
                proof {
                    assert(decreases_to!(self@ => self@->Quotient_0));
                    assert(decreases_to!(self@ => self@->Quotient_1));
                }
                let mut text = d.left_hand_side().operand_text(self, 2);
                text.append(" / ");
                text.append(d.right_hand_side().operand_text(self, 3).as_str());
                text
            },
            Expression::Subtraction(s) => {
                proof {
                    assert(decreases_to!(self@ => self@->Difference_0));
                    assert(decreases_to!(self@ => self@->Difference_1));
                }
                let mut text = s.left_hand_side().operand_text(self, 1);
                text.append(" - ");
                text.append(s.right_hand_side().operand_text(self, 2).as_str());
                text
            },
        }
    }

    /// The text of `self` as an operand of `parent`, in parentheses if it binds
    /// less tightly than `least`.
    fn operand_text(&self, parent: &Expression, least: u8) -> (r: String)
        requires
            decreases_to!(parent@ => self@),
        ensures
            r@ == enclosed(rendering(self@), level(self@) < least),
        decreases parent@, 1int,
    {
        enclosed_of(self.to_string(), level_of(self) < least)
    }

    /// The operands of a sum or product of `self` as text.
    fn list_text(&self, c: &CommutativeAssociation, separator: &str, least: u8) -> (r: String)
        requires
            self@ == Term::Product(c@) || self@ == Term::Sum(c@),
            c@.len() > 0,
        ensures
            r@ == rendering_of_list(c@, separator@, least as int),
        decreases self@, 0int,
    {
        proof {
            if self@ is Product {
                assert(decreases_to!(self@ => self@->Product_0));
            } else {
                assert(decreases_to!(self@ => self@->Sum_0));
            }
            assert(decreases_to!(c@ => c@[0]));
            assert(c@.take(1) =~= seq![c@[0]]);
        }
        let first = c.operand(0);
        let mut text = enclosed_of(first.to_string(), level_of(first) < least);
        let mut i: usize = 1;
        while i < c.len()
            invariant
                1 <= i <= c@.len(),
                self@ == Term::Product(c@) || self@ == Term::Sum(c@),
                text@ == rendering_of_list(c@.take(i as int), separator@, least as int),
            decreases c@.len() - i,
        {
            let item = c.operand(i);
            proof {
                if self@ is Product {
                    assert(decreases_to!(self@ => self@->Product_0));
                } else {
                    assert(decreases_to!(self@ => self@->Sum_0));
                }
                assert(decreases_to!(c@ => c@[i as int]));
                assert(c@.take(i + 1).drop_last() =~= c@.take(i as int));
                assert(c@.take(i + 1).last() == c@[i as int]);
            }
            text.append(separator);
            text.append(enclosed_of(item.to_string(), level_of(item) < least).as_str());
            i += 1;
        }
        assert(c@.take(i as int) =~= c@);
        text
    }
}

} // verus!

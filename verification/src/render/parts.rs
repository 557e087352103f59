//! The text of an expression in pieces: the real literals by their bit
//! patterns, and the runs of text around them. A caller that writes real
//! literals in a notation of its own, decimal say, writes the pieces one after
//! the other; written with each real literal as `0x` and sixteen hexadecimal
//! digits, they spell the rendering.
use crate::expression::{CommutativeAssociation, Expression};
use crate::render::{
    enclosed, hexadecimal, integer_text_of, level, level_of, rendering, rendering_of_list,
};
use crate::term::Term;
use vstd::prelude::*;
use vstd::string::*;

verus! {

/// A part of a text, as contracts see it.
pub enum Part {
    /// A run of characters.
    Text(Seq<char>),
    /// The real literal with this bit pattern.
    Real(u64),
}

/// A part of a text.
#[derive(Debug, PartialEq, Eq)]
pub enum Piece {
    /// A run of characters.
    Text(String),
    /// The real literal with this bit pattern.
    Real(u64),
}

impl View for Piece {
    type V = Part;

    open spec fn view(&self) -> Part {
        match self {
            Piece::Text(s) => Part::Text(s@),
            Piece::Real(bits) => Part::Real(*bits),
        }
    }
}

/// The parts that a list of pieces stands for.
pub open spec fn parts_of(s: Seq<Piece>) -> Seq<Part> {
    Seq::new(s.len(), |i: int| s[i]@)
}

/// A run of characters as a list of one part.
pub open spec fn text_part(s: Seq<char>) -> Seq<Part> {
    seq![Part::Text(s)]
}

/// Parts between parentheses when `enclose` holds.
pub open spec fn enclosed_parts(inner: Seq<Part>, enclose: bool) -> Seq<Part> {
    if enclose {
        text_part("("@) + inner + text_part(")"@)
    } else {
        inner
    }
}

/// The parts of the operands, each between parentheses if it binds less
/// tightly than `least`, with `separator` between them.
pub open spec fn parts_of_list(ops: Seq<Term>, separator: Seq<char>, least: int) -> Seq<Part>
    decreases ops,
{
    if ops.len() == 0 {
        Seq::empty()
    } else if ops.len() == 1 {
        enclosed_parts(parts(ops[0]), level(ops[0]) < least)
    } else {
        parts_of_list(ops.drop_last(), separator, least) + text_part(separator) + enclosed_parts(
            parts(ops.last()),
            level(ops.last()) < least,
        )
    }
}

/// The parts of the text of a term.
pub open spec fn parts(t: Term) -> Seq<Part>
    decreases t,
{
    match t {
        Term::Integer(_) => text_part(rendering(t)),
        Term::Real(bits) => seq![Part::Real(bits)],
        Term::Constant(label, _) => text_part(label),
        Term::Variable(label) => text_part(label),
        Term::Power(a, b) => enclosed_parts(parts(*a), level(*a) < 4) + text_part("^"@)
            + enclosed_parts(parts(*b), level(*b) < 4),
        Term::Logarithm(a, b) => text_part("log("@) + parts(*a) + text_part(", "@) + parts(*b)
            + text_part(")"@),
        Term::Sine(a) => text_part("sin("@) + parts(*a) + text_part(")"@),
        Term::Cosine(a) => text_part("cos("@) + parts(*a) + text_part(")"@),
        Term::Product(ops) => if ops.len() == 0 {
            text_part("1"@)
        } else {
            parts_of_list(ops, " * "@, 2)
        },
        Term::Sum(ops) => if ops.len() == 0 {
            text_part("0"@)
        } else {
            parts_of_list(ops, " + "@, 1)
        },
        Term::Quotient(a, b) => enclosed_parts(parts(*a), level(*a) < 2) + text_part(" / "@)
            + enclosed_parts(parts(*b), level(*b) < 3),
        Term::Difference(a, b) => enclosed_parts(parts(*a), level(*a) < 1) + text_part(" - "@)
            + enclosed_parts(parts(*b), level(*b) < 2),
    }
}

/// A part written out, a real literal as `0x` and sixteen hexadecimal digits.
pub open spec fn spelled(p: Part) -> Seq<char> {
    match p {
        Part::Text(s) => s,
        Part::Real(bits) => "0x"@ + hexadecimal(bits as nat, 16),
    }
}

/// The parts written out one after the other.
pub open spec fn joined(ps: Seq<Part>) -> Seq<char>
    decreases ps.len(),
{
    if ps.len() == 0 {
        Seq::empty()
    } else {
        joined(ps.drop_last()) + spelled(ps.last())
    }
}

/// Two lists of parts written out one after the other are the two texts one
/// after the other.
pub proof fn lemma_joined_concat(a: Seq<Part>, b: Seq<Part>)
    ensures
        joined(a + b) == joined(a) + joined(b),
    decreases b.len(),
{
    if b.len() == 0 {
        assert(a + b =~= a);
        assert(joined(a) + joined(b) =~= joined(a));
    } else {
        assert((a + b).drop_last() =~= a + b.drop_last());
        assert((a + b).last() == b.last());
        lemma_joined_concat(a, b.drop_last());
        assert(joined(a + b) =~= joined(a) + joined(b));
    }
}

/// A run of characters written out is itself.
pub proof fn lemma_joined_text(s: Seq<char>)
    ensures
        joined(text_part(s)) == s,
{
    assert(text_part(s).drop_last() =~= Seq::<Part>::empty());
    assert(joined(Seq::<Part>::empty()) =~= Seq::<char>::empty());
    assert(joined(text_part(s)) =~= s);
}

/// Three lists of parts written out one after the other.
pub proof fn lemma_joined_three(a: Seq<Part>, b: Seq<Part>, c: Seq<Part>)
    ensures
        joined(a + b + c) == joined(a) + joined(b) + joined(c),
{
    lemma_joined_concat(a, b);
    lemma_joined_concat(a + b, c);
}

/// Parts between parentheses spell the text between parentheses.
pub proof fn lemma_joined_enclosed(inner: Seq<Part>, enclose: bool)
    ensures
        joined(enclosed_parts(inner, enclose)) == enclosed(joined(inner), enclose),
{
    if enclose {
        lemma_joined_three(text_part("("@), inner, text_part(")"@));
        lemma_joined_text("("@);
        lemma_joined_text(")"@);
    }
}

/// The parts of a list of operands spell the rendering of the list.
pub proof fn lemma_list_spells_rendering(ops: Seq<Term>, separator: Seq<char>, least: int)
    ensures
        joined(parts_of_list(ops, separator, least)) == rendering_of_list(ops, separator, least),
    decreases ops, 0int,
{
    if ops.len() == 0 {
    } else if ops.len() == 1 {
        lemma_parts_spell_rendering(ops[0]);
        lemma_joined_enclosed(parts(ops[0]), level(ops[0]) < least);
    } else {
        lemma_list_spells_rendering(ops.drop_last(), separator, least);
        lemma_parts_spell_rendering(ops.last());
        lemma_joined_enclosed(parts(ops.last()), level(ops.last()) < least);
        lemma_joined_three(
            parts_of_list(ops.drop_last(), separator, least),
            text_part(separator),
            enclosed_parts(parts(ops.last()), level(ops.last()) < least),
        );
        lemma_joined_text(separator);
    }
}

/// The parts of a binary node spell the two operands with the sign between.
proof fn lemma_pair_spells(a: Term, b: Term, sign: Seq<char>, left: int, right: int)
    requires
        joined(parts(a)) == rendering(a),
        joined(parts(b)) == rendering(b),
    ensures
        joined(
            enclosed_parts(parts(a), level(a) < left) + text_part(sign) + enclosed_parts(
                parts(b),
                level(b) < right,
            ),
        ) == enclosed(rendering(a), level(a) < left) + sign + enclosed(
            rendering(b),
            level(b) < right,
        ),
{
    lemma_joined_enclosed(parts(a), level(a) < left);
    lemma_joined_enclosed(parts(b), level(b) < right);
    lemma_joined_text(sign);
    lemma_joined_three(
        enclosed_parts(parts(a), level(a) < left),
        text_part(sign),
        enclosed_parts(parts(b), level(b) < right),
    );
}

/// The parts of a function application spell the name, the argument and the
/// closing parenthesis.
proof fn lemma_call_spells(name: Seq<char>, a: Term)
    requires
        joined(parts(a)) == rendering(a),
    ensures
        joined(text_part(name) + parts(a) + text_part(")"@)) == name + rendering(a) + ")"@,
{
    lemma_joined_three(text_part(name), parts(a), text_part(")"@));
    lemma_joined_text(name);
    lemma_joined_text(")"@);
}

/// The parts of a term, written out with each real literal as its bit pattern,
/// spell the rendering of the term.
pub proof fn lemma_parts_spell_rendering(t: Term)
    ensures
        joined(parts(t)) == rendering(t),
    decreases t, 1int,
{
    match t {
        Term::Integer(_) => {
            lemma_joined_text(rendering(t));
        },
        Term::Real(bits) => {
            assert(parts(t).drop_last() =~= Seq::<Part>::empty());
            assert(joined(Seq::<Part>::empty()) =~= Seq::<char>::empty());
            assert(joined(parts(t)) =~= rendering(t));
        },
        Term::Constant(label, _) => {
            lemma_joined_text(label);
        },
        Term::Variable(label) => {
            lemma_joined_text(label);
        },
        Term::Power(a, b) => {
            lemma_parts_spell_rendering(*a);
            lemma_parts_spell_rendering(*b);
            lemma_pair_spells(*a, *b, "^"@, 4, 4);
        },
        Term::Logarithm(a, b) => {
            lemma_parts_spell_rendering(*a);
            lemma_parts_spell_rendering(*b);
            let head = text_part("log("@) + parts(*a) + text_part(", "@);
            lemma_joined_three(text_part("log("@), parts(*a), text_part(", "@));
            lemma_joined_three(head, parts(*b), text_part(")"@));
            lemma_joined_text("log("@);
            lemma_joined_text(", "@);
            lemma_joined_text(")"@);
        },
        Term::Sine(a) => {
            lemma_parts_spell_rendering(*a);
            lemma_call_spells("sin("@, *a);
        },
        Term::Cosine(a) => {
            lemma_parts_spell_rendering(*a);
            lemma_call_spells("cos("@, *a);
        },
        Term::Product(ops) => {
            if ops.len() == 0 {
                lemma_joined_text("1"@);
            } else {
                lemma_list_spells_rendering(ops, " * "@, 2);
            }
        },
        Term::Sum(ops) => {
            if ops.len() == 0 {
                lemma_joined_text("0"@);
            } else {
                lemma_list_spells_rendering(ops, " + "@, 1);
            }
        },
        Term::Quotient(a, b) => {
            lemma_parts_spell_rendering(*a);
            lemma_parts_spell_rendering(*b);
            lemma_pair_spells(*a, *b, " / "@, 2, 3);
        },
        Term::Difference(a, b) => {
            lemma_parts_spell_rendering(*a);
            lemma_parts_spell_rendering(*b);
            lemma_pair_spells(*a, *b, " - "@, 1, 2);
        },
    }
}

/// Appends a run of characters.
fn put(out: &mut Vec<Piece>, text: String)
    ensures
        parts_of(final(out)@) == parts_of(old(out)@) + text_part(text@),
{
    let ghost before = parts_of(out@);
    out.push(Piece::Text(text));
    assert(parts_of(out@) =~= before + text_part(text@));
}

impl Expression {
    /// The text of the expression in pieces: each real literal by its bit
    /// pattern, and the text around them.
    pub fn pieces(&self) -> (r: Vec<Piece>)
        ensures
            parts_of(r@) == parts(self@),
            joined(parts_of(r@)) == rendering(self@),
    {
        let mut out: Vec<Piece> = Vec::new();
        self.pieces_into(&mut out);
        proof {
            assert(parts_of(out@) =~= parts(self@));
            lemma_parts_spell_rendering(self@);
        }
        out
    }

    /// Appends the pieces of the text of the expression.
    fn pieces_into(&self, out: &mut Vec<Piece>)
        ensures
            parts_of(final(out)@) == parts_of(old(out)@) + parts(self@),
        decreases self@, 3int,
    {
        let ghost before = parts_of(out@);
        match self {
            Expression::Integer(v) => {
                put(out, integer_text_of(*v));
            },
            Expression::Real(bits) => {
                out.push(Piece::Real(*bits));
                assert(parts_of(out@) =~= before + parts(self@));
            },
            Expression::Constant(label, _) => {
                put(out, label.clone());
            },
            Expression::Variable(label) => {
                put(out, label.clone());
            },
            Expression::Power(p) => {
                proof {
                    assert(decreases_to!(self@ => self@->Power_0));
                    assert(decreases_to!(self@ => self@->Power_1));
                }
                p.argument().operand_pieces_into(self, 4, out);
                put(out, "^".to_owned());
                p.modifier().operand_pieces_into(self, 4, out);
                assert(parts_of(out@) =~= before + parts(self@));
            },
            Expression::Logarithm(l) => {
                proof {
                    assert(decreases_to!(self@ => self@->Logarithm_0));
                    assert(decreases_to!(self@ => self@->Logarithm_1));
                }
                put(out, "log(".to_owned());
                l.argument().pieces_into(out);
                put(out, ", ".to_owned());
                l.modifier().pieces_into(out);
                put(out, ")".to_owned());
                assert(parts_of(out@) =~= before + parts(self@));
            },
            Expression::Sin(a) => {
                proof {
                    assert(decreases_to!(self@ => self@->Sine_0));
                }
                put(out, "sin(".to_owned());
                a.pieces_into(out);
                put(out, ")".to_owned());
                assert(parts_of(out@) =~= before + parts(self@));
            },
            Expression::Cos(a) => {
                proof {
                    assert(decreases_to!(self@ => self@->Cosine_0));
                }
                put(out, "cos(".to_owned());
                a.pieces_into(out);
                put(out, ")".to_owned());
                assert(parts_of(out@) =~= before + parts(self@));
            },
            Expression::Multiplication(c) => {
                if c.len() == 0 {
                    put(out, "1".to_owned());
                } else {
                    self.list_pieces_into(c, " * ", 2, out);
                }
            },
            Expression::Addition(c) => {
                if c.len() == 0 {
                    put(out, "0".to_owned());
                } else {
                    self.list_pieces_into(c, " + ", 1, out);
                }
            },
            Expression::Division(d) => {
                proof {
                    assert(decreases_to!(self@ => self@->Quotient_0));
                    assert(decreases_to!(self@ => self@->Quotient_1));
                }
                d.left_hand_side().operand_pieces_into(self, 2, out);
                put(out, " / ".to_owned());
                d.right_hand_side().operand_pieces_into(self, 3, out);
                assert(parts_of(out@) =~= before + parts(self@));
            },
            Expression::Subtraction(s) => {
                proof {
                    assert(decreases_to!(self@ => self@->Difference_0));
                    assert(decreases_to!(self@ => self@->Difference_1));
                }
                s.left_hand_side().operand_pieces_into(self, 1, out);
                put(out, " - ".to_owned());
                s.right_hand_side().operand_pieces_into(self, 2, out);
                assert(parts_of(out@) =~= before + parts(self@));
            },
        }
    }

    /// Appends the pieces of `self` as an operand of `parent`, between
    /// parentheses if it binds less tightly than `least`.
    fn operand_pieces_into(&self, parent: &Expression, least: u8, out: &mut Vec<Piece>)
        requires
            decreases_to!(parent@ => self@),
        ensures
            parts_of(final(out)@) == parts_of(old(out)@) + enclosed_parts(
                parts(self@),
                level(self@) < least,
            ),
        decreases parent@, 1int,
    {
        let ghost before = parts_of(out@);
        if level_of(self) < least {
            put(out, "(".to_owned());
            self.pieces_into(out);
            put(out, ")".to_owned());
            assert(parts_of(out@) =~= before + enclosed_parts(parts(self@), true));
        } else {
            self.pieces_into(out);
        }
    }

    /// Appends the pieces of the operands of a sum or product of `self`.
    fn list_pieces_into(
        &self,
        c: &CommutativeAssociation,
        separator: &str,
        least: u8,
        out: &mut Vec<Piece>,
    )
        requires
            self@ == Term::Product(c@) || self@ == Term::Sum(c@),
            c@.len() > 0,
        ensures
            parts_of(final(out)@) == parts_of(old(out)@) + parts_of_list(
                c@,
                separator@,
                least as int,
            ),
        decreases self@, 2int,
    {
        let ghost before = parts_of(out@);
        proof {
            if self@ is Product {
                assert(decreases_to!(self@ => self@->Product_0));
            } else {
                assert(decreases_to!(self@ => self@->Sum_0));
            }
            assert(decreases_to!(c@ => c@[0]));
            assert(c@.take(1) =~= seq![c@[0]]);
        }
        let first = c.operand(0);
        first.operand_pieces_into(self, least, out);
        let mut i: usize = 1;
        while i < c.len()
            invariant
                1 <= i <= c@.len(),
                self@ == Term::Product(c@) || self@ == Term::Sum(c@),
                parts_of(out@) == before + parts_of_list(
                    c@.take(i as int),
                    separator@,
                    least as int,
                ),
            decreases c@.len() - i,
        {
            let item = c.operand(i);
            let ghost so_far = parts_of_list(c@.take(i as int), separator@, least as int);
            proof {
                if self@ is Product {
                    assert(decreases_to!(self@ => self@->Product_0));
                } else {
                    assert(decreases_to!(self@ => self@->Sum_0));
                }
                assert(decreases_to!(c@ => c@[i as int]));
                assert(c@.take(i + 1).drop_last() =~= c@.take(i as int));
                assert(c@.take(i + 1).last() == c@[i as int]);
            }
            put(out, separator.to_owned());
            item.operand_pieces_into(self, least, out);
            assert(parts_of(out@) =~= before + (so_far + text_part(separator@) + enclosed_parts(
                parts(item@),
                level(item@) < least,
            )));
            i += 1;
        }
        assert(c@.take(i as int) =~= c@);
    }
}

} // verus!

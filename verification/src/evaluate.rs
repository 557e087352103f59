//! The order of numeric evaluation, and what stops it.
//!
//! Evaluation takes the children of a node from left to right, and the operands
//! of a sum or a product in canonical order, starting from the neutral number.
//! It stops at the first symbol that has no value: a free variable.
//!
//! Computing the number itself needs floating-point arithmetic, which is left to
//! the caller. The library lays out the work: [`Expression::unresolved`] says
//! whether there is a number at all, and [`Expression::program`] gives the steps
//! of the evaluation for a machine with a stack of numbers. Run with exact
//! arithmetic, the steps compute the [number](crate::meaning::value) of the
//! expression.
use crate::expression::{CommutativeAssociation, Expression};
use crate::meaning::{all_defined, number, product_of_numbers, sum_of_numbers, value, Reading};
use crate::term::Term;
use vstd::prelude::*;
use vstd::string::*;

verus! {

/// The first free variable among the operands, in the order of evaluation.
pub open spec fn first_unbound_in(ops: Seq<Term>) -> Option<Term>
    decreases ops,
{
    if ops.len() == 0 {
        None
    } else {
        match first_unbound(ops[0]) {
            Some(s) => Some(s),
            None => first_unbound_in(ops.drop_first()),
        }
    }
}

/// The first free variable of a term, in the order of evaluation.
pub open spec fn first_unbound(t: Term) -> Option<Term>
    decreases t,
{
    match t {
        Term::Integer(_) => None,
        Term::Real(_) => None,
        Term::Constant(_, _) => None,
        Term::Variable(_) => Some(t),
        Term::Power(a, b) => first_of_two(first_unbound(*a), first_unbound(*b)),
        Term::Logarithm(a, b) => first_of_two(first_unbound(*a), first_unbound(*b)),
        Term::Quotient(a, b) => first_of_two(first_unbound(*a), first_unbound(*b)),
        Term::Difference(a, b) => first_of_two(first_unbound(*a), first_unbound(*b)),
        Term::Sine(a) => first_unbound(*a),
        Term::Cosine(a) => first_unbound(*a),
        Term::Product(ops) => first_unbound_in(ops),
        Term::Sum(ops) => first_unbound_in(ops),
    }
}

/// The first of two findings: the left one, if there is one.
pub open spec fn first_of_two(left: Option<Term>, right: Option<Term>) -> Option<Term> {
    match left {
        Some(s) => Some(s),
        None => right,
    }
}

/// Searching from position `i` on finds the same, when nothing is found before.
pub proof fn lemma_first_unbound_from(ops: Seq<Term>, i: int)
    requires
        0 <= i <= ops.len(),
        forall|j: int| 0 <= j < i ==> first_unbound(#[trigger] ops[j]) is None,
    ensures
        first_unbound_in(ops) == first_unbound_in(ops.skip(i)),
    decreases i,
{
    if i == 0 {
        assert(ops.skip(0) =~= ops);
    } else {
        assert(first_unbound(ops[0]) is None);
        lemma_first_unbound_from(ops.drop_first(), i - 1);
        assert(ops.drop_first().skip(i - 1) =~= ops.skip(i));
        assert forall|j: int| 0 <= j < i - 1 implies first_unbound(
            #[trigger] ops.drop_first()[j],
        ) is None by {
            assert(ops.drop_first()[j] == ops[j + 1]);
        }
    }
}

/// What evaluation stops at is a free variable.
pub proof fn lemma_first_unbound_is_variable(t: Term)
    ensures
        first_unbound(t) is Some ==> first_unbound(t)->0 is Variable,
    decreases t,
{
    match t {
        Term::Power(a, b) => {
            lemma_first_unbound_is_variable(*a);
            lemma_first_unbound_is_variable(*b);
        },
        Term::Logarithm(a, b) => {
            lemma_first_unbound_is_variable(*a);
            lemma_first_unbound_is_variable(*b);
        },
        Term::Quotient(a, b) => {
            lemma_first_unbound_is_variable(*a);
            lemma_first_unbound_is_variable(*b);
        },
        Term::Difference(a, b) => {
            lemma_first_unbound_is_variable(*a);
            lemma_first_unbound_is_variable(*b);
        },
        Term::Sine(a) => {
            lemma_first_unbound_is_variable(*a);
        },
        Term::Cosine(a) => {
            lemma_first_unbound_is_variable(*a);
        },
        Term::Product(ops) => {
            lemma_first_unbound_in_is_variable(ops);
        },
        Term::Sum(ops) => {
            lemma_first_unbound_in_is_variable(ops);
        },
        _ => {},
    }
}

/// What evaluation of a list of operands stops at is a free variable.
pub proof fn lemma_first_unbound_in_is_variable(ops: Seq<Term>)
    ensures
        first_unbound_in(ops) is Some ==> first_unbound_in(ops)->0 is Variable,
    decreases ops,
{
    if ops.len() > 0 {
        lemma_first_unbound_is_variable(ops[0]);
        lemma_first_unbound_in_is_variable(ops.drop_first());
    }
}

/// A term has no number when the variable at which its evaluation stops has no
/// value.
pub proof fn lemma_unbound_has_no_value(t: Term, m: Reading)
    requires
        first_unbound(t) is Some,
        value(first_unbound(t)->0, m) is None,
    ensures
        value(t, m) is None,
    decreases t,
{
    match t {
        Term::Power(a, b) => {
            if first_unbound(*a) is Some {
                lemma_unbound_has_no_value(*a, m);
            } else {
                lemma_unbound_has_no_value(*b, m);
            }
        },
        Term::Logarithm(a, b) => {
            if first_unbound(*a) is Some {
                lemma_unbound_has_no_value(*a, m);
            } else {
                lemma_unbound_has_no_value(*b, m);
            }
        },
        Term::Quotient(a, b) => {
            if first_unbound(*a) is Some {
                lemma_unbound_has_no_value(*a, m);
            } else {
                lemma_unbound_has_no_value(*b, m);
            }
        },
        Term::Difference(a, b) => {
            if first_unbound(*a) is Some {
                lemma_unbound_has_no_value(*a, m);
            } else {
                lemma_unbound_has_no_value(*b, m);
            }
        },
        Term::Sine(a) => {
            lemma_unbound_has_no_value(*a, m);
        },
        Term::Cosine(a) => {
            lemma_unbound_has_no_value(*a, m);
        },
        Term::Product(ops) => {
            lemma_unbound_operand_has_no_value(ops, m);
        },
        Term::Sum(ops) => {
            lemma_unbound_operand_has_no_value(ops, m);
        },
        _ => {},
    }
}

/// Not every operand has a number when the variable at which the evaluation of
/// the operands stops has no value.
pub proof fn lemma_unbound_operand_has_no_value(ops: Seq<Term>, m: Reading)
    requires
        first_unbound_in(ops) is Some,
        value(first_unbound_in(ops)->0, m) is None,
    ensures
        !all_defined(ops, m),
    decreases ops,
{
    if first_unbound(ops[0]) is Some {
        lemma_unbound_has_no_value(ops[0], m);
    } else {
        lemma_unbound_operand_has_no_value(ops.drop_first(), m);
        if all_defined(ops, m) {
            assert forall|i: int| 0 <= i < ops.drop_first().len() implies value(
                #[trigger] ops.drop_first()[i],
                m,
            ) is Some by {
                assert(ops.drop_first()[i] == ops[i + 1]);
            }
        }
    }
}

/// What a search for the first free variable found.
pub open spec fn found(r: Option<Expression>, sought: Option<Term>) -> bool {
    match r {
        Some(e) => sought == Some(e@),
        None => sought is None,
    }
}

impl Expression {
    /// The symbol at which numeric evaluation stops: the first free variable in
    /// the order of evaluation. `None` when the expression has a number.
    pub fn unresolved(&self) -> (r: Option<Expression>)
        ensures
            found(r, first_unbound(self@)),
        decreases self@, 1int,
    {
        match self {
            Expression::Integer(_) => None,
            Expression::Real(_) => None,
            Expression::Constant(_, _) => None,
            Expression::Variable(_) => Some(self.clone()),
            Expression::Power(p) => {
                match p.argument().unresolved() {
                    Some(s) => Some(s),
                    None => p.modifier().unresolved(),
                }
            },
            Expression::Logarithm(l) => {
                match l.argument().unresolved() {
                    Some(s) => Some(s),
                    None => l.modifier().unresolved(),
                }
            },
            Expression::Division(d) => {
                match d.left_hand_side().unresolved() {
                    Some(s) => Some(s),
                    None => d.right_hand_side().unresolved(),
                }
            },
            Expression::Subtraction(s) => {
                match s.left_hand_side().unresolved() {
                    Some(s) => Some(s),
                    None => s.right_hand_side().unresolved(),
                }
            },
            Expression::Sin(a) => a.unresolved(),
            Expression::Cos(a) => a.unresolved(),
            Expression::Multiplication(c) => self.unresolved_operand(c),
            Expression::Addition(c) => self.unresolved_operand(c),
        }
    }

    /// The first free variable among the operands of a sum or product of `self`.
    fn unresolved_operand(&self, c: &CommutativeAssociation) -> (r: Option<Expression>)
        requires
            self@ == Term::Product(c@) || self@ == Term::Sum(c@),
        ensures
            found(r, first_unbound_in(c@)),
        decreases self@, 0int,
    {
        let mut i: usize = 0;
        while i < c.len()
            invariant
                i <= c@.len(),
                self@ == Term::Product(c@) || self@ == Term::Sum(c@),
                forall|j: int| 0 <= j < i ==> first_unbound(#[trigger] c@[j]) is None,
            decreases c@.len() - i,
        {
            let item = c.operand(i);
            proof {
                if self@ is Product {
                    assert(decreases_to!(self@ => self@->Product_0));
                } else {
                    assert(decreases_to!(self@ => self@->Sum_0));
                }
                assert(decreases_to!(c@ => c@[i as int]));
                lemma_first_unbound_from(c@, i as int);
                assert(c@.skip(i as int)[0] == c@[i as int]);
            }
            match item.unresolved() {
                Some(s) => {
                    return Some(s);
                },
                None => {},
            }
            i += 1;
        }
        proof {
            lemma_first_unbound_from(c@, i as int);
        }
        None
    }
}

/// One step of numeric evaluation on a stack of numbers.
///
/// A step that takes two numbers takes the right operand from the top of the
/// stack and the left operand from below it.
#[derive(Debug, PartialEq, Eq)]
pub enum Step {
    /// Puts an integer on the stack.
    Integer(i64),
    /// Puts the real number with this bit pattern on the stack.
    Real(u64),
    /// Puts the value of a variable on the stack; evaluation stops here when
    /// the variable has none.
    Variable(String),
    /// Replaces two numbers by their sum.
    Add,
    /// Replaces two numbers by their product.
    Multiply,
    /// Replaces two numbers by their difference.
    Subtract,
    /// Replaces two numbers by their quotient.
    Divide,
    /// Replaces a base and an exponent by the power.
    Raise,
    /// Replaces a number and a base by the logarithm of the number to the base.
    Logarithm,
    /// Replaces a number by its sine.
    Sine,
    /// Replaces a number by its cosine.
    Cosine,
}

/// A step of numeric evaluation, as a mathematical value.
pub enum Instruction {
    Integer(i64),
    Real(u64),
    Variable(Seq<char>),
    Add,
    Multiply,
    Subtract,
    Divide,
    Raise,
    Logarithm,
    Sine,
    Cosine,
}

impl View for Step {
    type V = Instruction;

    open spec fn view(&self) -> Instruction {
        match self {
            Step::Integer(v) => Instruction::Integer(*v),
            Step::Real(bits) => Instruction::Real(*bits),
            Step::Variable(label) => Instruction::Variable(label@),
            Step::Add => Instruction::Add,
            Step::Multiply => Instruction::Multiply,
            Step::Subtract => Instruction::Subtract,
            Step::Divide => Instruction::Divide,
            Step::Raise => Instruction::Raise,
            Step::Logarithm => Instruction::Logarithm,
            Step::Sine => Instruction::Sine,
            Step::Cosine => Instruction::Cosine,
        }
    }
}

/// The instructions of a list of steps.
pub open spec fn instructions_of(steps: Seq<Step>) -> Seq<Instruction> {
    steps.map_values(|s: Step| s@)
}

/// The steps that evaluate each operand and combine it with what is on the
/// stack.
pub open spec fn program_of_each(ops: Seq<Term>, combine: Instruction) -> Seq<Instruction>
    decreases ops,
{
    if ops.len() == 0 {
        Seq::empty()
    } else {
        program_of_each(ops.drop_last(), combine) + program_of(ops.last()) + seq![combine]
    }
}

/// The steps that evaluate a term: they leave its number on top of the stack.
pub open spec fn program_of(t: Term) -> Seq<Instruction>
    decreases t,
{
    match t {
        Term::Integer(v) => seq![Instruction::Integer(v)],
        Term::Real(bits) => seq![Instruction::Real(bits)],
        Term::Constant(_, bits) => seq![Instruction::Real(bits)],
        Term::Variable(label) => seq![Instruction::Variable(label)],
        Term::Power(a, b) => program_of(*a) + program_of(*b) + seq![Instruction::Raise],
        Term::Logarithm(a, b) => program_of(*a) + program_of(*b) + seq![Instruction::Logarithm],
        Term::Quotient(a, b) => program_of(*a) + program_of(*b) + seq![Instruction::Divide],
        Term::Difference(a, b) => program_of(*a) + program_of(*b) + seq![Instruction::Subtract],
        Term::Sine(a) => program_of(*a) + seq![Instruction::Sine],
        Term::Cosine(a) => program_of(*a) + seq![Instruction::Cosine],
        Term::Product(ops) => seq![Instruction::Integer(1)] + program_of_each(
            ops,
            Instruction::Multiply,
        ),
        Term::Sum(ops) => seq![Instruction::Integer(0)] + program_of_each(ops, Instruction::Add),
    }
}

/// What a step that takes two numbers makes of them, in exact arithmetic.
pub open spec fn combined(i: Instruction, x: real, y: real, m: Reading) -> Option<real> {
    match i {
        Instruction::Add => Some(x + y),
        Instruction::Multiply => Some(x * y),
        Instruction::Subtract => Some(x - y),
        Instruction::Divide => if y == 0real {
            None
        } else {
            Some(x / y)
        },
        Instruction::Raise => (m.power)(x, y),
        Instruction::Logarithm => (m.logarithm)(x, y),
        _ => None,
    }
}

/// The stack after one step, in exact arithmetic; nothing when the step fails.
pub open spec fn step(i: Instruction, stack: Seq<real>, m: Reading) -> Option<Seq<real>> {
    match i {
        Instruction::Integer(v) => Some(stack.push(v as real)),
        Instruction::Real(bits) => Some(stack.push((m.literal)(bits))),
        Instruction::Variable(label) => match (m.variable)(label) {
            Some(v) => Some(stack.push(v)),
            None => None,
        },
        Instruction::Sine => if stack.len() >= 1 {
            Some(stack.drop_last().push((m.sine)(stack.last())))
        } else {
            None
        },
        Instruction::Cosine => if stack.len() >= 1 {
            Some(stack.drop_last().push((m.cosine)(stack.last())))
        } else {
            None
        },
        _ => if stack.len() >= 2 {
            match combined(i, stack[stack.len() - 2], stack.last(), m) {
                Some(v) => Some(stack.drop_last().drop_last().push(v)),
                None => None,
            }
        } else {
            None
        },
    }
}

/// The stack after the steps, in exact arithmetic; nothing when a step fails.
pub open spec fn run(steps: Seq<Instruction>, stack: Seq<real>, m: Reading) -> Option<Seq<real>>
    decreases steps.len(),
{
    if steps.len() == 0 {
        Some(stack)
    } else {
        match run(steps.drop_last(), stack, m) {
            Some(s) => step(steps.last(), s, m),
            None => None,
        }
    }
}

/// Running two lists of steps one after the other is running them joined.
pub proof fn lemma_run_joined(a: Seq<Instruction>, b: Seq<Instruction>, stack: Seq<real>, m: Reading)
    ensures
        run(a + b, stack, m) == match run(a, stack, m) {
            Some(s) => run(b, s, m),
            None => None,
        },
    decreases b.len(),
{
    if b.len() == 0 {
        assert(a + b =~= a);
    } else {
        assert((a + b).drop_last() =~= a + b.drop_last());
        lemma_run_joined(a, b.drop_last(), stack, m);
    }
}

/// Running a single step.
pub proof fn lemma_run_one(i: Instruction, stack: Seq<real>, m: Reading)
    ensures
        run(seq![i], stack, m) == step(i, stack, m),
{
    let e = Seq::<Instruction>::empty();
    assert(seq![i].drop_last() =~= e);
    assert(seq![i].last() == i);
    assert(run(e, stack, m) == Some(stack));
}

/// Run in exact arithmetic, the steps that evaluate a term put its number on
/// the stack, and fail when it has none.
pub proof fn lemma_program_computes_value(t: Term, stack: Seq<real>, m: Reading)
    ensures
        run(program_of(t), stack, m) == match value(t, m) {
            Some(v) => Some(stack.push(v)),
            None => None,
        },
    decreases t,
{
    match t {
        Term::Integer(v) => {
            lemma_run_one(Instruction::Integer(v), stack, m);
        },
        Term::Real(bits) => {
            lemma_run_one(Instruction::Real(bits), stack, m);
        },
        Term::Constant(_, bits) => {
            lemma_run_one(Instruction::Real(bits), stack, m);
        },
        Term::Variable(label) => {
            lemma_run_one(Instruction::Variable(label), stack, m);
        },
        Term::Power(a, b) => {
            assert forall|s: Seq<real>|
                #[trigger] run(program_of(*a), s, m) == match value(*a, m) {
                    Some(v) => Some(s.push(v)),
                    None => None,
                } by {
                lemma_program_computes_value(*a, s, m);
            }
            assert forall|s: Seq<real>|
                #[trigger] run(program_of(*b), s, m) == match value(*b, m) {
                    Some(v) => Some(s.push(v)),
                    None => None,
                } by {
                lemma_program_computes_value(*b, s, m);
            }
            lemma_binary_program(*a, *b, Instruction::Raise, stack, m);
        },
        Term::Logarithm(a, b) => {
            assert forall|s: Seq<real>|
                #[trigger] run(program_of(*a), s, m) == match value(*a, m) {
                    Some(v) => Some(s.push(v)),
                    None => None,
                } by {
                lemma_program_computes_value(*a, s, m);
            }
            assert forall|s: Seq<real>|
                #[trigger] run(program_of(*b), s, m) == match value(*b, m) {
                    Some(v) => Some(s.push(v)),
                    None => None,
                } by {
                lemma_program_computes_value(*b, s, m);
            }
            lemma_binary_program(*a, *b, Instruction::Logarithm, stack, m);
        },
        Term::Quotient(a, b) => {
            assert forall|s: Seq<real>|
                #[trigger] run(program_of(*a), s, m) == match value(*a, m) {
                    Some(v) => Some(s.push(v)),
                    None => None,
                } by {
                lemma_program_computes_value(*a, s, m);
            }
            assert forall|s: Seq<real>|
                #[trigger] run(program_of(*b), s, m) == match value(*b, m) {
                    Some(v) => Some(s.push(v)),
                    None => None,
                } by {
                lemma_program_computes_value(*b, s, m);
            }
            lemma_binary_program(*a, *b, Instruction::Divide, stack, m);
        },
        Term::Difference(a, b) => {
            assert forall|s: Seq<real>|
                #[trigger] run(program_of(*a), s, m) == match value(*a, m) {
                    Some(v) => Some(s.push(v)),
                    None => None,
                } by {
                lemma_program_computes_value(*a, s, m);
            }
            assert forall|s: Seq<real>|
                #[trigger] run(program_of(*b), s, m) == match value(*b, m) {
                    Some(v) => Some(s.push(v)),
                    None => None,
                } by {
                lemma_program_computes_value(*b, s, m);
            }
            lemma_binary_program(*a, *b, Instruction::Subtract, stack, m);
        },
        Term::Sine(a) => {
            lemma_program_computes_value(*a, stack, m);
            lemma_run_joined(program_of(*a), seq![Instruction::Sine], stack, m);
            if value(*a, m) is Some {
                let s = stack.push(value(*a, m)->0);
                lemma_run_one(Instruction::Sine, s, m);
                assert(s.drop_last() =~= stack);
            }
        },
        Term::Cosine(a) => {
            lemma_program_computes_value(*a, stack, m);
            lemma_run_joined(program_of(*a), seq![Instruction::Cosine], stack, m);
            if value(*a, m) is Some {
                let s = stack.push(value(*a, m)->0);
                lemma_run_one(Instruction::Cosine, s, m);
                assert(s.drop_last() =~= stack);
            }
        },
        Term::Product(ops) => {
            let start = Instruction::Integer(1);
            lemma_run_one(start, stack, m);
            lemma_run_joined(seq![start], program_of_each(ops, Instruction::Multiply), stack, m);
            lemma_nary_program(ops, Instruction::Multiply, stack, 1real, m);
        },
        Term::Sum(ops) => {
            let start = Instruction::Integer(0);
            lemma_run_one(start, stack, m);
            lemma_run_joined(seq![start], program_of_each(ops, Instruction::Add), stack, m);
            lemma_nary_program(ops, Instruction::Add, stack, 0real, m);
        },
    }
}

/// A literal evaluates to itself: its one step puts its number on the stack.
pub proof fn lemma_literal_evaluates_to_itself(t: Term, m: Reading)
    requires
        t is Integer || t is Real,
    ensures
        run(program_of(t), Seq::empty(), m) == Some(seq![value(t, m)->0]),
        t matches Term::Integer(v) ==> value(t, m) == Some(v as real),
        t matches Term::Real(bits) ==> value(t, m) == Some((m.literal)(bits)),
{
    lemma_program_computes_value(t, Seq::empty(), m);
    assert(Seq::<real>::empty().push(value(t, m)->0) =~= seq![value(t, m)->0]);
}

/// The steps of a node with two children.
proof fn lemma_binary_program(a: Term, b: Term, i: Instruction, stack: Seq<real>, m: Reading)
    requires
        i is Raise || i is Logarithm || i is Divide || i is Subtract,
        forall|s: Seq<real>|
            #[trigger] run(program_of(a), s, m) == match value(a, m) {
                Some(v) => Some(s.push(v)),
                None => None,
            },
        forall|s: Seq<real>|
            #[trigger] run(program_of(b), s, m) == match value(b, m) {
                Some(v) => Some(s.push(v)),
                None => None,
            },
    ensures
        run(program_of(a) + program_of(b) + seq![i], stack, m) == match (value(a, m), value(b, m)) {
            (Some(x), Some(y)) => match combined(i, x, y, m) {
                Some(v) => Some(stack.push(v)),
                None => None,
            },
            _ => None,
        },
{
    let pa = program_of(a);
    let pb = program_of(b);
    lemma_run_joined(pa + pb, seq![i], stack, m);
    lemma_run_joined(pa, pb, stack, m);
    assert(run(pa, stack, m) == match value(a, m) {
        Some(v) => Some(stack.push(v)),
        None => None,
    });
    if value(a, m) is Some {
        let s1 = stack.push(value(a, m)->0);
        assert(run(pb, s1, m) == match value(b, m) {
            Some(v) => Some(s1.push(v)),
            None => None,
        });
        if value(b, m) is Some {
            let s2 = s1.push(value(b, m)->0);
            lemma_run_one(i, s2, m);
            assert(s2.drop_last() =~= s1);
            assert(s1.drop_last() =~= stack);
            assert(s2[s2.len() - 2] == value(a, m)->0);
        }
    }
}

/// The neutral number combined with the numbers of the operands, one after
/// another.
pub open spec fn folded(ops: Seq<Term>, i: Instruction, m: Reading) -> real {
    if i is Add {
        sum_of_numbers(ops, m)
    } else {
        product_of_numbers(ops, m)
    }
}

/// The steps of a sum or a product, after the neutral number is on the stack.
proof fn lemma_nary_program(ops: Seq<Term>, i: Instruction, stack: Seq<real>, neutral: real, m: Reading)
    requires
        i is Add && neutral == 0real || i is Multiply && neutral == 1real,
    ensures
        run(program_of_each(ops, i), stack.push(neutral), m) == if all_defined(ops, m) {
            Some(stack.push(folded(ops, i, m)))
        } else {
            None::<Seq<real>>
        },
    decreases ops,
{
    if ops.len() == 0 {
        assert(run(program_of_each(ops, i), stack.push(neutral), m) == Some(stack.push(neutral)));
        assert(sum_of_numbers(ops, m) == 0real);
        assert(product_of_numbers(ops, m) == 1real);
    } else {
        let init = ops.drop_last();
        let x = ops.last();
        lemma_nary_program(init, i, stack, neutral, m);
        let before = program_of_each(init, i);
        lemma_run_joined(before + program_of(x), seq![i], stack.push(neutral), m);
        lemma_run_joined(before, program_of(x), stack.push(neutral), m);
        assert(ops[ops.len() - 1] == x);
        if all_defined(init, m) {
            let s1 = stack.push(folded(init, i, m));
            lemma_program_computes_value(x, s1, m);
            if value(x, m) is None {
                assert(!all_defined(ops, m));
            }
            if value(x, m) is Some {
                let s2 = s1.push(value(x, m)->0);
                lemma_run_one(i, s2, m);
                assert(s2.drop_last() =~= s1);
                assert(s1.drop_last() =~= stack);
                assert(s2[s2.len() - 2] == folded(init, i, m));
                assert(number(x, m) == value(x, m)->0);
                assert(folded(ops, i, m) == combined(i, folded(init, i, m), number(x, m), m)->0);
                assert(all_defined(ops, m)) by {
                    assert forall|j: int| 0 <= j < ops.len() implies value(
                        #[trigger] ops[j],
                        m,
                    ) is Some by {
                        if j < init.len() {
                            assert(init[j] == ops[j]);
                        }
                    }
                }
            }
        } else {
            assert(!all_defined(ops, m)) by {
                if all_defined(ops, m) {
                    assert forall|j: int| 0 <= j < init.len() implies value(
                        #[trigger] init[j],
                        m,
                    ) is Some by {
                        assert(init[j] == ops[j]);
                    }
                }
            }
        }
    }
}

/// The label of the first step that takes the value of a variable.
pub open spec fn first_variable(steps: Seq<Instruction>) -> Option<Seq<char>>
    decreases steps.len(),
{
    if steps.len() == 0 {
        None
    } else {
        match first_variable(steps.drop_last()) {
            Some(label) => Some(label),
            None => match steps.last() {
                Instruction::Variable(label) => Some(label),
                _ => None,
            },
        }
    }
}

/// The first variable of two lists of steps joined.
pub proof fn lemma_first_variable_joined(a: Seq<Instruction>, b: Seq<Instruction>)
    ensures
        first_variable(a + b) == match first_variable(a) {
            Some(label) => Some(label),
            None => first_variable(b),
        },
    decreases b.len(),
{
    if b.len() == 0 {
        assert(a + b =~= a);
    } else {
        assert((a + b).drop_last() =~= a + b.drop_last());
        lemma_first_variable_joined(a, b.drop_last());
    }
}

/// The first variable of a single step.
pub proof fn lemma_first_variable_one(i: Instruction)
    ensures
        first_variable(seq![i]) == match i {
            Instruction::Variable(label) => Some(label),
            _ => None,
        },
{
    let e = Seq::<Instruction>::empty();
    assert(seq![i].drop_last() =~= e);
    assert(seq![i].last() == i);
    assert(first_variable(e) is None);
}

/// The label of a variable.
pub open spec fn label_of(found: Option<Term>) -> Option<Seq<char>> {
    match found {
        Some(Term::Variable(label)) => Some(label),
        _ => None,
    }
}

/// The first step of the evaluation of a term that takes the value of a
/// variable takes that of the variable at which the evaluation stops.
pub proof fn lemma_program_stops_at_first_unbound(t: Term)
    ensures
        first_variable(program_of(t)) == label_of(first_unbound(t)),
    decreases t,
{
    lemma_first_unbound_is_variable(t);
    match t {
        Term::Integer(v) => {
            lemma_first_variable_one(Instruction::Integer(v));
        },
        Term::Real(bits) => {
            lemma_first_variable_one(Instruction::Real(bits));
        },
        Term::Constant(_, bits) => {
            lemma_first_variable_one(Instruction::Real(bits));
        },
        Term::Variable(label) => {
            lemma_first_variable_one(Instruction::Variable(label));
        },
        Term::Power(a, b) => {
            lemma_program_stops_at_first_unbound(*a);
            lemma_program_stops_at_first_unbound(*b);
            lemma_binary_stops(*a, *b, Instruction::Raise);
        },
        Term::Logarithm(a, b) => {
            lemma_program_stops_at_first_unbound(*a);
            lemma_program_stops_at_first_unbound(*b);
            lemma_binary_stops(*a, *b, Instruction::Logarithm);
        },
        Term::Quotient(a, b) => {
            lemma_program_stops_at_first_unbound(*a);
            lemma_program_stops_at_first_unbound(*b);
            lemma_binary_stops(*a, *b, Instruction::Divide);
        },
        Term::Difference(a, b) => {
            lemma_program_stops_at_first_unbound(*a);
            lemma_program_stops_at_first_unbound(*b);
            lemma_binary_stops(*a, *b, Instruction::Subtract);
        },
        Term::Sine(a) => {
            lemma_program_stops_at_first_unbound(*a);
            lemma_first_unbound_is_variable(*a);
            lemma_first_variable_joined(program_of(*a), seq![Instruction::Sine]);
            lemma_first_variable_one(Instruction::Sine);
        },
        Term::Cosine(a) => {
            lemma_program_stops_at_first_unbound(*a);
            lemma_first_unbound_is_variable(*a);
            lemma_first_variable_joined(program_of(*a), seq![Instruction::Cosine]);
            lemma_first_variable_one(Instruction::Cosine);
        },
        Term::Product(ops) => {
            let start = seq![Instruction::Integer(1)];
            lemma_first_variable_one(Instruction::Integer(1));
            lemma_first_variable_joined(start, program_of_each(ops, Instruction::Multiply));
            lemma_nary_stops(ops, Instruction::Multiply);
        },
        Term::Sum(ops) => {
            let start = seq![Instruction::Integer(0)];
            lemma_first_variable_one(Instruction::Integer(0));
            lemma_first_variable_joined(start, program_of_each(ops, Instruction::Add));
            lemma_nary_stops(ops, Instruction::Add);
        },
    }
}

/// Where the steps of a node with two children stop.
proof fn lemma_binary_stops(a: Term, b: Term, i: Instruction)
    requires
        !(i is Variable),
        first_variable(program_of(a)) == label_of(first_unbound(a)),
        first_variable(program_of(b)) == label_of(first_unbound(b)),
    ensures
        first_variable(program_of(a) + program_of(b) + seq![i]) == label_of(
            first_of_two(first_unbound(a), first_unbound(b)),
        ),
{
    lemma_first_unbound_is_variable(a);
    lemma_first_unbound_is_variable(b);
    lemma_first_variable_joined(program_of(a) + program_of(b), seq![i]);
    lemma_first_variable_joined(program_of(a), program_of(b));
    lemma_first_variable_one(i);
}

/// Where the steps of the operands of a sum or a product stop.
proof fn lemma_nary_stops(ops: Seq<Term>, i: Instruction)
    requires
        !(i is Variable),
    ensures
        first_variable(program_of_each(ops, i)) == label_of(first_unbound_in(ops)),
    decreases ops,
{
    if ops.len() > 0 {
        let init = ops.drop_last();
        let x = ops.last();
        lemma_nary_stops(init, i);
        lemma_program_stops_at_first_unbound(x);
        lemma_first_unbound_is_variable(x);
        lemma_first_unbound_in_is_variable(init);
        lemma_first_variable_joined(program_of_each(init, i) + program_of(x), seq![i]);
        lemma_first_variable_joined(program_of_each(init, i), program_of(x));
        lemma_first_variable_one(i);
        lemma_first_unbound_in_last(ops);
    }
}

/// The first free variable among the operands is the first among all but the
/// last, or else that of the last.
pub proof fn lemma_first_unbound_in_last(ops: Seq<Term>)
    requires
        ops.len() > 0,
    ensures
        first_unbound_in(ops) == first_of_two(
            first_unbound_in(ops.drop_last()),
            first_unbound(ops.last()),
        ),
    decreases ops.len(),
{
    if ops.len() == 1 {
        assert(ops.drop_first() =~= Seq::<Term>::empty());
        assert(ops.drop_last() =~= Seq::<Term>::empty());
        assert(ops[0] == ops.last());
    } else {
        let tail = ops.drop_first();
        lemma_first_unbound_in_last(tail);
        assert(tail.drop_last() =~= ops.drop_last().drop_first());
        assert(tail.last() == ops.last());
        assert(ops.drop_last()[0] == ops[0]);
    }
}

impl Expression {
    /// The steps of the numeric evaluation of the expression, for a machine with
    /// a stack of numbers: run from an empty stack, they leave the number of the
    /// expression on it.
    pub fn program(&self) -> (r: Vec<Step>)
        ensures
            instructions_of(r@) == program_of(self@),
    {
        let mut steps: Vec<Step> = Vec::new();
        assert(instructions_of(steps@) =~= Seq::<Instruction>::empty());
        self.emit(&mut steps);
        assert(Seq::<Instruction>::empty() + program_of(self@) =~= program_of(self@));
        steps
    }

    /// Appends the steps of the evaluation of the expression.
    fn emit(&self, steps: &mut Vec<Step>)
        ensures
            instructions_of(final(steps)@) == instructions_of(old(steps)@) + program_of(self@),
        decreases self@, 1int,
    {
        let ghost before = instructions_of(steps@);
        match self {
            Expression::Integer(v) => {
                steps.push(Step::Integer(*v));
                assert(instructions_of(steps@) =~= before + program_of(self@));
            },
            Expression::Real(bits) => {
                steps.push(Step::Real(*bits));
                assert(instructions_of(steps@) =~= before + program_of(self@));
            },
            Expression::Constant(_, bits) => {
                steps.push(Step::Real(*bits));
                assert(instructions_of(steps@) =~= before + program_of(self@));
            },
            Expression::Variable(label) => {
                steps.push(Step::Variable(label.clone()));
                assert(instructions_of(steps@) =~= before + program_of(self@));
            },
            Expression::Power(p) => {
                p.argument().emit(steps);
                let ghost one = instructions_of(steps@);
                p.modifier().emit(steps);
                let ghost two = instructions_of(steps@);
                steps.push(Step::Raise);
                proof {
                    let a = program_of(p.base@);
                    let b = program_of(p.exp@);
                    let last = seq![Instruction::Raise];
                    assert(instructions_of(steps@) =~= two + last);
                    assert(before + a + b + last =~= before + (a + b + last));
                }
            },
            Expression::Logarithm(l) => {
                l.argument().emit(steps);
                let ghost one = instructions_of(steps@);
                l.modifier().emit(steps);
                let ghost two = instructions_of(steps@);
                steps.push(Step::Logarithm);
                proof {
                    let a = program_of(l.argument@);
                    let b = program_of(l.base@);
                    let last = seq![Instruction::Logarithm];
                    assert(instructions_of(steps@) =~= two + last);
                    assert(before + a + b + last =~= before + (a + b + last));
                }
            },
            Expression::Division(d) => {
                d.left_hand_side().emit(steps);
                let ghost one = instructions_of(steps@);
                d.right_hand_side().emit(steps);
                let ghost two = instructions_of(steps@);
                steps.push(Step::Divide);
                proof {
                    let a = program_of(d.left_hand_side@);
                    let b = program_of(d.right_hand_side@);
                    let last = seq![Instruction::Divide];
                    assert(instructions_of(steps@) =~= two + last);
                    assert(before + a + b + last =~= before + (a + b + last));
                }
            },
            Expression::Subtraction(s) => {
                s.left_hand_side().emit(steps);
                let ghost one = instructions_of(steps@);
                s.right_hand_side().emit(steps);
                let ghost two = instructions_of(steps@);
                steps.push(Step::Subtract);
                proof {
                    let a = program_of(s.left_hand_side@);
                    let b = program_of(s.right_hand_side@);
                    let last = seq![Instruction::Subtract];
                    assert(instructions_of(steps@) =~= two + last);
                    assert(before + a + b + last =~= before + (a + b + last));
                }
            },
            Expression::Sin(a) => {
                a.emit(steps);
                let ghost one = instructions_of(steps@);
                steps.push(Step::Sine);
                proof {
                    let last = seq![Instruction::Sine];
                    assert(instructions_of(steps@) =~= one + last);
                    assert(before + program_of(a@) + last =~= before + (program_of(a@) + last));
                }
            },
            Expression::Cos(a) => {
                a.emit(steps);
                let ghost one = instructions_of(steps@);
                steps.push(Step::Cosine);
                proof {
                    let last = seq![Instruction::Cosine];
                    assert(instructions_of(steps@) =~= one + last);
                    assert(before + program_of(a@) + last =~= before + (program_of(a@) + last));
                }
            },
            Expression::Multiplication(c) => {
                steps.push(Step::Integer(1));
                assert(instructions_of(steps@) =~= before + seq![Instruction::Integer(1)]);
                self.emit_each(c, steps, false);
                proof {
                    let first = seq![Instruction::Integer(1)];
                    let rest = program_of_each(c@, Instruction::Multiply);
                    assert(before + first + rest =~= before + (first + rest));
                }
            },
            Expression::Addition(c) => {
                steps.push(Step::Integer(0));
                assert(instructions_of(steps@) =~= before + seq![Instruction::Integer(0)]);
                self.emit_each(c, steps, true);
                proof {
                    let first = seq![Instruction::Integer(0)];
                    let rest = program_of_each(c@, Instruction::Add);
                    assert(before + first + rest =~= before + (first + rest));
                }
            },
        }
    }

    /// Appends the steps that evaluate each operand of a sum or product of
    /// `self` and add it to, or multiply it with, what is on the stack.
    fn emit_each(&self, c: &CommutativeAssociation, steps: &mut Vec<Step>, adding: bool)
        requires
            self@ == Term::Product(c@) || self@ == Term::Sum(c@),
        ensures
            instructions_of(final(steps)@) == instructions_of(old(steps)@) + program_of_each(
                c@,
                if adding {
                    Instruction::Add
                } else {
                    Instruction::Multiply
                },
            ),
        decreases self@, 0int,
    {
        let ghost before = instructions_of(steps@);
        let ghost combine = if adding {
            Instruction::Add
        } else {
            Instruction::Multiply
        };
        let mut i: usize = 0;
        proof {
            assert(c@.take(0) =~= Seq::<Term>::empty());
            assert(before + program_of_each(c@.take(0), combine) =~= before);
        }
        while i < c.len()
            invariant
                i <= c@.len(),
                self@ == Term::Product(c@) || self@ == Term::Sum(c@),
                combine == if adding {
                    Instruction::Add
                } else {
                    Instruction::Multiply
                },
                instructions_of(steps@) == before + program_of_each(c@.take(i as int), combine),
            decreases c@.len() - i,
        {
            let ghost so_far = instructions_of(steps@);
            let item = c.operand(i);
            proof {
                if self@ is Product {
                    assert(decreases_to!(self@ => self@->Product_0));
                } else {
                    assert(decreases_to!(self@ => self@->Sum_0));
                }
                assert(decreases_to!(c@ => c@[i as int]));
                assert(c@.take(i + 1).drop_last() =~= c@.take(i as int));
                assert(c@.take(i + 1).last() == c@[i as int]);
            }
            item.emit(steps);
            if adding {
                steps.push(Step::Add);
            } else {
                steps.push(Step::Multiply);
            }
            assert(instructions_of(steps@) =~= so_far + program_of(item@) + seq![combine]);
            assert(so_far + program_of(item@) + seq![combine] =~= before + program_of_each(
                c@.take(i + 1),
                combine,
            ));
            i += 1;
        }
        assert(c@.take(i as int) =~= c@);
    }
}

} // verus!

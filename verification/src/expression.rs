//! Expressions: the values and pending operator applications that live on the
//! tape, and their mathematical model.

use std::collections::VecDeque;
use vstd::prelude::*;
use vstd::std_specs::vecdeque::VecDequeAdditionalSpecFns;

verus! {

/// Operators of one operand.
#[derive(Clone, Copy, Debug, PartialEq, Eq)]
pub enum Unary {
    Fetch,
    Signum,
    Neg,
    Recip,
}

/// Operators of two operands.
#[derive(Clone, Copy, Debug, PartialEq, Eq)]
pub enum Binary {
    Plus,
    Mult,
    Assign,
    CallWith,
}

/// One slot of the tape, one frame of the call stack, or one operand.
///
/// `Undefined`, numbers, lists and pointers into lists are values. The other
/// four are still to be reduced.
#[allow(inconsistent_fields)]
#[derive(Debug, PartialEq)]
pub enum Expression {
    /// No value.
    Undefined,
    /// A number, as the bit pattern of a binary64 number.
    Number(u64),
    /// A list of its own items.
    List(Vec<Expression>),
    /// The list at an address of the tape, seen from an offset on. It owns
    /// nothing: it stands for what the address holds when it is read.
    PointerIntoList { address: usize, offset: usize },
    /// Steps to reduce one after the other; the last one gives the value.
    Sequence(VecDeque<Expression>),
    /// An operator of one operand that is still to be applied.
    Unary { operator: Unary, operand: Box<Expression> },
    /// An operator of two operands that is still to be applied.
    Binary { operator: Binary, left: Box<Expression>, right: Box<Expression> },
    /// The place of an operand while a frame of its own reduces it.
    Stub,
}

/// The mathematical model of an [`Expression`]: the same shapes over
/// sequences and natural numbers.
#[allow(inconsistent_fields)]
pub enum Term {
    Undefined,
    Number(u64),
    List(Seq<Term>),
    PointerIntoList { address: nat, offset: nat },
    Sequence(Seq<Term>),
    Unary { operator: Unary, operand: Box<Term> },
    Binary { operator: Binary, left: Box<Term>, right: Box<Term> },
    Stub,
}

impl Expression {
    /// The term that this expression stands for.
    pub open spec fn term(&self) -> Term
        decreases self,
    {
        match self {
            Expression::Undefined => Term::Undefined,
            Expression::Number(bits) => Term::Number(*bits),
            Expression::List(items) => Term::List(terms(items@)),
            Expression::PointerIntoList { address, offset } => Term::PointerIntoList {
                address: *address as nat,
                offset: *offset as nat,
            },
            Expression::Sequence(steps) => Term::Sequence(
                Seq::new(
                    steps@.len(),
                    |i: int|
                        if 0 <= i < steps@.len() {
                            steps@[i].term()
                        } else {
                            Term::Undefined
                        },
                ),
            ),
            Expression::Unary { operator, operand } => Term::Unary {
                operator: *operator,
                operand: Box::new(operand.term()),
            },
            Expression::Binary { operator, left, right } => Term::Binary {
                operator: *operator,
                left: Box::new(left.term()),
                right: Box::new(right.term()),
            },
            Expression::Stub => Term::Stub,
        }
    }
}

impl Term {
    /// Whether a term is fully reduced: `Undefined`, a number, a list or a
    /// pointer into a list. Everything else still has to be reduced.
    pub open spec fn is_value(self) -> bool {
        self is Undefined || self is Number || self is List || self is PointerIntoList
    }
}

/// The terms that a sequence of expressions stands for, one for one.
pub open spec fn terms(expressions: Seq<Expression>) -> Seq<Term>
    decreases expressions,
{
    Seq::new(
        expressions.len(),
        |i: int|
            if 0 <= i < expressions.len() {
                expressions[i].term()
            } else {
                Term::Undefined
            },
    )
}

/// A sequence stands for the terms of its steps.
pub broadcast proof fn lemma_sequence_terms(steps: VecDeque<Expression>)
    ensures
        #[trigger] Expression::Sequence(steps).term() == Term::Sequence(terms(steps@)),
{
    assert(Expression::Sequence(steps).term()->Sequence_0 =~= terms(steps@));
}

impl View for Expression {
    type V = Term;

    open spec fn view(&self) -> Term {
        self.term()
    }
}

impl Default for Expression {
    fn default() -> (e: Expression)
        ensures
            e@ == Term::Undefined,
    {
        Expression::Undefined
    }
}

impl Clone for Expression {
    fn clone(&self) -> (copy: Expression)
        ensures
            copy@ == self@,
    {
        self.duplicate()
    }
}

impl Expression {
    /// A deep copy.
    pub fn duplicate(&self) -> (copy: Expression)
        ensures
            copy@ == self@,
        decreases self,
    {
        match self {
            Expression::Undefined => Expression::Undefined,
            Expression::Number(bits) => Expression::Number(*bits),
            Expression::List(items) => {
                let mut copies: Vec<Expression> = Vec::new();
                let mut i: usize = 0;
                while i < items.len()
                    invariant
                        *self == Expression::List(*items),
                        i <= items@.len(),
                        copies@.len() == i,
                        forall|j: int| 0 <= j < i ==> copies@[j]@ == items@[j]@,
                    decreases items@.len() - i,
                {
                    assert(decreases_to!(self => self->List_0));
                    assert(decreases_to!(self->List_0 => self->List_0[i as int]));
                    copies.push(items[i].duplicate());
                    i += 1;
                }
                assert(terms(copies@) =~= terms(items@));
                Expression::List(copies)
            },
            Expression::PointerIntoList { address, offset } => Expression::PointerIntoList {
                address: *address,
                offset: *offset,
            },
            Expression::Sequence(steps) => {
                broadcast use lemma_sequence_terms;

                let mut copies: VecDeque<Expression> = VecDeque::new();
                let mut i: usize = 0;
                while i < steps.len()
                    invariant
                        *self == Expression::Sequence(*steps),
                        i <= steps@.len(),
                        copies@.len() == i,
                        forall|j: int| 0 <= j < i ==> copies@[j]@ == steps@[j]@,
                    decreases steps@.len() - i,
                {
                    assert(decreases_to!(self => self->Sequence_0));
                    assert(decreases_to!(self->Sequence_0 => self->Sequence_0[i as int]));
                    copies.push_back(steps[i].duplicate());
                    i += 1;
                }
                assert(terms(copies@) =~= terms(steps@));
                Expression::Sequence(copies)
            },
            Expression::Unary { operator, operand } => Expression::Unary {
                operator: *operator,
                operand: Box::new(operand.duplicate()),
            },
            Expression::Binary { operator, left, right } => Expression::Binary {
                operator: *operator,
                left: Box::new(left.duplicate()),
                right: Box::new(right.duplicate()),
            },
            Expression::Stub => Expression::Stub,
        }
    }
}

/// A labelled expression: what a program binds to one address of the tape.
#[derive(Debug, PartialEq)]
pub struct Instruction {
    pub label: usize,
    pub expression: Expression,
}

} // verus!

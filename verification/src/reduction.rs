//! The stack in place of recursion: an expression made of numbers and the
//! operators of arithmetic reduces, frame by frame, to the value that a
//! recursive reading of it gives.

use vstd::prelude::*;

use crate::arith::{reciprocal, sum};
use crate::expression::{Binary, Term, Unary};
use crate::laws::{entered, lemma_idle_fetch_enters, left};
use crate::model::{Fault, Note, State, Step};
use crate::number::{negation, sign};
use crate::wellformed::lemma_run_unfolds;

verus! {

/// Whether a term is made of numbers, `Undefined`, `Neg`, `Recip`, `Signum`
/// and `Plus` alone.
pub open spec fn arithmetic(term: Term) -> bool
    decreases term,
{
    match term {
        Term::Undefined | Term::Number(_) => true,
        Term::Unary { operator, operand } => !(operator is Fetch) && arithmetic(*operand),
        Term::Binary { operator, left, right } => operator is Plus && arithmetic(*left)
            && arithmetic(*right),
        _ => false,
    }
}

/// What an operator of one operand makes of a number or of `Undefined`.
pub open spec fn unary_value(operator: Unary, operand: Term) -> Term {
    match operand {
        Term::Number(bits) => match operator {
            Unary::Neg => Term::Number(negation(bits)),
            Unary::Recip => Term::Number(reciprocal(bits)),
            _ => match sign(bits) {
                Some(s) => Term::Number(s),
                None => Term::Undefined,
            },
        },
        _ => Term::Undefined,
    }
}

/// The sum of two numbers; `Undefined` where one of them is.
pub open spec fn plus_value(left: Term, right: Term) -> Term {
    match (left, right) {
        (Term::Number(a), Term::Number(b)) => Term::Number(sum(a, b)),
        _ => Term::Undefined,
    }
}

/// The value of an arithmetic term, read recursively.
pub open spec fn value_of(term: Term) -> Term
    decreases term,
{
    match term {
        Term::Unary { operator, operand } => unary_value(operator, value_of(*operand)),
        Term::Binary { operator, left, right } => plus_value(value_of(*left), value_of(*right)),
        _ => term,
    }
}

/// The steps that an operand takes before its operator can go on: none for
/// a value, else one to enter it and those of its own.
pub open spec fn operand_cost(operand: Term) -> nat
    decreases operand, 1nat,
{
    if operand.is_value() {
        0
    } else {
        1 + cost(operand)
    }
}

/// The number of steps that reduce a frame of an arithmetic term.
pub open spec fn cost(term: Term) -> nat
    decreases term, 0nat,
{
    match term {
        Term::Unary { operator, operand } => operand_cost(*operand) + 1,
        Term::Binary { operator, left, right } => operand_cost(*left) + operand_cost(*right) + 1,
        _ => 1,
    }
}

/// The value of an arithmetic term is a number or `Undefined`.
pub proof fn lemma_value_is_plain(term: Term)
    requires
        arithmetic(term),
    ensures
        value_of(term) is Number || value_of(term) is Undefined,
    decreases term,
{
    match term {
        Term::Unary { operator, operand } => lemma_value_is_plain(*operand),
        Term::Binary { operator, left, right } => {
            lemma_value_is_plain(*left);
            lemma_value_is_plain(*right);
        },
        _ => {},
    }
}

/// A run that meets no fault can be made in two parts.
pub proof fn lemma_run_splits(s: State, first: nat, second: nat)
    requires
        s.run(first).fault is None,
    ensures
        s.run(first + second) == s.run(first).state.run(second).after(s.run(first).notes),
    decreases first,
{
    let none = Seq::<Note>::empty();
    if s.finished() || first == 0 {
        assert(s.run(first) == Step::fine(s));
        if s.finished() {
            assert(s.run(first + second) == Step::fine(s));
            assert(s.run(second) == Step::fine(s));
        }
        assert(none + s.run(second).notes =~= s.run(second).notes);
    } else {
        let step = s.tick();
        lemma_run_unfolds(s, first, none);
        lemma_run_unfolds(s, first + second, none);
        assert(none + s.run(first).notes =~= s.run(first).notes);
        assert(none + s.run(first + second).notes =~= s.run(first + second).notes);
        assert(none + step.notes =~= step.notes);
        let rest = step.state;
        assert(rest.run((first - 1) as nat).fault is None);
        lemma_run_splits(rest, (first - 1) as nat, second);
        let a = rest.run((first - 1) as nat);
        let b = a.state.run(second);
        assert(step.notes + (a.notes + b.notes) =~= (step.notes + a.notes) + b.notes);
    }
}

/// A run that left no frame and met no fault is the same with more steps.
pub proof fn lemma_run_settles(s: State, enough: nat, limit: nat)
    requires
        s.run(enough).fault is None,
        s.run(enough).state.finished(),
        limit >= enough,
    ensures
        s.run(limit) == s.run(enough),
{
    lemma_run_splits(s, enough, (limit - enough) as nat);
    let done = s.run(enough);
    assert(done.state.run((limit - enough) as nat) == Step::fine(done.state));
    assert(done.notes + Seq::<Note>::empty() =~= done.notes);
}

/// A run of one step is that step.
pub proof fn lemma_run_once(s: State)
    requires
        !s.finished(),
    ensures
        s.run(1) == s.tick(),
{
    let step = s.tick();
    if step.fault is None {
        assert(step.state.run(0) == Step::fine(step.state));
        assert(Step::fine(step.state).after(step.notes).notes =~= step.notes);
    }
}

/// A run that ends in a state, with no fault and no frame entered, goes on
/// from that state.
pub proof fn lemma_run_goes_on(s: State, first: nat, middle: State, second: nat)
    requires
        s.run(first) == Step::fine(middle),
    ensures
        s.run(first + second) == middle.run(second),
{
    lemma_run_splits(s, first, second);
    assert(Seq::<Note>::empty() + middle.run(second).notes =~= middle.run(second).notes);
}

/// The state in which an operator waits for an operand: the operator is
/// back on the stack with a placeholder, the operand is the innermost frame.
pub open spec fn waiting(s: State, operator: Term, operand: Term) -> State {
    s.pop().push(operator).push(operand)
}

/// An operand that is a frame of its own is reduced to its value, which the
/// operator below finds in the register.
proof fn lemma_operand_reduces(s: State, operator: Term, operand: Term)
    requires
        !s.finished(),
        arithmetic(operand),
        waiting(s, operator, operand).run(cost(operand)) == Step::fine(
            waiting(s, operator, operand).pop().deliver(value_of(operand)).settled(),
        ),
    ensures
        waiting(s, operator, operand).run(cost(operand)) == Step::fine(
            s.pop().push(operator).deliver(value_of(operand)),
        ),
        s.pop().push(operator).deliver(value_of(operand)).pop() == s.pop().deliver(
            value_of(operand),
        ),
        s.pop().push(operator).deliver(value_of(operand)).stack.last() == operator,
        !s.pop().push(operator).deliver(value_of(operand)).finished(),
{
    let w = waiting(s, operator, operand);
    assert(w.pop().stack =~= s.pop().push(operator).stack);
    assert(s.pop().push(operator).stack.drop_last() =~= s.pop().stack);
}

/// A frame of an arithmetic term is reduced in as many steps as the term
/// costs: the frame is gone, its value is in the register, and nothing else
/// has changed. No fault is met and no frame is entered.
pub proof fn lemma_frame_reduces(s: State, term: Term)
    requires
        !s.finished(),
        s.stack.last() == term,
        arithmetic(term),
    ensures
        s.run(cost(term)) == Step::fine(s.pop().deliver(value_of(term)).settled()),
    decreases term,
{
    reveal(State::tick);
    lemma_run_once(s);
    match term {
        Term::Unary { operator, operand } => {
            let operand = *operand;
            lemma_value_is_plain(operand);
            let value = value_of(operand);
            if operand.is_value() {
                assert(s.pop().deliver(s.fetched) == s.pop());
            } else {
                let hole = Term::Unary { operator, operand: Box::new(Term::Stub) };
                let w = waiting(s, hole, operand);
                assert(s.pop().deliver(s.fetched) == s.pop());
                assert(s.tick() == Step::fine(w));
                assert(w.stack.last() == operand);
                lemma_frame_reduces(w, operand);
                lemma_operand_reduces(s, hole, operand);
                let back = s.pop().push(hole).deliver(value);
                lemma_run_once(back);
                assert(back.tick() == Step::fine(s.pop().deliver(unary_value(operator, value)).settled()));
                lemma_run_goes_on(w, cost(operand), back, 1);
                lemma_run_goes_on(s, 1, w, cost(operand) + 1);
            }
        },
        Term::Binary { operator, left, right } => {
            let left = *left;
            let right = *right;
            lemma_value_is_plain(left);
            lemma_value_is_plain(right);
            let l = value_of(left);
            let r = value_of(right);
            let sum_of = plus_value(l, r);
            assert(s.pop().deliver(s.fetched) == s.pop());
            if left.is_value() && right.is_value() {
            } else if left.is_value() {
                let hole = Term::Binary {
                    operator,
                    left: Box::new(left),
                    right: Box::new(Term::Stub),
                };
                let w = waiting(s, hole, right);
                assert(s.tick() == Step::fine(w));
                assert(w.stack.last() == right);
                lemma_frame_reduces(w, right);
                lemma_operand_reduces(s, hole, right);
                let back = s.pop().push(hole).deliver(r);
                lemma_run_once(back);
                assert(back.tick() == Step::fine(s.pop().deliver(sum_of).settled()));
                lemma_run_goes_on(w, cost(right), back, 1);
                lemma_run_goes_on(s, 1, w, cost(right) + 1);
            } else {
                let hole = Term::Binary {
                    operator,
                    left: Box::new(Term::Stub),
                    right: Box::new(right),
                };
                let w = waiting(s, hole, left);
                assert(s.tick() == Step::fine(w));
                assert(w.stack.last() == left);
                lemma_frame_reduces(w, left);
                lemma_operand_reduces(s, hole, left);
                let back = s.pop().push(hole).deliver(l);
                lemma_run_once(back);
                if right.is_value() {
                    assert(back.tick() == Step::fine(s.pop().deliver(sum_of).settled()));
                    lemma_run_goes_on(w, cost(left), back, 1);
                    lemma_run_goes_on(s, 1, w, cost(left) + 1);
                } else {
                    let second = Term::Binary {
                        operator,
                        left: Box::new(l),
                        right: Box::new(Term::Stub),
                    };
                    let w2 = waiting(back, second, right);
                    assert(back.pop().deliver(Term::Undefined).push(second).push(right) == w2.deliver(
                        Term::Undefined,
                    ));
                    let w3 = w2.deliver(Term::Undefined);
                    assert(back.tick() == Step::fine(w3));
                    assert(w3.stack.last() == right);
                    lemma_frame_reduces(w3, right);
                    assert(w3.pop().stack =~= s.pop().push(second).stack);
                    let last = s.pop().push(second).deliver(r);
                    assert(w3.pop().deliver(r) == last);
                    assert(last.pop().stack =~= s.pop().stack);
                    lemma_run_once(last);
                    assert(last.tick() == Step::fine(s.pop().deliver(sum_of).settled()));
                    lemma_run_goes_on(w3, cost(right), last, 1);
                    lemma_run_goes_on(back, 1, w3, cost(right) + 1);
                    lemma_run_goes_on(w, cost(left), back, 1 + cost(right) + 1);
                    lemma_run_goes_on(s, 1, w, cost(left) + 1 + cost(right) + 1);
                }
            }
        },
        _ => {},
    }
}

/// An address that holds an arithmetic term evaluates to the value of the
/// term, read recursively, where the steps suffice.
pub proof fn lemma_arithmetic_evaluates(s: State, address: nat, limit: nat)
    requires
        s.finished(),
        arithmetic(s.slot(address)),
        limit >= cost(s.slot(address)),
    ensures
        s.evaluate(address, limit).result == Ok::<Term, Fault>(value_of(s.slot(address))),
        !s.slot(address).is_value() ==> s.evaluate(address, limit).state == left(s),
{
    let term = s.slot(address);
    lemma_value_is_plain(term);
    if term.is_value() {
        let begun = s.settled().fetch(address);
        assert(begun.state.run(limit) == Step::fine(begun.state));
    } else {
        lemma_idle_fetch_enters(s, address);
        let begun = entered(s, address);
        lemma_frame_reduces(begun, term);
        let done = begun.run(cost(term));
        assert(done.state.stack =~= Seq::<Term>::empty());
        lemma_run_settles(begun, cost(term), limit);
    }
}

} // verus!

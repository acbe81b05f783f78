//! The invariant of the machine: every operation of the model keeps it, and
//! keeps the length of the tape. A state is sound even in the middle of a
//! step; between two steps no address is executing unless a frame is pending.

use vstd::prelude::*;

use crate::expression::{Binary, Term, Unary};
use crate::model::{address_of, resolved, span, Binding, Note, State, Step};

verus! {

/// The span of a program is beyond each of its labels.
pub proof fn lemma_span_covers(program: Seq<Binding>, j: int)
    requires
        0 <= j < program.len(),
    ensures
        program[j].label < span(program),
    decreases program.len(),
{
    if j < program.len() - 1 {
        lemma_span_covers(program.drop_last(), j);
    }
}

/// Handing a term on keeps the tape, and with it soundness and the
/// invariant.
pub proof fn lemma_solve_keeps(s: State, term: Term)
    ensures
        s.keeps(s.solve(term).state),
        s.solve(term).state.tape == s.tape,
{
}

/// A fetch keeps the length of the tape, soundness and the invariant.
pub proof fn lemma_fetch_keeps(s: State, address: nat)
    ensures
        s.keeps(s.fetch(address).state),
{
}

/// Applying an operator of one operand keeps the length of the tape,
/// soundness and the invariant.
pub proof fn lemma_unary_keeps(s: State, operator: Unary, operand: Term)
    ensures
        s.keeps(s.unary(operator, operand).state),
{
    match operand {
        Term::Number(bits) => {
            match address_of(bits, s.tape.len()) {
                Some(address) => lemma_fetch_keeps(s, address),
                None => {},
            }
        },
        _ => {},
    }
}

/// Applying an operator of two operands keeps the length of the tape,
/// soundness and the invariant.
pub proof fn lemma_binary_keeps(s: State, operator: Binary, left: Term, right: Term)
    ensures
        s.keeps(s.binary(operator, left, right).state),
{
    match operator {
        Binary::Plus => {
            assert(s.keeps(s.plus(left, right).state));
        },
        Binary::Mult => {},
        Binary::Assign => {},
        Binary::CallWith => {
            match left {
                Term::Number(bits) => {
                    match address_of(bits, s.tape.len()) {
                        Some(address) => lemma_fetch_keeps(s, address),
                        None => {},
                    }
                },
                _ => {},
            }
        },
    }
}

/// Reducing the innermost frame keeps the length of the tape and soundness.
pub proof fn lemma_reduce_keeps(s: State)
    ensures
        s.reduce().state.tape.len() == s.tape.len(),
        s.sound() ==> s.reduce().state.sound(),
{
    if s.stack.len() > 0 {
        match s.stack.last() {
            Term::Unary { operator, operand } => {
                let (value, register) = resolved(*operand, s.fetched);
                lemma_unary_keeps(s.pop().deliver(register), operator, value);
            },
            Term::Binary { operator, left, right } => {
                let (l, first) = resolved(*left, s.fetched);
                let (r, register) = resolved(*right, first);
                lemma_binary_keeps(s.pop().deliver(register), operator, l, r);
            },
            _ => {},
        }
    }
}

/// One step keeps the length of the tape and soundness, and leaves a sound
/// state with the invariant: no address is executing once the stack is empty.
pub proof fn lemma_tick_keeps(s: State)
    ensures
        s.keeps(s.tick().state),
        s.sound() ==> s.tick().state.wf(),
        s.tick().state.finished() ==> s.tick().state.current is None,
{
    reveal(State::tick);
    lemma_reduce_keeps(s);
}

/// A run of at least one step is its first step and the run from there,
/// with the notices of the first step before those of the rest.
pub proof fn lemma_run_unfolds(s: State, limit: nat, earlier: Seq<Note>)
    requires
        !s.finished(),
        limit > 0,
    ensures
        s.tick().fault is Some ==> s.run(limit).after(earlier) == s.tick().after(earlier),
        s.tick().fault is None ==> s.run(limit).after(earlier) == s.tick().state.run(
            (limit - 1) as nat,
        ).after(earlier + s.tick().notes),
{
    let step = s.tick();
    if step.fault is None {
        let rest = step.state.run((limit - 1) as nat);
        assert(earlier + (step.notes + rest.notes) =~= (earlier + step.notes) + rest.notes);
    }
}

/// A run that makes no step leaves the state and enters no frame.
pub proof fn lemma_run_stops(s: State, limit: nat, earlier: Seq<Note>)
    requires
        s.finished() || limit == 0,
    ensures
        s.run(limit).after(earlier) == (Step { state: s, fault: None, notes: earlier }),
{
    assert(earlier + Seq::<Note>::empty() =~= earlier);
}

/// A run keeps the length of the tape, soundness and the invariant.
pub proof fn lemma_run_keeps(s: State, limit: nat)
    ensures
        s.keeps(s.run(limit).state),
    decreases limit,
{
    if !s.finished() && limit > 0 {
        lemma_tick_keeps(s);
        if s.tick().fault is None {
            lemma_run_keeps(s.tick().state, (limit - 1) as nat);
        }
    }
}

/// An evaluation keeps the length of the tape, soundness and the invariant,
/// and what a sound machine returns is a value that is no pointer.
pub proof fn lemma_evaluate_keeps(s: State, address: nat, limit: nat)
    ensures
        s.keeps(s.evaluate(address, limit).state),
        s.sound() ==> (s.evaluate(address, limit).result matches Ok(value) ==> value.is_value()
            && !(value is PointerIntoList)),
{
    lemma_fetch_keeps(s.settled(), address);
    let begun = s.settled().fetch(address);
    if begun.fault is None {
        lemma_run_keeps(begun.state, limit);
    }
}

} // verus!

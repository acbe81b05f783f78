//! Laws of the machine: what holds of every state, whatever the program.

use vstd::prelude::*;

use crate::arith::sum;
use crate::expression::{Binary, Term, Unary};
use crate::machine::Machine;
use crate::model::{
    address_of, advanced, bound_to, dropped, resolved, span, Binding, Evaluation, Fault, Note,
    State, Step,
};

verus! {

/// A slot that holds a number or `Undefined` evaluates to what it holds, in
/// no step, and nothing but the register changes.
pub proof fn lemma_value_idempotence(s: State, address: nat, limit: nat)
    requires
        s.finished(),
        s.slot(address) is Number || s.slot(address) is Undefined,
    ensures
        s.evaluate(address, limit) == (Evaluation {
            state: s.settled().deliver(Term::Undefined),
            result: Ok(s.slot(address)),
            notes: Seq::empty(),
        }),
{
    let begun = s.settled().fetch(address).state;
    assert(begun.run(limit) == Step::fine(begun));
    assert(Step::fine(begun).after(Seq::empty()).notes =~= Seq::<Note>::empty());
}

/// A slot that holds a list evaluates to that list: the pointer that the
/// fetch leaves in the register is replaced by the list that it points to.
pub proof fn lemma_list_materialises(s: State, address: nat, limit: nat)
    requires
        s.finished(),
        s.slot(address) is List,
    ensures
        s.evaluate(address, limit) == (Evaluation {
            state: s.settled().deliver(Term::Undefined),
            result: Ok(s.slot(address)),
            notes: Seq::empty(),
        }),
{
    let begun = s.settled().fetch(address).state;
    assert(begun.run(limit) == Step::fine(begun));
    assert(Step::fine(begun).after(Seq::empty()).notes =~= Seq::<Note>::empty());
    let items = s.slot(address)->List_0;
    assert(dropped(items, 0) =~= items);
}

/// The state that the fetch of a slot that is no value leaves: the slot is
/// the one frame, the register and the argument register are empty, and the
/// address is the executing one.
pub open spec fn entered(s: State, address: nat) -> State {
    State {
        stack: seq![s.slot(address)],
        fetched: Term::Undefined,
        current: Some(address),
        ..s.call_with(Term::Undefined)
    }
}

/// The state that an evaluation leaves which entered an address and came to
/// its end: no frame, no address executing, the register taken, and the
/// argument register as the entry emptied it.
pub open spec fn left(s: State) -> State {
    State {
        stack: Seq::empty(),
        fetched: Term::Undefined,
        current: None,
        ..s.call_with(Term::Undefined)
    }
}

/// On an empty stack, the fetch of an address that holds no value enters it,
/// whichever address was executed before: the slot becomes the one frame.
pub proof fn lemma_idle_fetch_enters(s: State, address: nat)
    requires
        s.finished(),
        s.slot(address) is Sequence || s.slot(address) is Unary || s.slot(address) is Binary,
    ensures
        s.settled().fetch(address) == Step::entered(
            entered(s, address),
            Some(address),
            s.slot(address),
        ),
        s.wf() ==> s.settled() == s,
{
    let begun = s.settled().fetch(address).state;
    assert(begun.stack =~= seq![s.slot(address)]);
}

/// An address that holds the sum of two numbers evaluates to their sum in
/// one step.
pub proof fn lemma_sum_evaluates(s: State, address: nat, a: u64, b: u64, limit: nat)
    requires
        s.finished(),
        limit >= 1,
        s.slot(address) == (Term::Binary {
            operator: Binary::Plus,
            left: Box::new(Term::Number(a)),
            right: Box::new(Term::Number(b)),
        }),
    ensures
        s.evaluate(address, limit).result == Ok::<Term, Fault>(Term::Number(sum(a, b))),
        s.evaluate(address, limit).state == left(s),
{
    reveal(State::tick);
    lemma_idle_fetch_enters(s, address);
    let begun = entered(s, address);
    let step = begun.tick();
    assert(step.state.stack =~= Seq::<Term>::empty());
    assert(step.state.run((limit - 1) as nat) == Step::fine(step.state));
    assert(begun.run(limit).state == step.state);
}

/// An address that holds the fetch of another address, which holds a number
/// or `Undefined`, evaluates to what that address holds, in one step.
pub proof fn lemma_fetch_evaluates(s: State, address: nat, number: u64, limit: nat)
    requires
        s.finished(),
        limit >= 1,
        s.slot(address) == (Term::Unary {
            operator: Unary::Fetch,
            operand: Box::new(Term::Number(number)),
        }),
        address_of(number, s.tape.len()) is Some,
        address_of(number, s.tape.len())->0 != address,
        address_of(number, s.tape.len())->0 != 0,
        s.slot(address_of(number, s.tape.len())->0) is Number || s.slot(
            address_of(number, s.tape.len())->0,
        ) is Undefined,
    ensures
        s.evaluate(address, limit).result == Ok::<Term, Fault>(
            s.slot(address_of(number, s.tape.len())->0),
        ),
        s.evaluate(address, limit).state == left(s),
{
    reveal(State::tick);
    lemma_idle_fetch_enters(s, address);
    let begun = entered(s, address);
    let step = begun.tick();
    assert(step.state.stack =~= Seq::<Term>::empty());
    assert(step.state.run((limit - 1) as nat) == Step::fine(step.state));
    assert(begun.run(limit).state == step.state);
}

/// An address that holds the fetch of itself does not enter itself again:
/// the reentry guard reads address 0, which the entry has emptied, and the
/// result is `Undefined`.
pub proof fn lemma_self_fetch_evaluates(s: State, address: nat, number: u64, limit: nat)
    requires
        s.finished(),
        address != 0,
        limit >= 1,
        s.slot(address) == (Term::Unary {
            operator: Unary::Fetch,
            operand: Box::new(Term::Number(number)),
        }),
        address_of(number, s.tape.len()) == Some(address),
    ensures
        s.evaluate(address, limit).result == Ok::<Term, Fault>(Term::Undefined),
        s.evaluate(address, limit).state == left(s),
{
    reveal(State::tick);
    lemma_idle_fetch_enters(s, address);
    let begun = entered(s, address);
    let step = begun.tick();
    assert(step.state.stack =~= Seq::<Term>::empty());
    assert(step.state.run((limit - 1) as nat) == Step::fine(step.state));
    assert(begun.run(limit).state == step.state);
}

/// What an assignment wrote is there for the next request, also where the
/// next request is mounted on the label that made the assignment: after a
/// label that assigns a number to an address was evaluated, the same label,
/// bound anew to the fetch of that address, evaluates to the number.
pub proof fn lemma_assignment_persists(
    s: State,
    label: nat,
    target: u64,
    value: u64,
    limit: nat,
)
    requires
        s.finished(),
        limit >= 1,
        label < s.tape.len(),
        address_of(target, s.tape.len()) is Some,
        0 < address_of(target, s.tape.len())->0 < s.tape.len(),
        address_of(target, s.tape.len())->0 != label,
        s.slot(label) == (Term::Binary {
            operator: Binary::Assign,
            left: Box::new(Term::Number(target)),
            right: Box::new(Term::Number(value)),
        }),
    ensures
        ({
            let first = s.evaluate(label, limit);
            let reading = Binding {
                label,
                term: Term::Unary {
                    operator: Unary::Fetch,
                    operand: Box::new(Term::Number(target)),
                },
            };
            let second = first.state.mount(seq![reading]).evaluate(label, limit);
            &&& first.result == Ok::<Term, Fault>(Term::Undefined)
            &&& first.state.slot(address_of(target, s.tape.len())->0) == Term::Number(value)
            &&& second.result == Ok::<Term, Fault>(Term::Number(value))
        }),
{
    reveal(State::tick);
    let address = address_of(target, s.tape.len())->0;
    // the first request: the assignment
    lemma_idle_fetch_enters(s, label);
    let begun = entered(s, label);
    let step = begun.tick();
    assert(step.state.stack =~= Seq::<Term>::empty());
    assert(step.state.run((limit - 1) as nat) == Step::fine(step.state));
    assert(begun.run(limit).state == step.state);
    let first = s.evaluate(label, limit);
    assert(first.state.tape.len() == s.tape.len());
    // the second request: the fetch, mounted on the same label
    let fetch = Term::Unary { operator: Unary::Fetch, operand: Box::new(Term::Number(target)) };
    let program = seq![Binding { label, term: fetch }];
    assert(program.drop_last() =~= Seq::<Binding>::empty());
    reveal_with_fuel(bound_to, 2);
    reveal_with_fuel(span, 2);
    let again = first.state.mount(program);
    assert(again.tape.len() == s.tape.len());
    assert(again.slot(label) == fetch);
    assert(again.slot(address) == Term::Number(value));
    lemma_idle_fetch_enters(again, label);
    let reentered = entered(again, label);
    let read = reentered.tick();
    assert(read.state.stack =~= Seq::<Term>::empty());
    assert(read.state.run((limit - 1) as nat) == Step::fine(read.state));
    assert(reentered.run(limit).state == read.state);
}

/// A request on an empty stack does not depend on what was evaluated
/// before: it gives the same as on a machine with the same tape on which
/// nothing was evaluated yet.
pub proof fn lemma_request_is_fresh(s: State, address: nat, limit: nat)
    requires
        s.finished(),
    ensures
        s.evaluate(address, limit) == (State {
            stack: Seq::empty(),
            fetched: Term::Undefined,
            current: None,
            ..s
        }).evaluate(address, limit),
{
    let fresh = State { stack: Seq::empty(), fetched: Term::Undefined, current: None, ..s };
    assert(s.stack =~= fresh.stack);
    assert(s.settled().fetch(address) == fresh.settled().fetch(address));
}

/// `Assign` to an address from 1 to the end of the tape, then `Fetch` of the
/// same address: the register holds what was assigned, a list as a pointer
/// that stands for it, and the result is what was assigned.
///
/// The address that is executing is left out: within its own evaluation the
/// reentry guard reads address 0 in its place.
pub proof fn lemma_store_then_fetch(s: State, number: u64, value: Term)
    requires
        address_of(number, s.tape.len()) is Some,
        1 <= address_of(number, s.tape.len())->0 < s.tape.len(),
        s.current != Some(address_of(number, s.tape.len())->0),
        value.is_value(),
    ensures
        ({
            let address = address_of(number, s.tape.len())->0;
            let assigned = s.binary(Binary::Assign, Term::Number(number), value);
            let fetched = assigned.state.unary(Unary::Fetch, Term::Number(number));
            &&& assigned == Step::fine(s.store(address, value))
            &&& assigned.state.fetched is Undefined
            &&& fetched.fault is None
            &&& fetched.state.tape == assigned.state.tape
            &&& fetched.state.stack == s.stack
            &&& fetched.state.fetched == if value is List {
                Term::PointerIntoList { address, offset: 0 }
            } else {
                value
            }
            &&& !(value is PointerIntoList) ==> fetched.state.result() == value
        }),
{
    let address = address_of(number, s.tape.len())->0;
    let stored = s.store(address, value);
    assert(stored.slot(address) == value);
    if value is List {
        assert(dropped(value->List_0, 0) =~= value->List_0);
    }
}

/// `Assign` to address 0 writes nothing, and `Fetch` of address 0 then gives
/// what the last call placed there.
///
/// The state in which address 0 is executing is left out: there the reentry
/// guard sends the fetch to address 0 without end.
pub proof fn lemma_argument_register(s: State, number: u64, value: Term, argument: Term)
    requires
        s.tape.len() > 0,
        s.current != Some(0nat),
        address_of(number, s.tape.len()) == Some(0nat),
        argument is Undefined || argument is Number || argument is List,
    ensures
        ({
            let called = s.call_with(argument);
            let assigned = called.binary(Binary::Assign, Term::Number(number), value);
            let fetched = assigned.state.unary(Unary::Fetch, Term::Number(number));
            &&& assigned.fault is None
            &&& assigned.state.tape == called.tape
            &&& assigned.state.fetched is Undefined
            &&& fetched.fault is None
            &&& fetched.state.result() == argument
        }),
{
    if argument is List {
        assert(dropped(argument->List_0, 0) =~= argument->List_0);
    }
}

/// Dropping items from a list through a pointer gives the list that dropping
/// them from a copy gives: `Plus` on a pointer and `Plus` on the list that
/// the pointer stands for leave results with the same items.
pub proof fn lemma_alias_drop(s: State, address: nat, offset: nat, number: u64)
    requires
        s.slot(address) is List,
        s.slot(address)->List_0.len() <= usize::MAX,
        offset <= usize::MAX,
    ensures
        ({
            let by_copy = s.plus(s.list_at(address, offset), Term::Number(number));
            let by_alias = s.plus(
                Term::PointerIntoList { address, offset },
                Term::Number(number),
            );
            &&& by_copy.fault is None
            &&& by_alias.fault is None
            &&& by_copy.state.result() == by_alias.state.result()
            &&& by_copy.state.tape == by_alias.state.tape
            &&& by_copy.state.stack == by_alias.state.stack
        }),
{
    let items = s.slot(address)->List_0;
    match address_of(number, s.tape.len()) {
        Some(count) => {
            assert(dropped(dropped(items, offset), count) =~= dropped(
                items,
                advanced(offset, count),
            ));
        },
        None => {},
    }
}

/// Whether a step that met a fault gave the evaluation up: the fault is not
/// `Unfinished`, and no frame is left.
pub open spec fn gave_up(step: Step) -> bool {
    step.fault matches Some(fault) ==> fault != Fault::Unfinished && step.state.finished()
}

/// An operator of one operand that meets a fault gives the evaluation up.
pub proof fn lemma_unary_gives_up(s: State, operator: Unary, operand: Term)
    ensures
        gave_up(s.unary(operator, operand)),
{
}

/// An operator of two operands that meets a fault gives the evaluation up.
pub proof fn lemma_binary_gives_up(s: State, operator: Binary, left: Term, right: Term)
    ensures
        gave_up(s.binary(operator, left, right)),
{
    match operator {
        Binary::Plus => {
            assert(gave_up(s.plus(left, right)));
        },
        Binary::Mult => {},
        Binary::Assign => {},
        Binary::CallWith => {
            assert(gave_up(s.call(left, right)));
        },
    }
}

/// A step that meets a fault gives the evaluation up, and a step that
/// leaves no frame leaves no address executing.
pub proof fn lemma_fault_ends(s: State)
    ensures
        gave_up(s.tick()),
        s.tick().state.finished() ==> s.tick().state.current is None,
{
    reveal(State::tick);
    if s.stack.len() > 0 {
        match s.stack.last() {
            Term::Unary { operator, operand } => {
                let (value, register) = resolved(*operand, s.fetched);
                lemma_unary_gives_up(s.pop().deliver(register), operator, value);
            },
            Term::Binary { operator, left, right } => {
                let (l, first) = resolved(*left, s.fetched);
                let (r, register) = resolved(*right, first);
                lemma_binary_gives_up(s.pop().deliver(register), operator, l, r);
            },
            _ => {},
        }
    }
}

/// A fault of a run is never `Unfinished`, and leaves no frame; and a run
/// from a state in which no address executes on an empty stack ends in such
/// a state.
pub proof fn lemma_run_ends(s: State, limit: nat)
    ensures
        gave_up(s.run(limit)),
        (s.finished() ==> s.current is None) ==> (s.run(limit).state.finished() ==> s.run(
            limit,
        ).state.current is None),
    decreases limit,
{
    if !s.finished() && limit > 0 {
        lemma_fault_ends(s);
        if s.tick().fault is None {
            lemma_run_ends(s.tick().state, (limit - 1) as nat);
        }
    }
}

/// The call stack is empty after an evaluation that gave a value or met a
/// fault, and only then: where the steps ran out, frames are left. Where it
/// is empty, no address is executing: the next request fetches its address
/// as it is.
pub proof fn lemma_evaluate_ends(s: State, address: nat, limit: nat)
    ensures
        s.evaluate(address, limit).state.finished() <==> s.evaluate(address, limit).result
            != Err::<Term, Fault>(Fault::Unfinished),
        s.evaluate(address, limit).state.finished() ==> s.evaluate(
            address,
            limit,
        ).state.current is None,
{
    let begun = s.settled().fetch(address);
    if begun.fault is None {
        lemma_run_ends(begun.state, limit);
    }
}

/// The same tape gives the same result: two machines on which no evaluation
/// is in progress and whose tapes are equal give, for the same request, the
/// same value or fault, and end in the same state with the same notices.
/// What they evaluated before, what their registers hold and whether they
/// trace makes no difference.
pub proof fn lemma_determinism(first: Machine, second: Machine, address: nat, limit: nat)
    requires
        first@.finished(),
        second@.finished(),
        first@.tape == second@.tape,
    ensures
        first@.evaluate(address, limit) == second@.evaluate(address, limit),
{
    lemma_request_is_fresh(first@, address, limit);
    lemma_request_is_fresh(second@, address, limit);
}

/// A request that came to its end can be made again: where an evaluation
/// gave a value and left the tape as it was, the same request gives the same
/// value again.
pub proof fn lemma_request_repeats(s: State, address: nat, limit: nat)
    requires
        s.finished(),
        s.evaluate(address, limit).result is Ok,
        s.evaluate(address, limit).state.tape == s.tape,
    ensures
        s.evaluate(address, limit).state.evaluate(address, limit) == s.evaluate(address, limit),
{
    lemma_evaluate_ends(s, address, limit);
    let after = s.evaluate(address, limit).state;
    lemma_request_is_fresh(s, address, limit);
    lemma_request_is_fresh(after, address, limit);
}

} // verus!

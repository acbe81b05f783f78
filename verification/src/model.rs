//! The machine as mathematics: its state and the function that one step of
//! evaluation computes on it.
//!
//! Everything here is ghost code. The executable machine states each of its
//! operations as one of these functions applied to its view.

use vstd::prelude::*;

use crate::arith::{reciprocal, sum};
use crate::expression::{Binary, Term, Unary};
use crate::number::{below_half, is_normal, is_tiny, negation, sign, whole_part};

verus! {

/// Why an evaluation stopped without a value.
#[derive(Clone, Copy, Debug, PartialEq, Eq)]
pub enum Fault {
    /// An operator met operands for which the language has no rule.
    Unimplemented,
    /// Something that cannot be reduced stood where an expression was due: a
    /// placeholder outside an operand slot, or an operand that is no value.
    Protocol,
    /// Address 0 was fetched while address 0 was executing: the reentry guard
    /// sends the fetch to address 0 again, without end.
    Redirect,
    /// The step limit was reached before the call stack was empty.
    Unfinished,
}

/// A label with the term bound to it: the model of an instruction.
pub struct Binding {
    pub label: nat,
    pub term: Term,
}

/// The state of a machine.
pub struct State {
    /// The tape: code and data, by address.
    pub tape: Seq<Term>,
    /// The pending frames, the innermost last.
    pub stack: Seq<Term>,
    /// The result register.
    pub fetched: Term,
    /// The address that is executing; none while no evaluation is in
    /// progress.
    pub current: Option<nat>,
}

/// The notice of a frame that was entered: the frame, and the address that
/// it was fetched from where it came from the tape.
pub struct Note {
    pub address: Option<nat>,
    pub frame: Term,
}

/// What an operation leaves: the next state, the fault if it stopped the
/// evaluation, and the notices of the frames that it entered, in their order.
pub struct Step {
    pub state: State,
    pub fault: Option<Fault>,
    pub notes: Seq<Note>,
}

/// What an evaluation request leaves: the state, the value or the fault, and
/// the notices of the frames that were entered.
pub struct Evaluation {
    pub state: State,
    pub result: Result<Term, Fault>,
    pub notes: Seq<Note>,
}

/// The address that a number denotes on a tape of the given length, if any.
///
/// Zero, subnormal numbers and normal numbers below one half denote address 0.
/// Any other normal number denotes its whole part where that is below twice
/// the tape's length. Infinities and NaN denote nothing.
pub open spec fn address_of(bits: u64, tape_len: nat) -> Option<nat> {
    if is_normal(bits) {
        if below_half(bits) {
            Some(0nat)
        } else if whole_part(bits) < 2 * tape_len {
            Some(whole_part(bits))
        } else {
            None
        }
    } else if is_tiny(bits) {
        Some(0nat)
    } else {
        None
    }
}

/// A list without its first `count` items; empty where it has no more.
pub open spec fn dropped(items: Seq<Term>, count: nat) -> Seq<Term> {
    if count <= items.len() {
        items.subrange(count as int, items.len() as int)
    } else {
        Seq::empty()
    }
}

/// The sum of an offset and a count, held at the largest offset.
pub open spec fn advanced(offset: nat, count: nat) -> nat {
    if offset + count <= usize::MAX {
        offset + count
    } else {
        usize::MAX as nat
    }
}

/// The last term that a program binds to an address, if it binds one.
pub open spec fn bound_to(program: Seq<Binding>, address: nat) -> Option<Term>
    decreases program.len(),
{
    if program.len() == 0 {
        None
    } else if program.last().label == address {
        Some(program.last().term)
    } else {
        bound_to(program.drop_last(), address)
    }
}

/// The number of addresses that a program needs: one more than its largest
/// label, and 0 for the empty program.
pub open spec fn span(program: Seq<Binding>) -> nat
    decreases program.len(),
{
    if program.len() == 0 {
        0
    } else {
        let before = span(program.drop_last());
        if program.last().label + 1 > before {
            program.last().label + 1
        } else {
            before
        }
    }
}

/// A tape with a program mounted: it is as long as both need, and each
/// address holds the last term that the program binds to it, else what the
/// tape held, else `Undefined`.
pub open spec fn mounted(tape: Seq<Term>, program: Seq<Binding>) -> Seq<Term> {
    Seq::new(
        if span(program) > tape.len() { span(program) } else { tape.len() },
        |a: int|
            match bound_to(program, a as nat) {
                Some(term) => term,
                None => if 0 <= a < tape.len() { tape[a] } else { Term::Undefined },
            },
    )
}

/// An operand as it enters an operator: a placeholder is replaced by the
/// register, which is emptied. The result is the operand and the register.
pub open spec fn resolved(operand: Term, register: Term) -> (Term, Term) {
    if operand is Stub {
        (register, Term::Undefined)
    } else {
        (operand, register)
    }
}

impl Step {
    /// A step that entered no frame and met no fault.
    pub open spec fn fine(state: State) -> Step {
        Step { state, fault: None, notes: Seq::empty() }
    }

    /// A step that entered one frame.
    pub open spec fn entered(state: State, address: Option<nat>, frame: Term) -> Step {
        Step { state, fault: None, notes: seq![Note { address, frame }] }
    }

    /// This step with the notices of earlier steps before its own.
    pub open spec fn after(self, earlier: Seq<Note>) -> Step {
        Step { notes: earlier + self.notes, ..self }
    }

    /// The result of the operation as the caller sees it.
    pub open spec fn outcome(self) -> Result<(), Fault> {
        match self.fault {
            Some(fault) => Err(fault),
            None => Ok(()),
        }
    }
}

impl Evaluation {
    /// The state and the notices of an evaluation, as a step.
    pub open spec fn step(self) -> Step {
        Step {
            state: self.state,
            fault: match self.result {
                Ok(_) => None,
                Err(fault) => Some(fault),
            },
            notes: self.notes,
        }
    }
}

impl State {
    /// The state of a machine without a program: a tape of one empty slot.
    pub open spec fn fresh() -> State {
        State {
            tape: seq![Term::Undefined],
            stack: Seq::empty(),
            fetched: Term::Undefined,
            current: None,
        }
    }

    /// What holds of a machine even in the middle of a step: the register
    /// holds a value, and the tape has an address 0 and is short enough for
    /// twice its length to be an address.
    pub open spec fn sound(self) -> bool {
        &&& self.fetched.is_value()
        &&& 1 <= self.tape.len()
        &&& 2 * self.tape.len() <= usize::MAX
    }

    /// What every machine keeps between two operations: it is sound, and no
    /// address is executing where no evaluation is in progress.
    pub open spec fn wf(self) -> bool {
        &&& self.sound()
        &&& self.finished() ==> self.current is None
    }

    /// What an operation keeps of a state: the length of the tape, and
    /// soundness and the invariant where they held.
    pub open spec fn keeps(self, after: State) -> bool {
        &&& after.tape.len() == self.tape.len()
        &&& self.sound() ==> after.sound()
        &&& self.wf() ==> after.wf()
    }

    /// No evaluation is in progress: the call stack is empty.
    pub open spec fn finished(self) -> bool {
        self.stack.len() == 0
    }

    /// The state once a step is through: where no frame is left, the
    /// evaluation is over and no address is executing any more.
    pub open spec fn settled(self) -> State {
        if self.finished() {
            State { current: None, ..self }
        } else {
            self
        }
    }

    /// The term at an address; `Undefined` beyond the tape.
    pub open spec fn slot(self, address: nat) -> Term {
        if address < self.tape.len() {
            self.tape[address as int]
        } else {
            Term::Undefined
        }
    }

    /// The state with a value in the register.
    pub open spec fn deliver(self, value: Term) -> State {
        State { fetched: value, ..self }
    }

    /// The state with one more frame.
    pub open spec fn push(self, frame: Term) -> State {
        State { stack: self.stack.push(frame), ..self }
    }

    /// The state without its innermost frame.
    pub open spec fn pop(self) -> State {
        State { stack: self.stack.drop_last(), ..self }
    }

    /// The state after a fault: the evaluation is given up, the tape stays.
    pub open spec fn aborted(self) -> State {
        State { stack: Seq::empty(), fetched: Term::Undefined, current: None, ..self }
    }

    /// The step that ends in a fault.
    pub open spec fn fail(self, fault: Fault) -> Step {
        Step { state: self.aborted(), fault: Some(fault), notes: Seq::empty() }
    }

    /// The state with a program mounted on the tape.
    pub open spec fn mount(self, program: Seq<Binding>) -> State {
        State { tape: mounted(self.tape, program), ..self }
    }

    /// The list at an address from an offset on, as a list of its own;
    /// `Undefined` where the address holds no list.
    pub open spec fn list_at(self, address: nat, offset: nat) -> Term {
        match self.slot(address) {
            Term::List(items) => Term::List(dropped(items, offset)),
            _ => Term::Undefined,
        }
    }

    /// The item at an offset of the list at an address; `Undefined` where
    /// there is no such item.
    pub open spec fn element_at(self, address: nat, offset: nat) -> Term {
        match self.slot(address) {
            Term::List(items) => if offset < items.len() {
                items[offset as int]
            } else {
                Term::Undefined
            },
            _ => Term::Undefined,
        }
    }

    /// The state with the argument register set. Address 0 is that register.
    pub open spec fn call_with(self, argument: Term) -> State {
        if self.tape.len() > 0 {
            State { tape: self.tape.update(0, argument), ..self }
        } else {
            self
        }
    }

    /// A write to the tape. A write to address 0 or beyond the tape is
    /// dropped. The register is `Undefined` afterwards in either case.
    pub open spec fn store(self, address: nat, term: Term) -> State {
        State {
            tape: if 0 < address < self.tape.len() {
                self.tape.update(address as int, term)
            } else {
                self.tape
            },
            fetched: Term::Undefined,
            ..self
        }
    }

    /// Hands a term on: a value goes to the register, anything else becomes a
    /// new frame, with the register emptied.
    pub open spec fn solve(self, term: Term) -> Step {
        if term.is_value() {
            Step::fine(self.deliver(term))
        } else if term is Stub {
            self.fail(Fault::Protocol)
        } else {
            Step::entered(self.push(term).deliver(Term::Undefined), None, term)
        }
    }

    /// Resolves an address. While an evaluation is in progress, the address
    /// that is executing is read as address 0: this is the reentry guard. A
    /// value goes to the register, a list as a pointer to it. Anything else
    /// becomes a new frame: the register and the argument register are emptied
    /// and the address becomes the executing one.
    pub open spec fn fetch(self, address: nat) -> Step {
        if self.current == Some(address) && address == 0 {
            self.fail(Fault::Redirect)
        } else {
            let from: nat = if self.current == Some(address) { 0 } else { address };
            match self.slot(from) {
                Term::Undefined | Term::Number(_) | Term::PointerIntoList { .. } => Step::fine(
                    self.deliver(self.slot(from)),
                ),
                Term::List(_) => Step::fine(
                    self.deliver(Term::PointerIntoList { address: from, offset: 0 }),
                ),
                Term::Sequence(_) | Term::Unary { .. } | Term::Binary { .. } => Step::entered(
                    State {
                        current: Some(from),
                        ..self.push(self.slot(from)).deliver(Term::Undefined).call_with(
                            Term::Undefined,
                        )
                    },
                    Some(from),
                    self.slot(from),
                ),
                Term::Stub => self.fail(Fault::Protocol),
            }
        }
    }

    /// Applies an operator of one operand to a value.
    ///
    /// `Neg` and `Recip` have no rule for a list or a pointer: there the
    /// evaluation ends with `Unimplemented`.
    pub open spec fn unary(self, operator: Unary, operand: Term) -> Step {
        match operand {
            Term::Undefined => self.solve(Term::Undefined),
            Term::Number(bits) => match operator {
                Unary::Fetch => match address_of(bits, self.tape.len()) {
                    Some(address) => self.fetch(address),
                    None => self.solve(Term::Undefined),
                },
                Unary::Signum => match sign(bits) {
                    Some(s) => self.solve(Term::Number(s)),
                    None => self.solve(Term::Undefined),
                },
                Unary::Neg => self.solve(Term::Number(negation(bits))),
                Unary::Recip => self.solve(Term::Number(reciprocal(bits))),
            },
            Term::List(items) => match operator {
                Unary::Fetch => self.solve(
                    if items.len() > 0 {
                        items[0]
                    } else {
                        Term::Undefined
                    },
                ),
                Unary::Signum => self.solve(operand),
                Unary::Neg | Unary::Recip => self.fail(Fault::Unimplemented),
            },
            Term::PointerIntoList { address, offset } => match operator {
                Unary::Fetch => self.solve(self.element_at(address, offset)),
                Unary::Signum => self.solve(self.list_at(address, offset)),
                Unary::Neg | Unary::Recip => self.fail(Fault::Unimplemented),
            },
            _ => self.fail(Fault::Protocol),
        }
    }

    /// `Plus` on two values.
    pub open spec fn plus(self, left: Term, right: Term) -> Step {
        match left {
            Term::Undefined => self.solve(Term::Undefined),
            Term::Number(_) | Term::List(_) | Term::PointerIntoList { .. } => match right {
                Term::Undefined => self.solve(Term::Undefined),
                Term::Number(b) => match left {
                    Term::Number(a) => self.solve(Term::Number(sum(a, b))),
                    Term::List(items) => match address_of(b, self.tape.len()) {
                        Some(count) => self.solve(Term::List(dropped(items, count))),
                        None => self.solve(Term::Undefined),
                    },
                    Term::PointerIntoList { address, offset } => match address_of(
                        b,
                        self.tape.len(),
                    ) {
                        Some(count) => self.solve(
                            Term::PointerIntoList { address, offset: advanced(offset, count) },
                        ),
                        None => self.solve(Term::Undefined),
                    },
                    _ => self.fail(Fault::Protocol),
                },
                Term::List(_) | Term::PointerIntoList { .. } => self.fail(Fault::Unimplemented),
                _ => self.fail(Fault::Protocol),
            },
            _ => self.fail(Fault::Protocol),
        }
    }

    /// `Mult` on two values. An `Undefined` operand gives `Undefined`; for any
    /// other two values there is no rule, and the evaluation ends with
    /// `Unimplemented`.
    pub open spec fn mult(self, left: Term, right: Term) -> Step {
        if !left.is_value() || !right.is_value() {
            self.fail(Fault::Protocol)
        } else if left is Undefined || right is Undefined {
            self.solve(Term::Undefined)
        } else {
            self.fail(Fault::Unimplemented)
        }
    }

    /// `Assign` on two values: the left one is the address.
    pub open spec fn assign(self, left: Term, right: Term) -> Step {
        match left {
            Term::Undefined => self.solve(Term::Undefined),
            Term::Number(bits) => match address_of(bits, self.tape.len()) {
                Some(address) => Step::fine(self.store(address, right)),
                None => self.solve(Term::Undefined),
            },
            Term::List(_) | Term::PointerIntoList { .. } => self.fail(Fault::Unimplemented),
            _ => self.fail(Fault::Protocol),
        }
    }

    /// `CallWith` on two values: the left one is the address to fetch, the
    /// right one goes to the argument register once the fetch is made.
    pub open spec fn call(self, left: Term, right: Term) -> Step {
        match left {
            Term::Undefined => self.solve(Term::Undefined),
            Term::Number(bits) => {
                let entered = match address_of(bits, self.tape.len()) {
                    Some(address) => self.fetch(address),
                    None => self.solve(Term::Undefined),
                };
                if entered.fault is Some {
                    entered
                } else {
                    Step { state: entered.state.call_with(right), ..entered }
                }
            },
            Term::List(_) | Term::PointerIntoList { .. } => self.fail(Fault::Unimplemented),
            _ => self.fail(Fault::Protocol),
        }
    }

    /// Applies an operator of two operands to two values.
    ///
    /// Where the language has no rule for the operands, the evaluation ends
    /// with `Unimplemented`: the stack is emptied, the tape stays.
    pub open spec fn binary(self, operator: Binary, left: Term, right: Term) -> Step {
        match operator {
            Binary::Plus => self.plus(left, right),
            Binary::Mult => self.mult(left, right),
            Binary::Assign => self.assign(left, right),
            Binary::CallWith => self.call(left, right),
        }
    }

    /// One step on the innermost frame: the frame is reduced, and where that
    /// leaves no frame the evaluation is over and no address is executing.
    #[verifier::opaque]
    pub open spec fn tick(self) -> Step {
        let step = self.reduce();
        Step { state: step.state.settled(), ..step }
    }

    /// What a step does with the innermost frame.
    ///
    /// A value is taken off the stack into the register. A sequence gives up
    /// its first step, and its frame once it is empty. An operator whose
    /// operands are values is taken off the stack and applied; else the first
    /// operand that is no value becomes a frame of its own, with a placeholder
    /// left in its slot.
    pub open spec fn reduce(self) -> Step {
        if self.stack.len() == 0 {
            Step::fine(self)
        } else {
            match self.stack.last() {
                Term::Undefined | Term::Number(_) | Term::List(_) | Term::PointerIntoList {
                    ..
                } => Step::fine(self.pop().deliver(self.stack.last())),
                Term::Sequence(steps) => if steps.len() == 0 {
                    Step::fine(self.deliver(Term::Undefined))
                } else if steps.len() == 1 {
                    self.pop().solve(steps[0])
                } else {
                    self.pop().push(Term::Sequence(steps.drop_first())).solve(steps[0])
                },
                Term::Unary { operator, operand } => {
                    let (value, register) = resolved(*operand, self.fetched);
                    let taken = self.pop().deliver(register);
                    if value.is_value() {
                        taken.unary(operator, value)
                    } else {
                        Step::fine(
                            taken.push(
                                Term::Unary { operator, operand: Box::new(Term::Stub) },
                            ).push(value),
                        )
                    }
                },
                Term::Binary { operator, left, right } => {
                    let (l, first) = resolved(*left, self.fetched);
                    let (r, register) = resolved(*right, first);
                    let taken = self.pop().deliver(register);
                    if l.is_value() && r.is_value() {
                        taken.binary(operator, l, r)
                    } else if l.is_value() {
                        Step::fine(
                            taken.push(
                                Term::Binary {
                                    operator,
                                    left: Box::new(l),
                                    right: Box::new(Term::Stub),
                                },
                            ).push(r),
                        )
                    } else {
                        Step::fine(
                            taken.push(
                                Term::Binary {
                                    operator,
                                    left: Box::new(Term::Stub),
                                    right: Box::new(r),
                                },
                            ).push(l),
                        )
                    }
                },
                Term::Stub => self.fail(Fault::Protocol),
            }
        }
    }

    /// Steps until the stack is empty, a fault stops the evaluation, or
    /// `limit` steps are made.
    pub open spec fn run(self, limit: nat) -> Step
        decreases limit,
    {
        if self.finished() || limit == 0 {
            Step::fine(self)
        } else {
            let step = self.tick();
            if step.fault is Some {
                step
            } else {
                step.state.run((limit - 1) as nat).after(step.notes)
            }
        }
    }

    /// The register as a result: a pointer is replaced by the list that it
    /// points into, as it is now.
    pub open spec fn result(self) -> Term {
        match self.fetched {
            Term::PointerIntoList { address, offset } => self.list_at(address, offset),
            value => value,
        }
    }

    /// A whole evaluation request: the fetch of an address, the run, and the
    /// result taken out of the register.
    ///
    /// A request on an empty stack starts no evaluation within another: no
    /// address is executing, and the address is fetched as it is.
    pub open spec fn evaluate(self, address: nat, limit: nat) -> Evaluation {
        let begun = self.settled().fetch(address);
        if begun.fault is Some {
            Evaluation { state: begun.state, result: Err(begun.fault->0), notes: begun.notes }
        } else {
            let ran = begun.state.run(limit).after(begun.notes);
            if ran.fault is Some {
                Evaluation { state: ran.state, result: Err(ran.fault->0), notes: ran.notes }
            } else if !ran.state.finished() {
                Evaluation { state: ran.state, result: Err(Fault::Unfinished), notes: ran.notes }
            } else {
                Evaluation {
                    state: ran.state.deliver(Term::Undefined),
                    result: Ok(ran.state.result()),
                    notes: ran.notes,
                }
            }
        }
    }
}

} // verus!

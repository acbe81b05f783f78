//! The evaluation engine: a tape of expressions, an explicit stack of pending
//! frames and a one-slot result register.
//!
//! Every operation is stated as a function of [`crate::model`], applied to the
//! machine's view.

use vstd::prelude::*;

use crate::arith::{plus, recip};
use crate::expression::{
    lemma_sequence_terms, terms, Binary, Expression, Instruction, Term, Unary,
};
use crate::model::{address_of, bound_to, mounted, span, Binding, Fault, Note, State, Step};
use crate::number::{
    is_negative, lemma_half, magnitude, negate, signum, whole_below, HIDDEN, INFINITY,
};
use crate::wellformed::{
    lemma_binary_keeps, lemma_fetch_keeps, lemma_run_stops, lemma_run_unfolds, lemma_solve_keeps,
    lemma_span_covers, lemma_tick_keeps, lemma_unary_keeps,
};

verus! {

/// The machine. It lives as long as a session: what an evaluation writes to
/// the tape is there for the next one.
pub struct Machine {
    tape: Vec<Expression>,
    call_stack: Vec<Expression>,
    fetched: Expression,
    instruction_address: Option<usize>,
    verbose: bool,
    trace: Vec<Notice>,
}

/// The notice of a frame that was entered: a copy of the frame, and the
/// address that it was fetched from where it came from the tape.
#[derive(Debug, PartialEq)]
pub struct Notice {
    pub address: Option<usize>,
    pub frame: Expression,
}

impl View for Notice {
    type V = Note;

    open spec fn view(&self) -> Note {
        Note {
            address: match self.address {
                Some(address) => Some(address as nat),
                None => None,
            },
            frame: self.frame@,
        }
    }
}

/// The notes that notices stand for, one for one.
pub open spec fn notes(notices: Seq<Notice>) -> Seq<Note> {
    Seq::new(notices.len(), |i: int| notices[i]@)
}

impl View for Machine {
    type V = State;

    closed spec fn view(&self) -> State {
        State {
            tape: terms(self.tape@),
            stack: terms(self.call_stack@),
            fetched: self.fetched@,
            current: match self.instruction_address {
                Some(address) => Some(address as nat),
                None => None,
            },
        }
    }
}

/// The bindings that a program stands for, in its order.
pub open spec fn bindings(program: Seq<Instruction>) -> Seq<Binding> {
    Seq::new(
        program.len(),
        |i: int| Binding { label: program[i].label as nat, term: program[i].expression@ },
    )
}

/// Whether each label of a program can be mounted: with the largest of them,
/// twice the length of the tape is still an address.
pub open spec fn mountable(program: Seq<Instruction>) -> bool {
    forall|i: int| 0 <= i < program.len() ==> (#[trigger] program[i]).label < usize::MAX / 2
}

impl Machine {
    /// The invariant of the machine, which every operation keeps: the
    /// register holds a value, the tape has an address 0, and no address is
    /// executing while the call stack is empty.
    pub open spec fn wf(&self) -> bool {
        self@.wf()
    }

    /// Whether frame transitions are to be traced. The flag has no effect on
    /// what the machine computes.
    pub closed spec fn tracing(&self) -> bool {
        self.verbose
    }

    /// The notices that were written and not yet taken.
    pub closed spec fn traced(&self) -> Seq<Note> {
        notes(self.trace@)
    }

    /// Whether `after` is what an operation with the given step leaves of
    /// `before`: the state is the step's, the tracing flag stays, and a machine
    /// that traces has the step's notices behind those it had.
    pub open spec fn follows(before: Machine, after: Machine, step: Step) -> bool {
        &&& after@ == step.state
        &&& after.tracing() == before.tracing()
        &&& after.traced() == if before.tracing() {
            before.traced() + step.notes
        } else {
            before.traced()
        }
    }

    /// Whether `after` is `before` in another state, with nothing traced.
    pub open spec fn moves(before: Machine, after: Machine, state: State) -> bool {
        &&& after@ == state
        &&& after.tracing() == before.tracing()
        &&& after.traced() == before.traced()
    }

    /// Whether frame transitions are traced.
    pub fn is_verbose(&self) -> (b: bool)
        ensures
            b == self.tracing(),
    {
        self.verbose
    }

    /// Switches tracing on or off. The state stays as it is.
    pub fn set_verbose(&mut self, verbose: bool)
        ensures
            final(self)@ == old(self)@,
            final(self).tracing() == verbose,
            final(self).traced() == old(self).traced(),
    {
        self.verbose = verbose;
    }

    /// Hands out the notices that were written since they were last taken.
    pub fn take_trace(&mut self) -> (notices: Vec<Notice>)
        ensures
            notes(notices@) == old(self).traced(),
            final(self).traced() == Seq::<Note>::empty(),
            final(self)@ == old(self)@,
            final(self).tracing() == old(self).tracing(),
    {
        let mut notices: Vec<Notice> = Vec::new();
        std::mem::swap(&mut self.trace, &mut notices);
        assert(self.traced() =~= Seq::<Note>::empty());
        notices
    }

    /// The length of the tape.
    pub fn tape_len(&self) -> (len: usize)
        ensures
            len == self@.tape.len(),
    {
        self.tape.len()
    }

    /// A copy of what an address holds; `Undefined` beyond the tape.
    pub fn read(&self, address: usize) -> (expression: Expression)
        ensures
            expression@ == self@.slot(address as nat),
    {
        if address < self.tape.len() {
            self.tape[address].duplicate()
        } else {
            Expression::Undefined
        }
    }

    /// A copy of what the result register holds.
    pub fn register(&self) -> (expression: Expression)
        ensures
            expression@ == self@.fetched,
    {
        self.fetched.duplicate()
    }

    /// The address that is executing; none while no evaluation is in
    /// progress.
    pub fn executing(&self) -> (address: Option<usize>)
        ensures
            match address {
                Some(a) => self@.current == Some(a as nat),
                None => self@.current is None,
            },
    {
        self.instruction_address
    }

    /// The number of pending frames.
    pub fn depth(&self) -> (frames: usize)
        ensures
            frames == self@.stack.len(),
    {
        self.call_stack.len()
    }

    /// A copy of the innermost frame, if there is one.
    pub fn innermost(&self) -> (frame: Option<Expression>)
        ensures
            match frame {
                Some(expression) => !self@.finished() && expression@ == self@.stack.last(),
                None => self@.finished(),
            },
    {
        let frames = self.call_stack.len();
        if frames > 0 {
            Some(self.call_stack[frames - 1].duplicate())
        } else {
            None
        }
    }

    /// A machine with a program on its tape. The tape has one slot more than
    /// the largest label, and at least one. Where a label occurs twice, the
    /// later instruction stands.
    pub fn create(program: Vec<Instruction>, verbose: bool) -> (machine: Machine)
        requires
            mountable(program@),
        ensures
            machine.wf(),
            machine@ == State::fresh().mount(bindings(program@)),
            machine.tracing() == verbose,
            machine.traced() == Seq::<Note>::empty(),
    {
        let mut tape: Vec<Expression> = Vec::new();
        tape.push(Expression::Undefined);
        let mut machine = Machine {
            tape,
            call_stack: Vec::new(),
            fetched: Expression::Undefined,
            instruction_address: None,
            verbose,
            trace: Vec::new(),
        };
        assert(machine.traced() =~= Seq::<Note>::empty());
        assert(machine@.tape =~= State::fresh().tape);
        assert(machine@.stack =~= State::fresh().stack);
        machine.update(program);
        machine
    }

    /// Mounts further instructions on the tape. The tape grows where a label
    /// asks for it; what the other addresses held stays.
    pub fn update(&mut self, program: Vec<Instruction>)
        requires
            old(self).wf(),
            mountable(program@),
        ensures
            final(self).wf(),
            Machine::moves(*old(self), *final(self), old(self)@.mount(bindings(program@))),
    {
        let ghost before = self@;
        let ghost all = bindings(program@);
        let mut needed: usize = self.tape.len();
        let mut i: usize = 0;
        while i < program.len()
            invariant
                i <= program@.len(),
                mountable(program@),
                all == bindings(program@),
                needed as nat == if span(all.take(i as int)) > before.tape.len() {
                    span(all.take(i as int))
                } else {
                    before.tape.len()
                },
                2 * needed <= usize::MAX,
                before.wf(),
            decreases program@.len() - i,
        {
            assert(all.take(i + 1).drop_last() =~= all.take(i as int));
            if program[i].label + 1 > needed {
                needed = program[i].label + 1;
            }
            i += 1;
        }
        assert(all.take(i as int) =~= all);
        while self.tape.len() < needed
            invariant
                self.tape@.len() <= needed,
                before.tape.len() <= self.tape@.len(),
                self.tracing() == old(self).tracing(),
                self.traced() == old(self).traced(),
                self@.stack == before.stack,
                self@.fetched == before.fetched,
                self@.current == before.current,
                forall|a: int|
                    0 <= a < self.tape@.len() ==> #[trigger] self@.tape[a] == if a
                        < before.tape.len() {
                        before.tape[a]
                    } else {
                        Term::Undefined
                    },
            decreases needed - self.tape@.len(),
        {
            let ghost tape = self@.tape;
            self.tape.push(Expression::Undefined);
            assert(self@.tape =~= tape.push(Term::Undefined));
        }
        let ghost instructions = program@;
        assert forall|j: int| 0 <= j < all.len() implies (#[trigger] all[j]).label < needed by {
            lemma_span_covers(all, j);
        }
        for instruction in it: program
            invariant
                it.seq() == instructions,
                all == bindings(instructions),
                self.tape@.len() == needed,
                needed as nat == mounted(before.tape, all).len(),
                forall|j: int| 0 <= j < all.len() ==> (#[trigger] all[j]).label < needed,
                self.tracing() == old(self).tracing(),
                self.traced() == old(self).traced(),
                self@.stack == before.stack,
                self@.fetched == before.fetched,
                self@.current == before.current,
                forall|a: int|
                    0 <= a < needed ==> #[trigger] self@.tape[a] == (match bound_to(
                        all.take(it.index() as int),
                        a as nat,
                    ) {
                        Some(term) => term,
                        None => if a < before.tape.len() {
                            before.tape[a]
                        } else {
                            Term::Undefined
                        },
                    }),
        {
            let ghost k = it.index() as int;
            assert(instruction == instructions[k]);
            assert(all[k].label == instruction.label);
            assert(all.take(k + 1).drop_last() =~= all.take(k));
            assert(all.take(k + 1).last() == all[k]);
            let ghost tape = self@.tape;
            self.tape.set(instruction.label, instruction.expression);
            assert(self@.tape =~= tape.update(instruction.label as int, all[k].term));
        }
        assert(all.take(all.len() as int) =~= all);
        assert(self@.tape =~= mounted(before.tape, all));
    }

    /// Whether no evaluation is in progress: the call stack is empty.
    pub fn is_finished(&self) -> (b: bool)
        ensures
            b == self@.finished(),
    {
        self.call_stack.len() == 0
    }

    /// Gives the evaluation up.
    fn fail(&mut self, fault: Fault) -> (r: Result<(), Fault>)
        ensures
            Machine::follows(*old(self), *final(self), old(self)@.fail(fault)),
            r == Err::<(), Fault>(fault),
    {
        self.call_stack.clear();
        self.fetched = Expression::Undefined;
        self.instruction_address = None;
        assert(self@.stack =~= Seq::<Term>::empty());
        Err(fault)
    }

    /// Writes the notice of a frame that is entered, if the machine traces.
    fn note(&mut self, address: Option<usize>, frame: &Expression)
        ensures
            Machine::follows(
                *old(self),
                *final(self),
                Step::entered(
                    old(self)@,
                    match address {
                        Some(a) => Some(a as nat),
                        None => None,
                    },
                    frame@,
                ),
            ),
    {
        if self.verbose {
            let notice = Notice { address, frame: frame.duplicate() };
            self.trace.push(notice);
            assert(self.traced() =~= old(self).traced() + seq![notice@]);
        }
    }

    /// Empties the register and hands out what it held.
    fn take_fetched(&mut self) -> (value: Expression)
        ensures
            value@ == old(self)@.fetched,
            Machine::moves(*old(self), *final(self), old(self)@.deliver(Term::Undefined)),
    {
        let mut value = Expression::Undefined;
        std::mem::swap(&mut self.fetched, &mut value);
        value
    }

    /// Hands an expression on: a value goes to the register, anything else
    /// becomes a new frame.
    pub fn solve(&mut self, expression: Expression) -> (r: Result<(), Fault>)
        ensures
            Machine::follows(*old(self), *final(self), old(self)@.solve(expression@)),
            r == old(self)@.solve(expression@).outcome(),
            old(self)@.keeps(final(self)@),
    {
        proof {
            lemma_solve_keeps(self@, expression@);
        }
        if is_value(&expression) {
            self.fetched = expression;
            Ok(())
        } else if matches!(expression, Expression::Stub) {
            self.fail(Fault::Protocol)
        } else {
            self.note(None, &expression);
            self.call_stack.push(expression);
            self.fetched = Expression::Undefined;
            assert(self@.stack =~= old(self)@.stack.push(expression@));
            Ok(())
        }
    }

    /// Sets the argument register, address 0.
    pub fn set_called_with(&mut self, expression: Expression)
        ensures
            Machine::moves(*old(self), *final(self), old(self)@.call_with(expression@)),
            old(self)@.keeps(final(self)@),
    {
        if self.tape.len() > 0 {
            self.tape.set(0, expression);
            assert(self@.tape =~= old(self)@.tape.update(0, expression@));
        }
    }

    /// Writes to the tape, but not to address 0 nor beyond the tape. The
    /// register is `Undefined` afterwards.
    pub fn store(&mut self, address: usize, expression: Expression)
        ensures
            Machine::moves(*old(self), *final(self), old(self)@.store(address as nat, expression@)),
            old(self)@.keeps(final(self)@),
    {
        if address != 0 && address < self.tape.len() {
            self.tape.set(address, expression);
            assert(self@.tape =~= old(self)@.tape.update(address as int, expression@));
        }
        self.fetched = Expression::Undefined;
    }

    /// A copy of the list at an address, from an offset on.
    pub fn copy_list(&self, address: usize, offset: usize) -> (list: Expression)
        ensures
            list@ == self@.list_at(address as nat, offset as nat),
    {
        if address < self.tape.len() {
            match &self.tape[address] {
                Expression::List(items) => {
                    let mut copies: Vec<Expression> = Vec::new();
                    let mut i: usize = if offset < items.len() { offset } else { items.len() };
                    let ghost start = i;
                    while i < items.len()
                        invariant
                            start <= i <= items@.len(),
                            copies@.len() == i - start,
                            forall|j: int| 0 <= j < i - start ==> copies@[j]@ == items@[start + j]@,
                        decreases items@.len() - i,
                    {
                        copies.push(items[i].duplicate());
                        i += 1;
                    }
                    assert(terms(copies@) =~= crate::model::dropped(terms(items@), offset as nat));
                    Expression::List(copies)
                },
                _ => Expression::Undefined,
            }
        } else {
            Expression::Undefined
        }
    }

    /// A copy of one item of the list at an address.
    pub fn copy_element(&self, address: usize, offset: usize) -> (element: Expression)
        ensures
            element@ == self@.element_at(address as nat, offset as nat),
    {
        if address < self.tape.len() {
            assert(self@.slot(address as nat) == self.tape@[address as int]@);
            match &self.tape[address] {
                Expression::List(items) => {
                    assert(self@.slot(address as nat) == Term::List(terms(items@)));
                    if offset < items.len() {
                        assert(terms(items@)[offset as int] == items@[offset as int]@);
                        items[offset].duplicate()
                    } else {
                        Expression::Undefined
                    }
                },
                _ => {
                    assert(!(self@.slot(address as nat) is List));
                    Expression::Undefined
                },
            }
        } else {
            Expression::Undefined
        }
    }

    /// The address that a number denotes on this tape, if any.
    pub fn address_from_number(&self, number: u64) -> (address: Option<usize>)
        requires
            self@.sound(),
        ensures
            match address {
                Some(a) => address_of(number, self@.tape.len()) == Some(a as nat),
                None => address_of(number, self@.tape.len()) is None,
            },
    {
        let m = magnitude(number);
        if m < HIDDEN {
            Some(0)
        } else if m < INFINITY {
            if is_negative(number) {
                Some(0)
            } else {
                proof {
                    lemma_half(number);
                }
                whole_below(number, 2 * self.tape.len())
            }
        } else {
            None
        }
    }

    /// Resolves an address for reduction.
    ///
    /// While an evaluation is in progress, the address that is executing is
    /// read as address 0, so that an address does not enter itself. On a
    /// machine between two evaluations no address is executing, and every
    /// address is fetched as it is. A value goes to the register, a list as a
    /// pointer to it. Anything else becomes a new frame, and the address the
    /// executing one.
    pub fn fetch(&mut self, address: usize) -> (r: Result<(), Fault>)
        ensures
            Machine::follows(*old(self), *final(self), old(self)@.fetch(address as nat)),
            r == old(self)@.fetch(address as nat).outcome(),
            old(self)@.keeps(final(self)@),
    {
        proof {
            lemma_fetch_keeps(self@, address as nat);
        }
        let guarded = match self.instruction_address {
            Some(current) => current == address,
            None => false,
        };
        if guarded && address == 0 {
            return self.fail(Fault::Redirect);
        }
        let from: usize = if guarded { 0 } else { address };
        let slot = if from < self.tape.len() {
            match &self.tape[from] {
                Expression::List(_) => Expression::PointerIntoList { address: from, offset: 0 },
                other => other.duplicate(),
            }
        } else {
            Expression::Undefined
        };
        if is_value(&slot) {
            self.fetched = slot;
            Ok(())
        } else if matches!(slot, Expression::Stub) {
            self.fail(Fault::Protocol)
        } else {
            self.note(Some(from), &slot);
            self.call_stack.push(slot);
            self.fetched = Expression::Undefined;
            assert(self@.stack =~= old(self)@.stack.push(slot@));
            self.set_called_with(Expression::Undefined);
            self.instruction_address = Some(from);
            Ok(())
        }
    }

    /// Applies an operator of one operand to a value.
    ///
    /// `Neg` and `Recip` have no rule for a list or a pointer into one. The
    /// language leaves open what is to happen there; this machine gives the
    /// evaluation up: the call stack is emptied, the register is `Undefined`,
    /// the tape stays as it is, and the result is `Fault::Unimplemented`. The
    /// caller decides what to make of it. An operand that is no value ends the
    /// evaluation in the same way with `Fault::Protocol`.
    pub fn perform_unary_on_value(&mut self, operator: Unary, operand: Expression) -> (r: Result<
        (),
        Fault,
    >)
        requires
            old(self)@.sound(),
        ensures
            Machine::follows(*old(self), *final(self), old(self)@.unary(operator, operand@)),
            r == old(self)@.unary(operator, operand@).outcome(),
            old(self)@.keeps(final(self)@),
    {
        let ghost term = operand@;
        proof {
            lemma_unary_keeps(self@, operator, term);
        }
        match operand {
            Expression::Undefined => self.solve(Expression::Undefined),
            Expression::Number(number) => match operator {
                Unary::Fetch => match self.address_from_number(number) {
                    Some(address) => self.fetch(address),
                    None => self.solve(Expression::Undefined),
                },
                Unary::Signum => match signum(number) {
                    Some(s) => self.solve(Expression::Number(s)),
                    None => self.solve(Expression::Undefined),
                },
                Unary::Neg => self.solve(Expression::Number(negate(number))),
                Unary::Recip => self.solve(Expression::Number(recip(number))),
            },
            Expression::List(items) => match operator {
                Unary::Fetch => {
                    let mut items = items;
                    let ghost before = items@;
                    assert(term == Term::List(terms(before)));
                    assert(terms(before).len() == before.len());
                    if items.len() > 0 {
                        let first = items.swap_remove(0);
                        assert(first@ == terms(before)[0]);
                        self.solve(first)
                    } else {
                        self.solve(Expression::Undefined)
                    }
                },
                Unary::Signum => self.solve(Expression::List(items)),
                Unary::Neg => self.fail(Fault::Unimplemented),
                Unary::Recip => self.fail(Fault::Unimplemented),
            },
            Expression::PointerIntoList { address, offset } => match operator {
                Unary::Fetch => {
                    let element = self.copy_element(address, offset);
                    self.solve(element)
                },
                Unary::Signum => {
                    let list = self.copy_list(address, offset);
                    self.solve(list)
                },
                Unary::Neg => self.fail(Fault::Unimplemented),
                Unary::Recip => self.fail(Fault::Unimplemented),
            },
            Expression::Sequence(_) => {
                assert(term is Sequence);
                self.fail(Fault::Protocol)
            },
            Expression::Unary { .. } => {
                assert(term is Unary);
                self.fail(Fault::Protocol)
            },
            Expression::Binary { .. } => {
                assert(term is Binary);
                self.fail(Fault::Protocol)
            },
            Expression::Stub => self.fail(Fault::Protocol),
        }
    }

    /// `Plus` on two values: the sum of two numbers, or a list or a pointer
    /// without as many leading items as the number on the right denotes.
    fn perform_plus(&mut self, left: Expression, right: Expression) -> (r: Result<(), Fault>)
        requires
            old(self)@.sound(),
        ensures
            Machine::follows(*old(self), *final(self), old(self)@.plus(left@, right@)),
            r == old(self)@.plus(left@, right@).outcome(),
    {
        broadcast use lemma_sequence_terms;

        match left {
            Expression::Undefined => self.solve(Expression::Undefined),
            Expression::Number(a) => match right {
                Expression::Undefined => self.solve(Expression::Undefined),
                Expression::Number(b) => self.solve(Expression::Number(plus(a, b))),
                Expression::List(_) => self.fail(Fault::Unimplemented),
                Expression::PointerIntoList { .. } => self.fail(Fault::Unimplemented),
                _ => self.fail(Fault::Protocol),
            },
            Expression::List(items) => match right {
                Expression::Undefined => self.solve(Expression::Undefined),
                Expression::Number(number) => match self.address_from_number(number) {
                    Some(count) => {
                        let mut items = items;
                        let ghost before = items@;
                        let rest = if count <= items.len() {
                            items.split_off(count)
                        } else {
                            Vec::new()
                        };
                        assert(terms(rest@) =~= crate::model::dropped(terms(before), count as nat));
                        self.solve(Expression::List(rest))
                    },
                    None => self.solve(Expression::Undefined),
                },
                Expression::List(_) => self.fail(Fault::Unimplemented),
                Expression::PointerIntoList { .. } => self.fail(Fault::Unimplemented),
                _ => self.fail(Fault::Protocol),
            },
            Expression::PointerIntoList { address, offset } => match right {
                Expression::Undefined => self.solve(Expression::Undefined),
                Expression::Number(number) => match self.address_from_number(number) {
                    Some(count) => {
                        let shifted = if count <= usize::MAX - offset {
                            offset + count
                        } else {
                            usize::MAX
                        };
                        self.solve(Expression::PointerIntoList { address, offset: shifted })
                    },
                    None => self.solve(Expression::Undefined),
                },
                Expression::List(_) => self.fail(Fault::Unimplemented),
                Expression::PointerIntoList { .. } => self.fail(Fault::Unimplemented),
                _ => self.fail(Fault::Protocol),
            },
            _ => self.fail(Fault::Protocol),
        }
    }

    /// Applies an operator of two operands to two values.
    ///
    /// The language has no rule for `Mult` on two values, nor for `Plus`,
    /// `Assign` and `CallWith` on some lists and pointers, and leaves open
    /// what is to happen there. This machine gives the evaluation up: the call
    /// stack is emptied, the register is `Undefined`, the tape stays as it
    /// is, and the result is `Fault::Unimplemented`. Nothing is delivered, and
    /// the caller decides what to make of the fault. An operand that is no
    /// value ends the evaluation in the same way with `Fault::Protocol`.
    ///
    /// `Mult` with an `Undefined` operand is no such case: as with every
    /// operator, `Undefined` gives `Undefined`.
    pub fn perform_binary_on_values(
        &mut self,
        operator: Binary,
        left: Expression,
        right: Expression,
    ) -> (r: Result<(), Fault>)
        requires
            old(self)@.sound(),
        ensures
            Machine::follows(*old(self), *final(self), old(self)@.binary(operator, left@, right@)),
            r == old(self)@.binary(operator, left@, right@).outcome(),
            old(self)@.keeps(final(self)@),
    {
        broadcast use lemma_sequence_terms;

        proof {
            lemma_binary_keeps(self@, operator, left@, right@);
        }
        match operator {
            Binary::Plus => self.perform_plus(left, right),
            Binary::Mult => {
                if !is_value(&left) || !is_value(&right) {
                    self.fail(Fault::Protocol)
                } else if matches!(left, Expression::Undefined) || matches!(
                    right,
                    Expression::Undefined
                ) {
                    self.solve(Expression::Undefined)
                } else {
                    self.fail(Fault::Unimplemented)
                }
            },
            Binary::Assign => match left {
                Expression::Undefined => self.solve(Expression::Undefined),
                Expression::Number(number) => match self.address_from_number(number) {
                    Some(address) => {
                        self.store(address, right);
                        Ok(())
                    },
                    None => self.solve(Expression::Undefined),
                },
                Expression::List(_) => self.fail(Fault::Unimplemented),
                Expression::PointerIntoList { .. } => self.fail(Fault::Unimplemented),
                _ => self.fail(Fault::Protocol),
            },
            Binary::CallWith => match left {
                Expression::Undefined => self.solve(Expression::Undefined),
                Expression::Number(number) => {
                    let entered = match self.address_from_number(number) {
                        Some(address) => self.fetch(address),
                        None => self.solve(Expression::Undefined),
                    };
                    if entered.is_ok() {
                        self.set_called_with(right);
                    }
                    entered
                },
                Expression::List(_) => self.fail(Fault::Unimplemented),
                Expression::PointerIntoList { .. } => self.fail(Fault::Unimplemented),
                _ => self.fail(Fault::Protocol),
            },
        }
    }
    /// Advances the innermost frame by one step.
    ///
    /// A value is taken off the stack into the register. A sequence gives up
    /// its first step. An operator whose operands are values is applied;
    /// else its first operand that is no value becomes a frame of its own.
    /// Where the step leaves no frame, the evaluation is over and no address
    /// is executing any more.
    pub fn tick(&mut self) -> (r: Result<(), Fault>)
        requires
            old(self).wf(),
        ensures
            Machine::follows(*old(self), *final(self), old(self)@.tick()),
            r == old(self)@.tick().outcome(),
            old(self)@.keeps(final(self)@),
            final(self).wf(),
    {
        proof {
            reveal(State::tick);
            lemma_tick_keeps(self@);
        }
        let outcome = self.reduce();
        if self.call_stack.len() == 0 {
            self.instruction_address = None;
        }
        outcome
    }

    /// Reduces the innermost frame; the executing address is left to
    /// [`Machine::tick`].
    fn reduce(&mut self) -> (r: Result<(), Fault>)
        requires
            old(self)@.sound(),
        ensures
            Machine::follows(*old(self), *final(self), old(self)@.reduce()),
            r == old(self)@.reduce().outcome(),
    {
        broadcast use lemma_sequence_terms;

        proof {
            assert(Expression::Stub@ == Term::Stub);
        }
        let ghost before = self@;
        match self.call_stack.pop() {
            None => Ok(()),
            Some(frame) => {
                assert(self@ == before.pop()) by {
                    assert(self@.stack =~= before.stack.drop_last());
                }
                assert(frame@ == before.stack.last());
                match frame {
                    Expression::Sequence(steps) => {
                        let mut steps = steps;
                        let ghost all = steps@;
                        match steps.pop_front() {
                            None => {
                                self.call_stack.push(Expression::Sequence(steps));
                                self.fetched = Expression::Undefined;
                                assert(self@.stack =~= before.stack);
                                Ok(())
                            },
                            Some(step) => {
                                assert(step@ == terms(all)[0]);
                                assert(terms(steps@) =~= terms(all).drop_first());
                                if steps.len() > 0 {
                                    assert(Expression::Sequence(steps)@ == Term::Sequence(
                                        terms(steps@),
                                    ));
                                    self.call_stack.push(Expression::Sequence(steps));
                                    assert(self@.stack =~= before.pop().push(
                                        Term::Sequence(terms(all).drop_first()),
                                    ).stack);
                                }
                                self.solve(step)
                            },
                        }
                    },
                    Expression::Unary { operator, operand } => {
                        let inner: Expression = *operand;
                        let value = if matches!(inner, Expression::Stub) {
                            self.take_fetched()
                        } else {
                            inner
                        };
                        if is_value(&value) {
                            self.perform_unary_on_value(operator, value)
                        } else {
                            let ghost taken = self@;
                            self.call_stack.push(
                                Expression::Unary { operator, operand: Box::new(Expression::Stub) },
                            );
                            self.call_stack.push(value);
                            assert(self@.stack =~= taken.push(
                                Term::Unary { operator, operand: Box::new(Term::Stub) },
                            ).push(value@).stack);
                            Ok(())
                        }
                    },
                    Expression::Binary { operator, left, right } => {
                        let inner_left: Expression = *left;
                        let l = if matches!(inner_left, Expression::Stub) {
                            self.take_fetched()
                        } else {
                            inner_left
                        };
                        let inner_right: Expression = *right;
                        let r = if matches!(inner_right, Expression::Stub) {
                            self.take_fetched()
                        } else {
                            inner_right
                        };
                        let ghost taken = self@;
                        if is_value(&l) && is_value(&r) {
                            self.perform_binary_on_values(operator, l, r)
                        } else if is_value(&l) {
                            let waiting = Expression::Binary {
                                operator,
                                left: Box::new(l),
                                right: Box::new(Expression::Stub),
                            };
                            assert(waiting@ == Term::Binary {
                                operator,
                                left: Box::new(l@),
                                right: Box::new(Term::Stub),
                            });
                            self.call_stack.push(waiting);
                            self.call_stack.push(r);
                            assert(self@.stack =~= taken.push(
                                Term::Binary {
                                    operator,
                                    left: Box::new(l@),
                                    right: Box::new(Term::Stub),
                                },
                            ).push(r@).stack);
                            Ok(())
                        } else {
                            let waiting = Expression::Binary {
                                operator,
                                left: Box::new(Expression::Stub),
                                right: Box::new(r),
                            };
                            assert(waiting@ == Term::Binary {
                                operator,
                                left: Box::new(Term::Stub),
                                right: Box::new(r@),
                            });
                            self.call_stack.push(waiting);
                            self.call_stack.push(l);
                            assert(self@.stack =~= taken.push(
                                Term::Binary {
                                    operator,
                                    left: Box::new(Term::Stub),
                                    right: Box::new(r@),
                                },
                            ).push(l@).stack);
                            Ok(())
                        }
                    },
                    Expression::Stub => self.fail(Fault::Protocol),
                    value => {
                        self.fetched = value;
                        Ok(())
                    },
                }
            },
        }
    }

    /// Takes the result out of the register, which is `Undefined` afterwards.
    /// A pointer is replaced by a copy of the list that it points into.
    pub fn take_result(&mut self) -> (value: Expression)
        requires
            old(self).wf(),
        ensures
            value@ == old(self)@.result(),
            value@.is_value(),
            !(value@ is PointerIntoList),
            Machine::moves(*old(self), *final(self), old(self)@.deliver(Term::Undefined)),
            final(self).wf(),
            old(self)@.keeps(final(self)@),
    {
        match self.take_fetched() {
            Expression::PointerIntoList { address, offset } => self.copy_list(address, offset),
            value => value,
        }
    }

    /// Steps until the call stack is empty, a fault stops the evaluation, or
    /// `limit` steps are made. The result tells whether the stack is empty.
    pub fn run(&mut self, limit: u64) -> (r: Result<bool, Fault>)
        requires
            old(self).wf(),
        ensures
            Machine::follows(*old(self), *final(self), old(self)@.run(limit as nat)),
            match r {
                Ok(done) => old(self)@.run(limit as nat).fault is None
                    && done == final(self)@.finished(),
                Err(fault) => old(self)@.run(limit as nat).fault == Some(fault),
            },
            old(self)@.keeps(final(self)@),
    {
        let mut remaining: u64 = limit;
        let ghost target = self@.run(limit as nat);
        let ghost written: Seq<Note> = Seq::empty();
        proof {
            assert(written + target.notes =~= target.notes);
            assert(self.traced() + written =~= self.traced());
        }
        while !self.is_finished() && remaining > 0
            invariant
                self.wf(),
                self@.tape.len() == old(self)@.tape.len(),
                self.tracing() == old(self).tracing(),
                self.traced() == if self.tracing() {
                    old(self).traced() + written
                } else {
                    old(self).traced()
                },
                self@.run(remaining as nat).after(written) == target,
                target == old(self)@.run(limit as nat),
            decreases remaining,
        {
            let ghost step = self@.tick();
            proof {
                lemma_run_unfolds(self@, remaining as nat, written);
                assert(step.after(written).notes == written + step.notes);
                assert((old(self).traced() + written) + step.notes =~= old(self).traced() + (
                    written + step.notes));
            }
            match self.tick() {
                Err(fault) => {
                    return Err(fault);
                },
                Ok(()) => {},
            }
            remaining -= 1;
            proof {
                written = written + step.notes;
            }
        }
        proof {
            lemma_run_stops(self@, remaining as nat, written);
        }
        Ok(self.is_finished())
    }

    /// Evaluates an address: fetches it, steps until the call stack is empty,
    /// and hands out what the register holds, a pointer as a copy of its list.
    ///
    /// Each request on an empty stack stands for itself: the same tape gives
    /// the same result, whatever was evaluated before.
    ///
    /// A program need not stop, so the steps are counted: after `limit` of
    /// them the evaluation is left as it stands, to be taken up with
    /// [`Machine::run`], and the result is `Unfinished`.
    pub fn evaluate_until_finished(&mut self, address: usize, limit: u64) -> (r: Result<
        Expression,
        Fault,
    >)
        requires
            old(self).wf(),
        ensures
            Machine::follows(
                *old(self),
                *final(self),
                old(self)@.evaluate(address as nat, limit as nat).step(),
            ),
            match r {
                Ok(value) => old(self)@.evaluate(address as nat, limit as nat).result == Ok::<
                    Term,
                    Fault,
                >(value@) && value@.is_value() && !(value@ is PointerIntoList),
                Err(fault) => old(self)@.evaluate(address as nat, limit as nat).result == Err::<
                    Term,
                    Fault,
                >(fault),
            },
            old(self)@.keeps(final(self)@),
    {
        proof {
            assert(self@.settled() == self@);
            lemma_fetch_keeps(self@, address as nat);
        }
        let ghost begun = self@.fetch(address as nat);
        match self.fetch(address) {
            Err(fault) => {
                return Err(fault);
            },
            Ok(()) => {},
        }
        let ghost ran = begun.state.run(limit as nat);
        proof {
            if self.tracing() {
                assert((old(self).traced() + begun.notes) + ran.notes =~= old(self).traced() + (
                    begun.notes + ran.notes));
            }
        }
        match self.run(limit) {
            Err(fault) => Err(fault),
            Ok(done) => {
                if done {
                    Ok(self.take_result())
                } else {
                    Err(Fault::Unfinished)
                }
            },
        }
    }
}

/// Whether an expression is fully reduced: `Undefined`, a number, a list or a
/// pointer into a list.
pub fn is_value(expression: &Expression) -> (b: bool)
    ensures
        b == expression@.is_value(),
{
    match expression {
        Expression::Undefined => true,
        Expression::Number(_) => true,
        Expression::List(_) => true,
        Expression::PointerIntoList { .. } => true,
        Expression::Sequence(_) => false,
        Expression::Unary { .. } => false,
        Expression::Binary { .. } => false,
        Expression::Stub => false,
    }
}

/// Mounts a program on a machine and evaluates address 1, where a program
/// starts.
pub fn evaluate(program: Vec<Instruction>, machine: &mut Machine, limit: u64) -> (r: Result<
    Expression,
    Fault,
>)
    requires
        old(machine).wf(),
        mountable(program@),
    ensures
        Machine::follows(
            *old(machine),
            *final(machine),
            old(machine)@.mount(bindings(program@)).evaluate(1, limit as nat).step(),
        ),
        match r {
            Ok(value) => old(machine)@.mount(bindings(program@)).evaluate(1, limit as nat).result
                == Ok::<Term, Fault>(value@) && value@.is_value() && !(value@ is PointerIntoList),
            Err(fault) => old(machine)@.mount(bindings(program@)).evaluate(
                1,
                limit as nat,
            ).result == Err::<Term, Fault>(fault),
        },
        final(machine).wf(),
{
    machine.update(program);
    machine.evaluate_until_finished(1, limit)
}

} // verus!

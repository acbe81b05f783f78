use std::collections::VecDeque;

use numpad::expression::{Binary, Expression, Instruction, Unary};
use numpad::machine::{evaluate, is_value, Machine, Notice};
use numpad::model::Fault;

const LIMIT: u64 = 10_000;

fn number(value: f64) -> Expression {
    Expression::Number(value.to_bits())
}

fn unary(operator: Unary, operand: Expression) -> Expression {
    Expression::Unary { operator, operand: Box::new(operand) }
}

fn binary(operator: Binary, left: Expression, right: Expression) -> Expression {
    Expression::Binary { operator, left: Box::new(left), right: Box::new(right) }
}

fn fetch(address: f64) -> Expression {
    unary(Unary::Fetch, number(address))
}

fn sequence(steps: Vec<Expression>) -> Expression {
    Expression::Sequence(VecDeque::from(steps))
}

fn list(items: &[f64]) -> Expression {
    Expression::List(items.iter().map(|item| number(*item)).collect())
}

fn at(label: usize, expression: Expression) -> Instruction {
    Instruction { label, expression }
}

fn tape_of(machine: &Machine) -> Vec<Expression> {
    (0..machine.tape_len()).map(|address| machine.read(address)).collect()
}

#[test]
fn plus_of_two_numbers() {
    let mut machine =
        Machine::create(vec![at(1, binary(Binary::Plus, number(5.0), number(3.0)))], false);
    assert_eq!(machine.evaluate_until_finished(1, LIMIT), Ok(number(8.0)));
}

#[test]
fn fetch_of_another_label() {
    let mut machine = Machine::create(vec![at(2, number(10.0)), at(1, fetch(2.0))], false);
    assert_eq!(machine.evaluate_until_finished(1, LIMIT), Ok(number(10.0)));
}

#[test]
fn a_list_evaluates_to_a_list() {
    let mut machine = Machine::create(vec![at(1, list(&[1.0, 2.0]))], false);
    assert_eq!(machine.evaluate_until_finished(1, LIMIT), Ok(list(&[1.0, 2.0])));
}

#[test]
fn a_list_of_three_evaluates_to_its_own_copy() {
    let mut machine = Machine::create(vec![at(1, list(&[1.0, 2.0, 3.0]))], false);
    let before = tape_of(&machine);
    assert_eq!(machine.evaluate_until_finished(1, LIMIT), Ok(list(&[1.0, 2.0, 3.0])));
    assert_eq!(tape_of(&machine), before);
    assert_eq!(machine.register(), Expression::Undefined);
}

#[test]
fn an_assignment_is_there_for_the_next_evaluation() {
    let mut machine = Machine::create(
        vec![
            at(1, binary(Binary::Assign, number(3.0), number(99.0))),
            at(3, Expression::Undefined),
        ],
        false,
    );
    assert_eq!(machine.evaluate_until_finished(1, LIMIT), Ok(Expression::Undefined));
    assert_eq!(machine.read(3), number(99.0));
    // the next request is mounted on the same label, as every request of a session is
    assert_eq!(evaluate(vec![at(1, fetch(3.0))], &mut machine, LIMIT), Ok(number(99.0)));
    assert_eq!(machine.read(3), number(99.0));
    assert_eq!(evaluate(vec![at(1, fetch(3.0))], &mut machine, LIMIT), Ok(number(99.0)));
}

#[test]
fn an_assignment_is_there_for_a_request_on_another_label() {
    let mut machine = Machine::create(
        vec![
            at(1, binary(Binary::Assign, number(3.0), number(99.0))),
            at(2, fetch(3.0)),
            at(3, Expression::Undefined),
        ],
        false,
    );
    assert_eq!(machine.evaluate_until_finished(1, LIMIT), Ok(Expression::Undefined));
    assert_eq!(machine.evaluate_until_finished(2, LIMIT), Ok(number(99.0)));
}

#[test]
fn the_same_request_gives_the_same_value_again() {
    let mut machine =
        Machine::create(vec![at(1, binary(Binary::Plus, number(5.0), number(3.0)))], false);
    let before = tape_of(&machine);
    assert_eq!(machine.evaluate_until_finished(1, LIMIT), Ok(number(8.0)));
    assert_eq!(tape_of(&machine), before);
    assert_eq!(machine.executing(), None);
    assert_eq!(machine.evaluate_until_finished(1, LIMIT), Ok(number(8.0)));
    assert_eq!(machine.evaluate_until_finished(1, LIMIT), Ok(number(8.0)));
    assert_eq!(tape_of(&machine), before);
}

#[test]
fn a_fetch_after_an_evaluation_enters_the_address_again() {
    let sum = binary(Binary::Plus, number(5.0), number(3.0));
    let mut machine = Machine::create(vec![at(1, sum.duplicate())], false);
    assert_eq!(machine.evaluate_until_finished(1, LIMIT), Ok(number(8.0)));
    assert!(machine.is_finished());
    assert_eq!(machine.fetch(1), Ok(()));
    assert_eq!(machine.depth(), 1);
    assert_eq!(machine.innermost(), Some(sum));
    assert_eq!(machine.register(), Expression::Undefined);
    assert_eq!(machine.executing(), Some(1));
    assert_eq!(machine.run(LIMIT), Ok(true));
    assert_eq!(machine.take_result(), number(8.0));
    assert_eq!(machine.executing(), None);
}

#[test]
fn no_address_is_executing_after_a_fault() {
    let mut machine = Machine::create(
        vec![at(1, binary(Binary::Mult, number(2.0), number(3.0))), at(2, number(4.0))],
        false,
    );
    assert_eq!(machine.evaluate_until_finished(1, LIMIT), Err(Fault::Unimplemented));
    assert_eq!(machine.executing(), None);
    assert_eq!(machine.evaluate_until_finished(1, LIMIT), Err(Fault::Unimplemented));
    machine.update(vec![at(1, fetch(2.0))]);
    assert_eq!(machine.evaluate_until_finished(1, LIMIT), Ok(number(4.0)));
}

#[test]
fn an_assignment_is_there_for_a_later_request_for_its_address() {
    let mut machine = Machine::create(
        vec![at(1, binary(Binary::Assign, number(3.0), number(99.0))), at(3, number(0.0))],
        false,
    );
    assert_eq!(machine.evaluate_until_finished(1, LIMIT), Ok(Expression::Undefined));
    assert_eq!(machine.evaluate_until_finished(3, LIMIT), Ok(number(99.0)));
}

#[test]
fn an_assignment_is_there_after_an_update() {
    let mut machine = Machine::create(
        vec![at(1, binary(Binary::Assign, number(3.0), number(99.0))), at(4, number(0.0))],
        false,
    );
    assert_eq!(machine.evaluate_until_finished(1, LIMIT), Ok(Expression::Undefined));
    machine.update(vec![at(2, fetch(3.0))]);
    assert_eq!(machine.evaluate_until_finished(2, LIMIT), Ok(number(99.0)));
}

#[test]
fn a_fetch_of_the_executing_address_reads_address_zero() {
    let mut machine = Machine::create(vec![at(1, fetch(1.0))], false);
    assert_eq!(machine.evaluate_until_finished(1, LIMIT), Ok(Expression::Undefined));
    assert!(machine.is_finished());
}

#[test]
fn a_call_fetches_its_own_address_as_its_argument() {
    // address 2 adds one to what address 2 "holds" while it executes: its argument
    let mut machine = Machine::create(
        vec![
            at(1, binary(Binary::CallWith, number(2.0), number(7.0))),
            at(2, binary(Binary::Plus, fetch(2.0), number(1.0))),
        ],
        false,
    );
    assert_eq!(machine.evaluate_until_finished(1, LIMIT), Ok(number(8.0)));
}

#[test]
fn a_number_evaluates_to_itself() {
    let mut machine = Machine::create(vec![at(1, number(42.5)), at(2, Expression::Undefined)], false);
    assert_eq!(machine.evaluate_until_finished(1, LIMIT), Ok(number(42.5)));
    assert_eq!(machine.evaluate_until_finished(2, LIMIT), Ok(Expression::Undefined));
    assert_eq!(machine.evaluate_until_finished(1, 0), Ok(number(42.5)));
    assert_eq!(machine.evaluate_until_finished(7, LIMIT), Ok(Expression::Undefined));
}

#[test]
fn a_number_mounted_where_a_program_ran_evaluates_to_itself() {
    let mut machine =
        Machine::create(vec![at(1, binary(Binary::Plus, number(5.0), number(3.0)))], false);
    assert_eq!(machine.evaluate_until_finished(1, LIMIT), Ok(number(8.0)));
    assert_eq!(machine.executing(), None);
    machine.update(vec![at(1, number(7.0))]);
    assert_eq!(machine.evaluate_until_finished(1, LIMIT), Ok(number(7.0)));
    machine.update(vec![at(1, list(&[1.0, 2.0, 3.0]))]);
    assert_eq!(machine.evaluate_until_finished(1, LIMIT), Ok(list(&[1.0, 2.0, 3.0])));
    machine.update(vec![at(1, Expression::Undefined)]);
    assert_eq!(machine.evaluate_until_finished(1, LIMIT), Ok(Expression::Undefined));
}

#[test]
fn assign_then_fetch_gives_what_was_assigned() {
    let mut machine = Machine::create(
        vec![
            at(
                1,
                sequence(vec![binary(Binary::Assign, number(2.0), number(5.0)), fetch(2.0)]),
            ),
            at(2, Expression::Undefined),
        ],
        false,
    );
    assert_eq!(machine.evaluate_until_finished(1, LIMIT), Ok(number(5.0)));
    assert_eq!(machine.read(2), number(5.0));
}

#[test]
fn assign_then_fetch_gives_an_assigned_list() {
    let mut machine = Machine::create(
        vec![
            at(
                1,
                sequence(vec![
                    binary(Binary::Assign, number(2.0), list(&[4.0, 5.0])),
                    fetch(2.0),
                ]),
            ),
            at(2, Expression::Undefined),
        ],
        false,
    );
    assert_eq!(machine.evaluate_until_finished(1, LIMIT), Ok(list(&[4.0, 5.0])));
}

#[test]
fn assign_to_address_zero_is_dropped() {
    let mut machine = Machine::create(
        vec![
            at(
                1,
                sequence(vec![binary(Binary::Assign, number(0.0), number(5.0)), fetch(0.0)]),
            ),
        ],
        false,
    );
    assert_eq!(machine.evaluate_until_finished(1, LIMIT), Ok(Expression::Undefined));
    assert_eq!(machine.read(0), Expression::Undefined);
}

#[test]
fn fetch_of_address_zero_gives_the_argument_of_the_call() {
    let mut machine = Machine::create(
        vec![
            at(1, binary(Binary::CallWith, number(2.0), number(7.0))),
            at(
                2,
                sequence(vec![binary(Binary::Assign, number(0.0), number(1.0)), fetch(0.0)]),
            ),
        ],
        false,
    );
    assert_eq!(machine.evaluate_until_finished(1, LIMIT), Ok(number(7.0)));
    assert_eq!(machine.read(0), number(7.0));
}

#[test]
fn assign_beyond_the_tape_is_dropped() {
    let mut machine =
        Machine::create(vec![at(1, binary(Binary::Assign, number(3.0), number(99.0)))], false);
    assert_eq!(machine.tape_len(), 2);
    assert_eq!(machine.evaluate_until_finished(1, LIMIT), Ok(Expression::Undefined));
    assert_eq!(machine.tape_len(), 2);
    assert_eq!(machine.evaluate_until_finished(3, LIMIT), Ok(Expression::Undefined));
}

#[test]
fn store_writes_but_not_to_address_zero() {
    let mut machine = Machine::create(vec![at(2, number(1.0))], false);
    machine.store(2, number(6.0));
    assert_eq!(machine.read(2), number(6.0));
    assert_eq!(machine.register(), Expression::Undefined);
    machine.store(0, number(6.0));
    assert_eq!(machine.read(0), Expression::Undefined);
    machine.store(3, number(6.0));
    assert_eq!(machine.tape_len(), 3);
    assert_eq!(tape_of(&machine), vec![Expression::Undefined, Expression::Undefined, number(6.0)]);
}

#[test]
fn set_called_with_writes_address_zero() {
    let mut machine = Machine::create(vec![at(1, number(1.0))], false);
    machine.set_called_with(number(3.0));
    assert_eq!(machine.read(0), number(3.0));
    assert_eq!(machine.read(1), number(1.0));
}

#[test]
fn drop_through_a_pointer_and_from_a_copy_agree() {
    let by_alias = binary(Binary::Plus, fetch(2.0), number(1.0));
    let by_copy = binary(Binary::Plus, unary(Unary::Signum, fetch(2.0)), number(1.0));
    let mut machine = Machine::create(
        vec![at(1, by_alias), at(3, by_copy), at(2, list(&[1.0, 2.0, 3.0]))],
        false,
    );
    assert_eq!(machine.evaluate_until_finished(1, LIMIT), Ok(list(&[2.0, 3.0])));
    assert_eq!(machine.evaluate_until_finished(3, LIMIT), Ok(list(&[2.0, 3.0])));
}

#[test]
fn drop_of_more_than_a_list_holds_leaves_it_empty() {
    let by_alias = binary(Binary::Plus, fetch(2.0), number(5.0));
    let by_copy = binary(Binary::Plus, unary(Unary::Signum, fetch(2.0)), number(5.0));
    let mut machine = Machine::create(
        vec![at(1, by_alias), at(3, by_copy), at(2, list(&[1.0, 2.0, 3.0]))],
        false,
    );
    assert_eq!(machine.evaluate_until_finished(1, LIMIT), Ok(list(&[])));
    assert_eq!(machine.evaluate_until_finished(3, LIMIT), Ok(list(&[])));
}

#[test]
fn drop_by_a_number_that_is_no_address_is_undefined() {
    let mut machine = Machine::create(
        vec![
            at(1, binary(Binary::Plus, fetch(2.0), number(100.0))),
            at(3, binary(Binary::Plus, unary(Unary::Signum, fetch(2.0)), number(f64::NAN))),
            at(2, list(&[1.0, 2.0, 3.0])),
        ],
        false,
    );
    assert_eq!(machine.evaluate_until_finished(1, LIMIT), Ok(Expression::Undefined));
    assert_eq!(machine.evaluate_until_finished(3, LIMIT), Ok(Expression::Undefined));
}

#[test]
fn a_pointer_sees_a_later_write() {
    // the pointer is made before the list is replaced and read after
    let program = vec![
        at(
            1,
            binary(
                Binary::Plus,
                fetch(2.0),
                sequence(vec![
                    binary(Binary::Assign, number(2.0), list(&[7.0, 8.0, 9.0])),
                    number(1.0),
                ]),
            ),
        ),
        at(2, list(&[1.0, 2.0, 3.0])),
    ];
    let mut machine = Machine::create(program, false);
    assert_eq!(machine.evaluate_until_finished(1, LIMIT), Ok(list(&[8.0, 9.0])));
}

#[test]
fn fetch_of_a_list_takes_its_first_item() {
    let mut machine = Machine::create(
        vec![
            at(1, unary(Unary::Fetch, fetch(2.0))),
            at(2, list(&[4.0, 5.0])),
            at(3, unary(Unary::Fetch, list(&[6.0, 7.0]))),
            at(4, unary(Unary::Fetch, list(&[]))),
            at(5, unary(Unary::Fetch, binary(Binary::Plus, fetch(2.0), number(9.0)))),
        ],
        false,
    );
    assert_eq!(machine.evaluate_until_finished(1, LIMIT), Ok(number(4.0)));
    assert_eq!(machine.evaluate_until_finished(3, LIMIT), Ok(number(6.0)));
    assert_eq!(machine.evaluate_until_finished(4, LIMIT), Ok(Expression::Undefined));
    assert_eq!(machine.evaluate_until_finished(5, LIMIT), Ok(Expression::Undefined));
}

#[test]
fn an_item_of_a_list_that_is_no_value_is_reduced() {
    let items = Expression::List(vec![binary(Binary::Plus, number(1.0), number(2.0))]);
    let mut machine =
        Machine::create(vec![at(1, unary(Unary::Fetch, fetch(2.0))), at(2, items)], false);
    assert_eq!(machine.evaluate_until_finished(1, LIMIT), Ok(number(3.0)));
}

#[test]
fn signum_of_numbers() {
    let mut machine = Machine::create(
        vec![
            at(1, unary(Unary::Signum, number(-12.5))),
            at(2, unary(Unary::Signum, number(0.0))),
            at(3, unary(Unary::Signum, number(3.0))),
            at(4, unary(Unary::Signum, number(f64::INFINITY))),
            at(5, unary(Unary::Signum, number(f64::NAN))),
            at(6, unary(Unary::Signum, number(-5.0e-324))),
            at(7, unary(Unary::Signum, Expression::Undefined)),
        ],
        false,
    );
    assert_eq!(machine.evaluate_until_finished(1, LIMIT), Ok(number(-1.0)));
    assert_eq!(machine.evaluate_until_finished(2, LIMIT), Ok(number(0.0)));
    assert_eq!(machine.evaluate_until_finished(3, LIMIT), Ok(number(1.0)));
    assert_eq!(machine.evaluate_until_finished(4, LIMIT), Ok(Expression::Undefined));
    assert_eq!(machine.evaluate_until_finished(5, LIMIT), Ok(Expression::Undefined));
    assert_eq!(machine.evaluate_until_finished(6, LIMIT), Ok(number(0.0)));
    assert_eq!(machine.evaluate_until_finished(7, LIMIT), Ok(Expression::Undefined));
}

#[test]
fn signum_passes_a_list_through() {
    let mut machine = Machine::create(
        vec![
            at(1, unary(Unary::Signum, list(&[3.0, 4.0]))),
            at(2, unary(Unary::Signum, fetch(3.0))),
            at(3, list(&[5.0])),
        ],
        false,
    );
    assert_eq!(machine.evaluate_until_finished(1, LIMIT), Ok(list(&[3.0, 4.0])));
    assert_eq!(machine.evaluate_until_finished(2, LIMIT), Ok(list(&[5.0])));
}

#[test]
fn negation_and_reciprocal() {
    let mut machine = Machine::create(
        vec![
            at(1, unary(Unary::Neg, number(2.5))),
            at(2, unary(Unary::Recip, number(4.0))),
            at(3, unary(Unary::Recip, number(0.0))),
            at(4, unary(Unary::Neg, Expression::Undefined)),
            at(5, unary(Unary::Recip, Expression::Undefined)),
            at(6, unary(Unary::Recip, unary(Unary::Neg, number(3.0)))),
        ],
        false,
    );
    assert_eq!(machine.evaluate_until_finished(1, LIMIT), Ok(number(-2.5)));
    assert_eq!(machine.evaluate_until_finished(2, LIMIT), Ok(number(0.25)));
    assert_eq!(machine.evaluate_until_finished(3, LIMIT), Ok(number(f64::INFINITY)));
    assert_eq!(machine.evaluate_until_finished(4, LIMIT), Ok(Expression::Undefined));
    assert_eq!(machine.evaluate_until_finished(5, LIMIT), Ok(Expression::Undefined));
    assert_eq!(machine.evaluate_until_finished(6, LIMIT), Ok(number(-1.0 / 3.0)));
}

#[test]
fn plus_with_an_undefined_operand_is_undefined() {
    let mut machine = Machine::create(
        vec![
            at(1, binary(Binary::Plus, Expression::Undefined, number(1.0))),
            at(2, binary(Binary::Plus, number(1.0), Expression::Undefined)),
            at(3, binary(Binary::Plus, list(&[1.0]), Expression::Undefined)),
            at(4, binary(Binary::Mult, Expression::Undefined, number(1.0))),
            at(5, binary(Binary::Assign, Expression::Undefined, number(1.0))),
            at(6, binary(Binary::CallWith, Expression::Undefined, number(1.0))),
            at(7, fetch(f64::NAN)),
        ],
        false,
    );
    for address in 1..8 {
        assert_eq!(machine.evaluate_until_finished(address, LIMIT), Ok(Expression::Undefined));
    }
}

#[test]
fn operands_are_reduced_left_to_right() {
    // the left operand writes what the right operand reads
    let program = vec![
        at(
            1,
            binary(
                Binary::Plus,
                sequence(vec![binary(Binary::Assign, number(2.0), number(10.0)), number(1.0)]),
                fetch(2.0),
            ),
        ),
        at(2, number(0.0)),
    ];
    let mut machine = Machine::create(program, false);
    assert_eq!(machine.evaluate_until_finished(1, LIMIT), Ok(number(11.0)));
}

#[test]
fn a_sequence_gives_the_value_of_its_last_step() {
    let program = vec![
        at(
            1,
            sequence(vec![
                binary(Binary::Assign, number(2.0), number(1.0)),
                binary(Binary::Assign, number(3.0), number(2.0)),
                binary(Binary::Plus, fetch(2.0), fetch(3.0)),
            ]),
        ),
        at(3, number(0.0)),
    ];
    let mut machine = Machine::create(program, false);
    assert_eq!(machine.evaluate_until_finished(1, LIMIT), Ok(number(3.0)));
    assert_eq!(machine.read(2), number(1.0));
    assert_eq!(machine.read(3), number(2.0));
}

#[test]
fn mult_has_no_rule() {
    let mut machine =
        Machine::create(vec![at(1, binary(Binary::Mult, number(2.0), number(3.0)))], false);
    assert_eq!(machine.evaluate_until_finished(1, LIMIT), Err(Fault::Unimplemented));
    assert!(machine.is_finished());
    assert_eq!(machine.register(), Expression::Undefined);
}

#[test]
fn operators_without_a_rule_for_lists() {
    let cases = vec![
        unary(Unary::Neg, list(&[1.0])),
        unary(Unary::Recip, list(&[1.0])),
        unary(Unary::Neg, fetch(9.0)),
        unary(Unary::Recip, fetch(9.0)),
        binary(Binary::Plus, number(1.0), list(&[1.0])),
        binary(Binary::Plus, number(1.0), fetch(9.0)),
        binary(Binary::Plus, list(&[1.0]), list(&[1.0])),
        binary(Binary::Plus, list(&[1.0]), fetch(9.0)),
        binary(Binary::Plus, fetch(9.0), list(&[1.0])),
        binary(Binary::Plus, fetch(9.0), fetch(9.0)),
        binary(Binary::Assign, list(&[1.0]), number(1.0)),
        binary(Binary::Assign, fetch(9.0), number(1.0)),
        binary(Binary::CallWith, list(&[1.0]), number(1.0)),
        binary(Binary::CallWith, fetch(9.0), number(1.0)),
        binary(Binary::Mult, list(&[1.0]), number(1.0)),
    ];
    for case in cases {
        let mut machine = Machine::create(vec![at(1, case), at(9, list(&[1.0, 2.0]))], false);
        assert_eq!(machine.evaluate_until_finished(1, LIMIT), Err(Fault::Unimplemented));
        assert!(machine.is_finished());
        assert_eq!(machine.read(9), list(&[1.0, 2.0]));
    }
}

#[test]
fn a_placeholder_on_the_tape_is_a_protocol_fault() {
    let mut machine = Machine::create(
        vec![at(1, Expression::Stub), at(2, sequence(vec![Expression::Stub]))],
        false,
    );
    assert_eq!(machine.evaluate_until_finished(1, LIMIT), Err(Fault::Protocol));
    assert_eq!(machine.evaluate_until_finished(2, LIMIT), Err(Fault::Protocol));
    assert!(machine.is_finished());
}

#[test]
fn a_placeholder_in_an_operand_slot_takes_the_register() {
    let mut machine =
        Machine::create(vec![at(1, unary(Unary::Neg, Expression::Stub))], false);
    assert_eq!(machine.evaluate_until_finished(1, LIMIT), Ok(Expression::Undefined));
}

#[test]
fn address_zero_on_a_new_machine_is_fetched_as_it_is() {
    let mut machine = Machine::create(vec![at(1, number(1.0))], false);
    assert_eq!(machine.executing(), None);
    assert_eq!(machine.evaluate_until_finished(0, LIMIT), Ok(Expression::Undefined));
    assert_eq!(machine.fetch(0), Ok(()));
    let mut mounted = Machine::create(vec![at(0, number(6.0))], false);
    assert_eq!(mounted.evaluate_until_finished(0, LIMIT), Ok(number(6.0)));
}

#[test]
fn address_zero_that_fetches_itself_redirects_without_end() {
    let mut machine = Machine::create(vec![at(0, fetch(0.0))], false);
    assert_eq!(machine.evaluate_until_finished(0, LIMIT), Err(Fault::Redirect));
    assert!(machine.is_finished());
    assert_eq!(machine.executing(), None);
    // the entry emptied address 0
    assert_eq!(machine.evaluate_until_finished(0, LIMIT), Ok(Expression::Undefined));
}

#[test]
fn an_empty_sequence_never_finishes() {
    let mut machine = Machine::create(vec![at(1, sequence(vec![]))], false);
    assert_eq!(machine.evaluate_until_finished(1, 50), Err(Fault::Unfinished));
    assert!(!machine.is_finished());
    assert_eq!(machine.depth(), 1);
    assert_eq!(machine.run(50), Ok(false));
}

#[test]
fn an_evaluation_that_ran_out_of_steps_can_be_taken_up() {
    let program = vec![at(
        1,
        binary(
            Binary::Plus,
            binary(Binary::Plus, number(1.0), number(2.0)),
            binary(Binary::Plus, number(3.0), number(4.0)),
        ),
    )];
    let mut machine = Machine::create(program, false);
    assert_eq!(machine.evaluate_until_finished(1, 2), Err(Fault::Unfinished));
    assert!(!machine.is_finished());
    assert_eq!(machine.run(LIMIT), Ok(true));
    assert_eq!(machine.take_result(), number(10.0));
    assert_eq!(machine.register(), Expression::Undefined);
}

#[test]
fn steps_of_a_unary_frame() {
    let mut machine = Machine::create(
        vec![at(1, unary(Unary::Neg, binary(Binary::Plus, number(1.0), number(2.0))))],
        false,
    );
    assert_eq!(machine.fetch(1), Ok(()));
    assert_eq!(machine.depth(), 1);
    assert_eq!(machine.executing(), Some(1));
    assert_eq!(machine.tick(), Ok(()));
    assert_eq!(machine.depth(), 2);
    assert_eq!(machine.executing(), Some(1));
    assert_eq!(machine.innermost(), Some(binary(Binary::Plus, number(1.0), number(2.0))));
    assert_eq!(machine.tick(), Ok(()));
    assert_eq!(machine.depth(), 1);
    assert_eq!(machine.register(), number(3.0));
    assert_eq!(machine.innermost(), Some(unary(Unary::Neg, Expression::Stub)));
    assert_eq!(machine.tick(), Ok(()));
    assert!(machine.is_finished());
    assert_eq!(machine.executing(), None);
    assert_eq!(machine.innermost(), None);
    assert_eq!(machine.register(), number(-3.0));
    assert_eq!(machine.tick(), Ok(()));
    assert_eq!(machine.register(), number(-3.0));
}

#[test]
fn solve_delivers_values_and_pushes_the_rest() {
    let mut machine = Machine::create(vec![at(1, number(1.0))], false);
    assert_eq!(machine.solve(number(4.0)), Ok(()));
    assert_eq!(machine.register(), number(4.0));
    assert!(machine.is_finished());
    assert_eq!(machine.solve(fetch(1.0)), Ok(()));
    assert_eq!(machine.register(), Expression::Undefined);
    assert_eq!(machine.innermost(), Some(fetch(1.0)));
    assert_eq!(machine.solve(Expression::Stub), Err(Fault::Protocol));
    assert!(machine.is_finished());
}

#[test]
fn operators_applied_to_values() {
    let mut machine = Machine::create(vec![at(3, list(&[1.0, 2.0, 3.0]))], false);
    assert_eq!(machine.perform_unary_on_value(Unary::Neg, number(1.0)), Ok(()));
    assert_eq!(machine.register(), number(-1.0));
    assert_eq!(
        machine.perform_binary_on_values(Binary::Plus, number(1.0), number(2.0)),
        Ok(())
    );
    assert_eq!(machine.register(), number(3.0));
    let pointer = Expression::PointerIntoList { address: 3, offset: 1 };
    assert_eq!(machine.perform_binary_on_values(Binary::Plus, pointer, number(1.0)), Ok(()));
    assert_eq!(machine.register(), Expression::PointerIntoList { address: 3, offset: 2 });
    assert_eq!(machine.take_result(), list(&[3.0]));
    let far = Expression::PointerIntoList { address: 3, offset: usize::MAX };
    assert_eq!(machine.perform_binary_on_values(Binary::Plus, far, number(1.0)), Ok(()));
    assert_eq!(machine.register(), Expression::PointerIntoList { address: 3, offset: usize::MAX });
    assert_eq!(
        machine.perform_unary_on_value(Unary::Neg, fetch(1.0)),
        Err(Fault::Protocol)
    );
    assert_eq!(
        machine.perform_binary_on_values(Binary::Plus, number(1.0), Expression::Stub),
        Err(Fault::Protocol)
    );
}

#[test]
fn copies_of_lists_and_items() {
    let machine = Machine::create(vec![at(1, list(&[1.0, 2.0, 3.0])), at(2, number(1.0))], false);
    assert_eq!(machine.copy_list(1, 0), list(&[1.0, 2.0, 3.0]));
    assert_eq!(machine.copy_list(1, 2), list(&[3.0]));
    assert_eq!(machine.copy_list(1, 3), list(&[]));
    assert_eq!(machine.copy_list(1, 4), list(&[]));
    assert_eq!(machine.copy_list(2, 0), Expression::Undefined);
    assert_eq!(machine.copy_list(5, 0), Expression::Undefined);
    assert_eq!(machine.copy_element(1, 0), number(1.0));
    assert_eq!(machine.copy_element(1, 2), number(3.0));
    assert_eq!(machine.copy_element(1, 3), Expression::Undefined);
    assert_eq!(machine.copy_element(2, 0), Expression::Undefined);
    assert_eq!(machine.copy_element(5, 0), Expression::Undefined);
}

#[test]
fn addresses_of_numbers() {
    let machine = Machine::create(vec![at(4, number(1.0))], false);
    assert_eq!(machine.tape_len(), 5);
    let address = |value: f64| machine.address_from_number(value.to_bits());
    assert_eq!(address(0.0), Some(0));
    assert_eq!(address(-0.0), Some(0));
    assert_eq!(address(0.4), Some(0));
    assert_eq!(address(0.49999999999999994), Some(0));
    assert_eq!(address(0.5), Some(0));
    assert_eq!(address(0.99), Some(0));
    assert_eq!(address(1.0), Some(1));
    assert_eq!(address(2.7), Some(2));
    assert_eq!(address(-3.0), Some(0));
    assert_eq!(address(9.999), Some(9));
    assert_eq!(address(10.0), None);
    assert_eq!(address(1.0e300), None);
    assert_eq!(address(5.0e-324), Some(0));
    assert_eq!(address(-5.0e-324), Some(0));
    assert_eq!(address(2.0e-308), Some(0));
    assert_eq!(address(f64::NAN), None);
    assert_eq!(address(f64::INFINITY), None);
    assert_eq!(address(f64::NEG_INFINITY), None);
}

#[test]
fn create_sizes_the_tape_by_the_largest_label() {
    let machine = Machine::create(vec![at(5, number(1.0)), at(2, number(2.0))], true);
    assert_eq!(machine.tape_len(), 6);
    assert!(machine.is_verbose());
    assert!(machine.is_finished());
    assert_eq!(machine.executing(), None);
    assert_eq!(
        tape_of(&machine),
        vec![
            Expression::Undefined,
            Expression::Undefined,
            number(2.0),
            Expression::Undefined,
            Expression::Undefined,
            number(1.0),
        ]
    );
    let empty = Machine::create(vec![], false);
    assert_eq!(empty.tape_len(), 1);
    assert!(!empty.is_verbose());
}

#[test]
fn the_last_of_two_instructions_with_one_label_stands() {
    let machine = Machine::create(
        vec![at(1, number(1.0)), at(2, number(2.0)), at(1, number(3.0))],
        false,
    );
    assert_eq!(tape_of(&machine), vec![Expression::Undefined, number(3.0), number(2.0)]);
}

#[test]
fn update_keeps_what_it_does_not_bind() {
    let mut machine = Machine::create(vec![at(1, number(1.0)), at(2, number(2.0))], false);
    machine.store(2, number(20.0));
    machine.update(vec![at(1, number(10.0)), at(4, number(40.0)), at(4, number(41.0))]);
    assert_eq!(
        tape_of(&machine),
        vec![
            Expression::Undefined,
            number(10.0),
            number(20.0),
            Expression::Undefined,
            number(41.0),
        ]
    );
    machine.update(vec![]);
    assert_eq!(machine.tape_len(), 5);
}

#[test]
fn tracing_does_not_change_the_result() {
    let program = || {
        vec![
            at(
                1,
                sequence(vec![
                    binary(Binary::Assign, number(3.0), fetch(2.0)),
                    binary(Binary::CallWith, number(4.0), fetch(3.0)),
                ]),
            ),
            at(2, list(&[1.0, 2.0, 3.0])),
            at(3, Expression::Undefined),
            at(4, binary(Binary::Plus, fetch(4.0), number(2.0))),
        ]
    };
    let mut quiet = Machine::create(program(), false);
    let mut verbose = Machine::create(program(), true);
    let first = quiet.evaluate_until_finished(1, LIMIT);
    let second = verbose.evaluate_until_finished(1, LIMIT);
    assert_eq!(first, second);
    assert_eq!(first, Ok(list(&[3.0])));
    assert_eq!(tape_of(&quiet), tape_of(&verbose));
    assert_eq!(quiet.executing(), verbose.executing());
    verbose.set_verbose(false);
    assert!(!verbose.is_verbose());
}

#[test]
fn evaluate_mounts_and_evaluates_address_one() {
    let mut machine = Machine::create(vec![at(1, number(0.0)), at(3, number(0.0))], false);
    let first = evaluate(
        vec![at(1, binary(Binary::Assign, number(3.0), number(99.0)))],
        &mut machine,
        LIMIT,
    );
    assert_eq!(first, Ok(Expression::Undefined));
    assert_eq!(machine.read(3), number(99.0));
    assert_eq!(machine.evaluate_until_finished(3, LIMIT), Ok(number(99.0)));
}

#[test]
fn copies_and_values() {
    let expression = binary(
        Binary::CallWith,
        sequence(vec![list(&[1.0]), Expression::Stub]),
        unary(Unary::Recip, Expression::PointerIntoList { address: 1, offset: 2 }),
    );
    assert_eq!(expression.duplicate(), expression);
    assert_eq!(expression.clone(), expression);
    assert_eq!(Expression::default(), Expression::Undefined);
}

#[test]
fn values_and_what_is_still_to_reduce() {
    assert!(is_value(&Expression::Undefined));
    assert!(is_value(&number(1.0)));
    assert!(is_value(&list(&[])));
    assert!(is_value(&Expression::PointerIntoList { address: 0, offset: 0 }));
    assert!(!is_value(&sequence(vec![])));
    assert!(!is_value(&fetch(1.0)));
    assert!(!is_value(&binary(Binary::Mult, number(1.0), number(1.0))));
    assert!(!is_value(&Expression::Stub));
}

#[test]
fn a_tracing_machine_notes_the_frames_that_fetch_and_solve_enter() {
    let body = sequence(vec![binary(Binary::Assign, number(2.0), number(5.0)), fetch(2.0)]);
    let program = vec![at(1, body.duplicate()), at(2, Expression::Undefined)];
    let mut machine = Machine::create(program, true);
    assert_eq!(machine.evaluate_until_finished(1, LIMIT), Ok(number(5.0)));
    assert_eq!(
        machine.take_trace(),
        vec![
            Notice { address: Some(1), frame: body },
            Notice { address: None, frame: binary(Binary::Assign, number(2.0), number(5.0)) },
            Notice { address: None, frame: fetch(2.0) },
        ]
    );
    assert_eq!(machine.take_trace(), vec![]);
}

#[test]
fn an_operand_that_becomes_a_frame_is_not_noted() {
    let body = unary(Unary::Neg, binary(Binary::Plus, number(1.0), number(2.0)));
    let mut machine = Machine::create(vec![at(1, body.duplicate())], true);
    assert_eq!(machine.evaluate_until_finished(1, LIMIT), Ok(number(-3.0)));
    assert_eq!(machine.take_trace(), vec![Notice { address: Some(1), frame: body }]);
}

#[test]
fn a_call_notes_the_address_that_it_enters() {
    let callee = binary(Binary::Plus, fetch(2.0), number(1.0));
    let caller = binary(Binary::CallWith, number(2.0), number(7.0));
    let mut machine =
        Machine::create(vec![at(1, caller.duplicate()), at(2, callee.duplicate())], true);
    assert_eq!(machine.evaluate_until_finished(1, LIMIT), Ok(number(8.0)));
    assert_eq!(
        machine.take_trace(),
        vec![
            Notice { address: Some(1), frame: caller },
            Notice { address: Some(2), frame: callee },
        ]
    );
}

#[test]
fn a_machine_that_does_not_trace_notes_nothing() {
    let body = sequence(vec![binary(Binary::Assign, number(2.0), number(5.0)), fetch(2.0)]);
    let mut machine = Machine::create(vec![at(1, body), at(2, Expression::Undefined)], false);
    assert_eq!(machine.evaluate_until_finished(1, LIMIT), Ok(number(5.0)));
    assert_eq!(machine.take_trace(), vec![]);
    machine.set_verbose(true);
    assert_eq!(machine.evaluate_until_finished(2, LIMIT), Ok(number(5.0)));
    assert_eq!(machine.take_trace(), vec![]);
}

#[test]
fn the_same_program_gives_the_same_result_and_tape() {
    let program = || {
        vec![
            at(
                1,
                sequence(vec![
                    binary(Binary::Assign, number(4.0), binary(Binary::Plus, fetch(2.0), fetch(3.0))),
                    binary(Binary::Assign, number(5.0), unary(Unary::Recip, fetch(4.0))),
                    binary(Binary::CallWith, number(6.0), fetch(5.0)),
                ]),
            ),
            at(2, number(0.1)),
            at(3, number(0.2)),
            at(5, Expression::Undefined),
            at(6, binary(Binary::Plus, fetch(6.0), unary(Unary::Neg, fetch(4.0)))),
        ]
    };
    let mut first = Machine::create(program(), false);
    let mut second = Machine::create(program(), false);
    let expected = 1.0 / (0.1 + 0.2) + -(0.1 + 0.2);
    for _ in 0..3 {
        let one = first.evaluate_until_finished(1, LIMIT);
        let other = second.evaluate_until_finished(1, LIMIT);
        assert_eq!(one, other);
        assert_eq!(tape_of(&first), tape_of(&second));
        assert_eq!(first.executing(), second.executing());
    }
    let mut third = Machine::create(program(), false);
    assert_eq!(third.evaluate_until_finished(1, LIMIT), Ok(number(expected)));
    assert_eq!(third.read(4), number(0.1 + 0.2));
    assert_eq!(third.read(5), number(1.0 / (0.1 + 0.2)));
}

#[test]
fn an_arithmetic_expression_takes_as_many_steps_as_it_costs() {
    // -(1 / 4) + (1 + signum(-3)): nine steps
    let expression = || {
        binary(
            Binary::Plus,
            unary(Unary::Neg, unary(Unary::Recip, number(4.0))),
            binary(Binary::Plus, number(1.0), unary(Unary::Signum, number(-3.0))),
        )
    };
    let mut machine = Machine::create(vec![at(1, expression())], false);
    assert_eq!(machine.evaluate_until_finished(1, 9), Ok(number(-0.25)));
    let mut short = Machine::create(vec![at(1, expression())], false);
    assert_eq!(short.evaluate_until_finished(1, 8), Err(Fault::Unfinished));
    assert_eq!(short.depth(), 1);
    assert_eq!(short.run(1), Ok(true));
    assert_eq!(short.take_result(), number(-0.25));
}

#[test]
fn an_undefined_operand_makes_arithmetic_undefined() {
    let expression = binary(
        Binary::Plus,
        unary(Unary::Neg, unary(Unary::Signum, number(f64::INFINITY))),
        number(1.0),
    );
    let mut machine = Machine::create(vec![at(1, expression)], false);
    assert_eq!(machine.evaluate_until_finished(1, 5), Ok(Expression::Undefined));
}

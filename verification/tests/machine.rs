use hrm::machine::{Instruction, Machine, Program, Registers, StepError, Tile};
use hrm::parser::Register;

fn machine(instrs: Vec<Instruction>, input: Vec<Tile>, registers: Registers) -> Machine {
    Machine::new(Program(instrs), input, registers)
}

#[test]
fn inbox_outbox_emits_first_tile() {
    // Scenario: INBOX then OUTBOX with input [1, 2, 3] emits [1].
    let mut m = machine(
        vec![Instruction::Inbox, Instruction::Outbox],
        vec![Tile::num(1), Tile::num(2), Tile::num(3)],
        Registers::new(),
    );
    assert_eq!(m.run(), Ok(()));
    assert_eq!(m.into_output(), vec![Tile::num(1)]);
}

#[test]
fn second_inbox_consumes_second_tile() {
    // Scenario: a second INBOX consumes Number(2).
    let mut m = machine(
        vec![
            Instruction::Inbox,
            Instruction::Outbox,
            Instruction::Inbox,
            Instruction::Outbox,
        ],
        vec![Tile::num(1), Tile::num(2), Tile::num(3)],
        Registers::new(),
    );
    assert_eq!(m.run(), Ok(()));
    assert_eq!(m.into_output(), vec![Tile::num(1), Tile::num(2)]);
}

#[test]
fn inbox_on_empty_input_halts_with_success() {
    // Scenario: INBOX with no input left is the normal halt, not an error.
    let mut m = machine(vec![Instruction::Inbox], vec![], Registers::new());
    assert_eq!(m.run(), Ok(()));
    assert_eq!(m.into_output(), vec![]);
}

#[test]
fn copyto_with_empty_accumulator_fails_and_leaves_state() {
    // Scenario: COPYTO 0 with an empty accumulator fails CopyToNil; the
    // program counter stays on the failed instruction, so stepping again
    // fails the same way, and nothing was written.
    let mut m = machine(
        vec![Instruction::CopyTo(Register::Direct(0))],
        vec![],
        Registers::new(),
    );
    assert_eq!(m.step(), Err(StepError::CopyToNil));
    assert_eq!(m.step(), Err(StepError::CopyToNil));
    assert_eq!(m.into_output(), vec![]);
}

#[test]
fn bumpup_of_a_letter_fails() {
    // Scenario: register 5 holds Letter('c'); BUMPUP 5 fails BumpLetter.
    let mut registers = Registers::new();
    registers.insert(5, Tile::Letter('c'));
    let mut m = machine(
        vec![Instruction::BumpUp(Register::Direct(5))],
        vec![],
        registers,
    );
    assert_eq!(m.step(), Err(StepError::BumpLetter));
}

#[test]
fn add_overflows_at_the_clamping_bound() {
    // Scenario: accumulator Number(999) plus Number(1) overflows.
    let mut registers = Registers::new();
    registers.insert(0, Tile::num(1));
    let mut m = machine(
        vec![Instruction::Inbox, Instruction::Add(Register::Direct(0))],
        vec![Tile::num(999)],
        registers,
    );
    assert_eq!(m.run(), Err(StepError::Overflow));
    assert_eq!(m.into_output(), vec![]);
}

#[test]
fn sub_underflows_at_the_clamping_bound() {
    let mut registers = Registers::new();
    registers.insert(0, Tile::num(1));
    let mut m = machine(
        vec![Instruction::Inbox, Instruction::Sub(Register::Direct(0))],
        vec![Tile::num(-999)],
        registers,
    );
    assert_eq!(m.run(), Err(StepError::Underflow));
}

#[test]
fn add_stays_exact_within_the_range() {
    let mut registers = Registers::new();
    registers.insert(0, Tile::num(-4));
    let mut m = machine(
        vec![
            Instruction::Inbox,
            Instruction::Add(Register::Direct(0)),
            Instruction::Outbox,
        ],
        vec![Tile::num(7)],
        registers,
    );
    assert_eq!(m.run(), Ok(()));
    assert_eq!(m.into_output(), vec![Tile::num(3)]);
}

#[test]
fn indirect_addressing_reads_through_a_number() {
    // Register 1 points at register 3.
    let mut registers = Registers::new();
    registers.insert(1, Tile::num(3));
    registers.insert(3, Tile::num(42));
    let mut m = machine(
        vec![
            Instruction::CopyFrom(Register::Indirect(1)),
            Instruction::Outbox,
        ],
        vec![],
        registers,
    );
    assert_eq!(m.run(), Ok(()));
    assert_eq!(m.into_output(), vec![Tile::num(42)]);
}

#[test]
fn indirect_addressing_writes_through_a_number() {
    let mut registers = Registers::new();
    registers.insert(0, Tile::num(7));
    let mut m = machine(
        vec![
            Instruction::Inbox,
            Instruction::CopyTo(Register::Indirect(0)),
            Instruction::CopyFrom(Register::Direct(7)),
            Instruction::Outbox,
        ],
        vec![Tile::Letter('q')],
        registers,
    );
    assert_eq!(m.run(), Ok(()));
    assert_eq!(m.into_output(), vec![Tile::Letter('q')]);
}

#[test]
fn indirect_through_nil_fails() {
    let mut m = machine(
        vec![Instruction::CopyFrom(Register::Indirect(1))],
        vec![],
        Registers::new(),
    );
    assert_eq!(m.step(), Err(StepError::IndirectThroughNil));
}

#[test]
fn indirect_through_letter_fails() {
    let mut registers = Registers::new();
    registers.insert(1, Tile::Letter('a'));
    let mut m = machine(
        vec![Instruction::CopyFrom(Register::Indirect(1))],
        vec![],
        registers,
    );
    assert_eq!(m.step(), Err(StepError::IndirectThroughLetter));
}

#[test]
fn indirect_through_negative_fails() {
    let mut registers = Registers::new();
    registers.insert(1, Tile::num(-1));
    let mut m = machine(
        vec![Instruction::CopyFrom(Register::Indirect(1))],
        vec![],
        registers,
    );
    assert_eq!(m.step(), Err(StepError::IndirectThroughNegative));
}

#[test]
fn letters_subtract_by_character_code() {
    let mut registers = Registers::new();
    registers.insert(0, Tile::Letter('a'));
    let mut m = machine(
        vec![
            Instruction::Inbox,
            Instruction::Sub(Register::Direct(0)),
            Instruction::Outbox,
        ],
        vec![Tile::Letter('c')],
        registers,
    );
    assert_eq!(m.run(), Ok(()));
    assert_eq!(m.into_output(), vec![Tile::num(2)]);
}

#[test]
fn mixing_number_and_letter_in_sub_fails() {
    let mut registers = Registers::new();
    registers.insert(0, Tile::Letter('a'));
    let mut m = machine(
        vec![Instruction::Inbox, Instruction::Sub(Register::Direct(0))],
        vec![Tile::num(5)],
        registers,
    );
    assert_eq!(m.run(), Err(StepError::SubCrossTypes));
}

#[test]
fn bumps_move_the_register_and_the_accumulator() {
    let mut registers = Registers::new();
    registers.insert(0, Tile::num(5));
    let mut m = machine(
        vec![
            Instruction::BumpUp(Register::Direct(0)),
            Instruction::Outbox,
            Instruction::BumpDown(Register::Direct(0)),
            Instruction::Outbox,
        ],
        vec![],
        registers,
    );
    assert_eq!(m.run(), Ok(()));
    assert_eq!(m.into_output(), vec![Tile::num(6), Tile::num(5)]);
}

#[test]
fn jump_if_zero_takes_the_jump_on_zero() {
    let mut m = machine(
        vec![
            Instruction::Inbox,
            Instruction::JumpIfZero(3),
            Instruction::Outbox,
            Instruction::Inbox,
        ],
        vec![Tile::num(0)],
        Registers::new(),
    );
    assert_eq!(m.run(), Ok(()));
    assert_eq!(m.into_output(), vec![]);
}

#[test]
fn jump_if_zero_falls_through_on_nonzero_and_letters() {
    let mut m = machine(
        vec![
            Instruction::Inbox,
            Instruction::JumpIfZero(3),
            Instruction::Outbox,
            Instruction::Inbox,
        ],
        vec![Tile::num(5)],
        Registers::new(),
    );
    assert_eq!(m.run(), Ok(()));
    assert_eq!(m.into_output(), vec![Tile::num(5)]);

    let mut m = machine(
        vec![
            Instruction::Inbox,
            Instruction::JumpIfZero(3),
            Instruction::Outbox,
            Instruction::Inbox,
        ],
        vec![Tile::Letter('z')],
        Registers::new(),
    );
    assert_eq!(m.run(), Ok(()));
    assert_eq!(m.into_output(), vec![Tile::Letter('z')]);
}

#[test]
fn jump_if_negative_takes_the_jump_on_negative() {
    let mut m = machine(
        vec![
            Instruction::Inbox,
            Instruction::JumpIfNegative(3),
            Instruction::Outbox,
            Instruction::Inbox,
        ],
        vec![Tile::num(-2)],
        Registers::new(),
    );
    assert_eq!(m.run(), Ok(()));
    assert_eq!(m.into_output(), vec![]);
}

#[test]
fn error_taxonomy_of_nil_operands() {
    let mut m = machine(vec![Instruction::Outbox], vec![], Registers::new());
    assert_eq!(m.step(), Err(StepError::OutputNil));

    let mut m = machine(
        vec![Instruction::CopyFrom(Register::Direct(9))],
        vec![],
        Registers::new(),
    );
    assert_eq!(m.step(), Err(StepError::CopyFromNil));

    let mut m = machine(
        vec![Instruction::BumpUp(Register::Direct(9))],
        vec![],
        Registers::new(),
    );
    assert_eq!(m.step(), Err(StepError::BumpNil));

    let mut m = machine(
        vec![Instruction::Add(Register::Direct(9))],
        vec![],
        Registers::new(),
    );
    assert_eq!(m.step(), Err(StepError::AddToNil));

    let mut m = machine(
        vec![Instruction::Sub(Register::Direct(9))],
        vec![],
        Registers::new(),
    );
    assert_eq!(m.step(), Err(StepError::SubFromNil));

    let mut m = machine(vec![Instruction::JumpIfZero(0)], vec![], Registers::new());
    assert_eq!(m.step(), Err(StepError::JumpZeroNil));

    let mut m = machine(vec![Instruction::JumpIfNegative(0)], vec![], Registers::new());
    assert_eq!(m.step(), Err(StepError::JumpNegativeNil));
}

#[test]
fn add_with_nil_register_and_with_letters() {
    let mut m = machine(
        vec![Instruction::Inbox, Instruction::Add(Register::Direct(9))],
        vec![Tile::num(1)],
        Registers::new(),
    );
    assert_eq!(m.run(), Err(StepError::AddWithNil));

    let mut registers = Registers::new();
    registers.insert(0, Tile::Letter('a'));
    let mut m = machine(
        vec![Instruction::Inbox, Instruction::Add(Register::Direct(0))],
        vec![Tile::Letter('b')],
        registers,
    );
    assert_eq!(m.run(), Err(StepError::AddWithLetter));
}

#[test]
fn registers_distinguish_nil_from_zero() {
    let mut registers = Registers::new();
    assert_eq!(registers.get(3), None);
    registers.insert(3, Tile::num(0));
    assert_eq!(registers.get(3), Some(Tile::num(0)));
    assert_eq!(registers.get(4), None);
}

#[test]
fn noop_only_advances() {
    let mut m = machine(
        vec![Instruction::NoOp, Instruction::NoOp],
        vec![],
        Registers::new(),
    );
    assert_eq!(m.step(), Ok(()));
    assert_eq!(m.step(), Err(StepError::EndOfProgram));
}

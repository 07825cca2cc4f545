//! End-to-end runs through the whole pipeline: source text is lexed,
//! compiled and executed, and the output is compared against a level's
//! expectation, as the simulator's driver does.

use hrm::compiler::{Error as CompileError, Program};
use hrm::level::level_1;
use hrm::machine::{Machine, Tile};
use hrm::parser::{Error as LexError, Parser, Token};

type LexFailure = (usize, Vec<LexError>);

fn lex(src: &str) -> Vec<Result<Token, LexFailure>> {
    let mut p = Parser::new(src);
    let mut out = Vec::new();
    while let Some(r) = p.next() {
        let failed = r.is_err();
        out.push(r);
        if failed {
            break;
        }
    }
    out
}

fn compile_src(src: &str) -> Result<Program, CompileError<LexFailure>> {
    Program::compile(lex(src))
}

#[test]
fn inbox_outbox_program_emits_the_first_tile() {
    // Scenario: the two-instruction program with the required header,
    // on input [1, 2, 3], runs to completion and emits [1].
    let program = compile_src("-- HUMAN RESOURCE MACHINE PROGRAM --\nINBOX\nOUTBOX").unwrap();
    let input = vec![Tile::num(1), Tile::num(2), Tile::num(3)];
    let mut m = Machine::new(program, input, hrm::machine::Registers::new());
    assert_eq!(m.run(), Ok(()));
    assert_eq!(m.into_output(), vec![Tile::num(1)]);
}

#[test]
fn copy_loop_solves_the_first_level() {
    let (input, registers, expected) = level_1();
    let program = compile_src("a:\nINBOX\nOUTBOX\nJUMP a").unwrap();
    let mut m = Machine::new(program, input, registers);
    assert_eq!(m.run(), Ok(()));
    assert_eq!(m.into_output(), expected);
}

#[test]
fn duplicate_labels_jump_to_the_later_definition() {
    // Scenario: two labels named skip; the jump resolves to the later
    // definition, so the first INBOX runs only once. Were the earlier
    // definition the target, the run would emit [2] alone.
    let src = "skip:\nINBOX\nskip:\nINBOX\nOUTBOX\nJUMP skip";
    let program = compile_src(src).unwrap();
    let input = vec![Tile::num(1), Tile::num(2), Tile::num(3)];
    let mut m = Machine::new(program, input, hrm::machine::Registers::new());
    assert_eq!(m.run(), Ok(()));
    assert_eq!(m.into_output(), vec![Tile::num(2), Tile::num(3)]);
}

#[test]
fn negative_filter_program() {
    // Emit only the non-negative inputs.
    let src = "next:\nINBOX\nJUMPN next\nOUTBOX\nJUMP next";
    let program = compile_src(src).unwrap();
    let input = vec![Tile::num(3), Tile::num(-1), Tile::num(0), Tile::num(-9)];
    let mut m = Machine::new(program, input, hrm::machine::Registers::new());
    assert_eq!(m.run(), Ok(()));
    assert_eq!(m.into_output(), vec![Tile::num(3), Tile::num(0)]);
}

#[test]
fn countdown_program_uses_registers_and_jumps() {
    // For each input n >= 0, emit n, n-1, ..., 0.
    let src = "begin:\nINBOX\nCOPYTO 0\nstep:\nCOPYFROM 0\nOUTBOX\nJUMPZ begin\nBUMPDN 0\nJUMP step";
    let program = compile_src(src).unwrap();
    let input = vec![Tile::num(2)];
    let mut m = Machine::new(program, input, hrm::machine::Registers::new());
    assert_eq!(m.run(), Ok(()));
    assert_eq!(
        m.into_output(),
        vec![Tile::num(2), Tile::num(1), Tile::num(0)]
    );
}

use hrm::compiler::{Error as CompileError, Program};
use hrm::machine::Instruction;
use hrm::parser::{Error as LexError, Parser, Register, Token};

type LexFailure = (usize, Vec<LexError>);

fn lex(src: &str) -> Vec<Result<Token, LexFailure>> {
    let mut p = Parser::new(src);
    let mut out = Vec::new();
    while let Some(r) = p.next() {
        let failed = r.is_err();
        out.push(r);
        if failed {
            break;
        }
    }
    out
}

fn compile_src(src: &str) -> Result<Program, CompileError<LexFailure>> {
    Program::compile(lex(src))
}

#[test]
fn compiles_inbox_outbox() {
    let p = compile_src("-- HUMAN RESOURCE MACHINE PROGRAM --\nINBOX\nOUTBOX").unwrap();
    assert_eq!(p.0, vec![Instruction::Inbox, Instruction::Outbox]);
}

#[test]
fn header_comments_and_whitespace_are_filtered() {
    let src = "-- HUMAN RESOURCE MACHINE PROGRAM --\nCOMMENT 1\nDEFINE COMMENT 1 x;\nINBOX\n";
    let p = compile_src(src).unwrap();
    assert_eq!(p.0, vec![Instruction::Inbox]);
}

#[test]
fn label_definition_compiles_to_noop_in_place() {
    let p = compile_src("INBOX\na:\nOUTBOX").unwrap();
    assert_eq!(
        p.0,
        vec![Instruction::Inbox, Instruction::NoOp, Instruction::Outbox]
    );
}

#[test]
fn jump_resolves_to_label_index() {
    let p = compile_src("a:\nINBOX\nOUTBOX\nJUMP a").unwrap();
    assert_eq!(
        p.0,
        vec![
            Instruction::NoOp,
            Instruction::Inbox,
            Instruction::Outbox,
            Instruction::Jump(0),
        ]
    );
}

#[test]
fn forward_reference_resolves() {
    let p = compile_src("JUMPZ end\nINBOX\nend:").unwrap();
    assert_eq!(
        p.0,
        vec![
            Instruction::JumpIfZero(2),
            Instruction::Inbox,
            Instruction::NoOp,
        ]
    );
}

#[test]
fn later_definition_of_a_label_wins() {
    // Scenario: two labels both named loop; the jump resolves to the
    // second (last) definition's slot.
    let p = compile_src("loop:\nloop:\nJUMP loop").unwrap();
    assert_eq!(
        p.0,
        vec![Instruction::NoOp, Instruction::NoOp, Instruction::Jump(1)]
    );
}

#[test]
fn undefined_label_fails_compilation() {
    match compile_src("JUMP nowhere") {
        Err(CompileError::UndefinedLabel) => {}
        other => panic!("expected UndefinedLabel, got {:?}", other),
    }
}

#[test]
fn undefined_jumpn_label_fails_compilation() {
    match compile_src("INBOX\nJUMPN gone") {
        Err(CompileError::UndefinedLabel) => {}
        other => panic!("expected UndefinedLabel, got {:?}", other),
    }
}

#[test]
fn lex_failure_is_reported_as_parser_error() {
    match compile_src("INBOX\n@@@") {
        Err(CompileError::ParserError((offset, errors))) => {
            assert_eq!(offset, 6);
            assert_eq!(errors.len(), 17);
        }
        other => panic!("expected ParserError, got {:?}", other),
    }
}

#[test]
fn registers_survive_lowering() {
    let p = compile_src("COPYFROM [14]\nCOPYTO 3").unwrap();
    assert_eq!(
        p.0,
        vec![
            Instruction::CopyFrom(Register::Indirect(14)),
            Instruction::CopyTo(Register::Direct(3)),
        ]
    );
}

#[test]
fn stats_len_counts_real_instructions_only() {
    let p = compile_src("a:\nINBOX\nOUTBOX\nJUMP a").unwrap();
    assert_eq!(p.stats_len(), 3);
}

#[test]
fn stats_len_of_labels_only_is_zero() {
    let p = compile_src("a:\nb:").unwrap();
    assert_eq!(p.stats_len(), 0);
}

#[test]
fn compiling_twice_yields_identical_programs() {
    let src = "-- HUMAN RESOURCE MACHINE PROGRAM --\nINBOX\nCOPYTO 0\nADD 0\nOUTBOX";
    let first = compile_src(src).unwrap();
    let second = compile_src(src).unwrap();
    assert_eq!(first.0, second.0);
}

#[test]
fn empty_source_compiles_to_empty_program() {
    let p = compile_src("").unwrap();
    assert_eq!(p.0, vec![]);
}

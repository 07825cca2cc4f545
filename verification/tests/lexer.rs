use hrm::parser::{Error, Parser, Register, Token};

fn chars(s: &str) -> Vec<char> {
    s.chars().collect()
}

fn tokens_of(src: &str) -> Vec<Token> {
    let mut p = Parser::new(src);
    let mut out = Vec::new();
    while let Some(r) = p.next() {
        out.push(r.expect("lexing failed"));
    }
    out
}

fn first_failure(src: &str) -> (usize, Vec<Error>) {
    let mut p = Parser::new(src);
    match p.next() {
        Some(Err(f)) => f,
        other => panic!("expected a lex failure, got {:?}", other),
    }
}

#[test]
fn lexes_inbox() {
    assert_eq!(tokens_of("INBOX"), vec![Token::Inbox]);
}

#[test]
fn lexes_outbox() {
    assert_eq!(tokens_of("OUTBOX"), vec![Token::Outbox]);
}

#[test]
fn lexes_header() {
    assert_eq!(
        tokens_of("-- HUMAN RESOURCE MACHINE PROGRAM --"),
        vec![Token::Header]
    );
}

#[test]
fn lexes_program_with_whitespace_tokens() {
    assert_eq!(
        tokens_of("INBOX\nOUTBOX"),
        vec![Token::Inbox, Token::Whitespace(chars("\n")), Token::Outbox]
    );
}

#[test]
fn lexes_direct_register_instruction() {
    assert_eq!(tokens_of("ADD 7"), vec![Token::Add(Register::Direct(7))]);
}

#[test]
fn lexes_indirect_register_instruction() {
    assert_eq!(
        tokens_of("COPYFROM [24]"),
        vec![Token::CopyFrom(Register::Indirect(24))]
    );
}

#[test]
fn lexes_copyto_and_bumps() {
    assert_eq!(
        tokens_of("COPYTO 0"),
        vec![Token::CopyTo(Register::Direct(0))]
    );
    assert_eq!(
        tokens_of("BUMPUP 3"),
        vec![Token::BumpUp(Register::Direct(3))]
    );
    assert_eq!(
        tokens_of("BUMPDN 3"),
        vec![Token::BumpDown(Register::Direct(3))]
    );
    assert_eq!(tokens_of("SUB [2]"), vec![Token::Sub(Register::Indirect(2))]);
}

#[test]
fn lexes_label_definition() {
    assert_eq!(
        tokens_of("loop:"),
        vec![Token::LabelDefinition(chars("loop"))]
    );
}

#[test]
fn lexes_jump_family_by_backtracking() {
    // JUMPZ begins with the literal JUMP; the JUMP production fails on the
    // missing whitespace and the alternation then retries from the same
    // offset with the JUMPZ production.
    assert_eq!(tokens_of("JUMP loop"), vec![Token::Jump(chars("loop"))]);
    assert_eq!(
        tokens_of("JUMPZ loop"),
        vec![Token::JumpIfZero(chars("loop"))]
    );
    assert_eq!(
        tokens_of("JUMPN loop"),
        vec![Token::JumpIfNegative(chars("loop"))]
    );
}

#[test]
fn lexes_comment_reference() {
    assert_eq!(tokens_of("COMMENT 12"), vec![Token::Comment(chars("12"))]);
}

#[test]
fn lexes_comment_definition() {
    assert_eq!(
        tokens_of("DEFINE COMMENT 1 blob;"),
        vec![Token::CommentDefinition(chars("1"), chars("blob"))]
    );
}

#[test]
fn lexes_register_label_definition_as_comment_definition() {
    assert_eq!(
        tokens_of("DEFINE LABEL 2 x;"),
        vec![Token::CommentDefinition(chars("2"), chars("x"))]
    );
}

#[test]
fn empty_source_yields_no_token() {
    let mut p = Parser::new("");
    assert!(p.next().is_none());
}

#[test]
fn failure_reports_every_production() {
    let (offset, errors) = first_failure("@");
    assert_eq!(offset, 0);
    assert_eq!(errors.len(), 17);
    assert_eq!(errors[0], Error::ExpectedHeader);
    assert_eq!(errors[1], Error::ExpectedInbox);
    assert_eq!(errors[16], Error::ExpectedWhiteSpace);
}

#[test]
fn failure_keeps_the_offset() {
    let mut p = Parser::new("INBOX@");
    assert_eq!(p.next(), Some(Ok(Token::Inbox)));
    match p.next() {
        Some(Err((offset, _))) => assert_eq!(offset, 5),
        other => panic!("expected a lex failure, got {:?}", other),
    }
}

#[test]
fn register_numeral_over_255_is_rejected() {
    // A numeral that cannot name one of the 256 registers fails the
    // register production instead of aborting.
    let (_, errors) = first_failure("COPYFROM 999");
    assert_eq!(errors[3], Error::ExpectedRegisterValue);
}

#[test]
fn register_numeral_255_is_accepted() {
    assert_eq!(
        tokens_of("COPYFROM 255"),
        vec![Token::CopyFrom(Register::Direct(255))]
    );
}

#[test]
fn register_numeral_with_leading_zeros() {
    assert_eq!(
        tokens_of("COPYFROM 007"),
        vec![Token::CopyFrom(Register::Direct(7))]
    );
}

#[test]
fn jump_to_numeric_label_fails() {
    let (_, errors) = first_failure("JUMP 9");
    assert_eq!(errors[10], Error::ExpectedLabelValue);
}

#[test]
fn unterminated_comment_definition_fails() {
    let (_, errors) = first_failure("DEFINE COMMENT 1 blob");
    assert_eq!(errors[14], Error::ExpectedCommentDefinitionEnd);
}

//! Tokens of the assembly language and the lexer that produces them.
//!
//! The lexer tries a fixed, ordered list of grammar productions, each
//! starting from the same offset; the first production that fully succeeds
//! yields the next token, and a production that fails part-way consumes
//! nothing. When every production fails, lexing stops at that offset with
//! the failure reason of each attempted production.

use vstd::prelude::*;

verus! {

use vstd::std_specs::iter::IteratorSpec;

/// One failure reason per grammar production (or part of one) that can
/// reject the input during a lexing step.
#[derive(Debug, Copy, Clone, PartialEq, Eq)]
pub enum Error {
    ExpectedHeader,
    ExpectedInbox,
    ExpectedOutbox,
    ExpectedCopyFrom,
    ExpectedCopyTo,
    ExpectedBumpUp,
    ExpectedBumpDown,
    ExpectedAdd,
    ExpectedSub,
    ExpectedIndirectRegister,
    ExpectedIndirectRegisterEnd,
    ExpectedRegisterValue,
    ExpectedLabelDefinition,
    ExpectedLabelValue,
    ExpectedJump,
    ExpectedJumpIfZero,
    ExpectedJumpIfNegative,
    ExpectedWhiteSpace,
    ExpectedComment,
    ExpectedCommentId,
    ExpectedCommentDefinition,
    ExpectedCommentDefinitionData,
    ExpectedCommentDefinitionEnd,
    ExpectedRegisterLabelDefinition,
    ExpectedRegisterLabelId,
    ExpectedRegisterLabelDefinitionData,
    ExpectedRegisterLabelDefinitionEnd,
    ExpectedColon,
}

/// A register operand: either the register itself (`Direct`), or a register
/// whose stored number names the actual target register (`Indirect`).
#[derive(Debug, Copy, Clone, PartialEq, Eq)]
pub enum Register {
    Direct(u8),
    Indirect(u8),
}

/// One token of the source text. Label names, comment ids, comment data and
/// whitespace runs carry the characters they were lexed from.
#[derive(Debug, Clone, PartialEq, Eq)]
pub enum Token {
    Header,
    Inbox,
    Outbox,
    CopyFrom(Register),
    CopyTo(Register),
    BumpUp(Register),
    BumpDown(Register),
    Add(Register),
    Sub(Register),
    LabelDefinition(Vec<char>),
    Jump(Vec<char>),
    JumpIfZero(Vec<char>),
    JumpIfNegative(Vec<char>),
    Comment(Vec<char>),
    CommentDefinition(Vec<char>, Vec<char>),
    Whitespace(Vec<char>),
}

/// The mathematical value of a `Token`: the same tag with every character
/// payload abstracted to a sequence of characters.
pub ghost enum TokenV {
    Header,
    Inbox,
    Outbox,
    CopyFrom(Register),
    CopyTo(Register),
    BumpUp(Register),
    BumpDown(Register),
    Add(Register),
    Sub(Register),
    LabelDefinition(Seq<char>),
    Jump(Seq<char>),
    JumpIfZero(Seq<char>),
    JumpIfNegative(Seq<char>),
    Comment(Seq<char>),
    CommentDefinition(Seq<char>, Seq<char>),
    Whitespace(Seq<char>),
}

impl View for Token {
    type V = TokenV;

    open spec fn view(&self) -> TokenV {
        match self {
            Token::Header => TokenV::Header,
            Token::Inbox => TokenV::Inbox,
            Token::Outbox => TokenV::Outbox,
            Token::CopyFrom(r) => TokenV::CopyFrom(*r),
            Token::CopyTo(r) => TokenV::CopyTo(*r),
            Token::BumpUp(r) => TokenV::BumpUp(*r),
            Token::BumpDown(r) => TokenV::BumpDown(*r),
            Token::Add(r) => TokenV::Add(*r),
            Token::Sub(r) => TokenV::Sub(*r),
            Token::LabelDefinition(l) => TokenV::LabelDefinition(l@),
            Token::Jump(l) => TokenV::Jump(l@),
            Token::JumpIfZero(l) => TokenV::JumpIfZero(l@),
            Token::JumpIfNegative(l) => TokenV::JumpIfNegative(l@),
            Token::Comment(i) => TokenV::Comment(i@),
            Token::CommentDefinition(i, d) => TokenV::CommentDefinition(i@, d@),
            Token::Whitespace(w) => TokenV::Whitespace(w@),
        }
    }
}

/// A decimal digit.
pub open spec fn is_digit(c: char) -> bool {
    '0' <= c <= '9'
}

/// A character a label name may consist of: a lowercase ASCII letter.
pub open spec fn is_label_char(c: char) -> bool {
    'a' <= c <= 'z'
}

/// A whitespace character: exactly the characters with the Unicode
/// `White_Space` property.
pub open spec fn is_space(c: char) -> bool {
    ||| c == ' '
    ||| c == '\t'
    ||| c == '\n'
    ||| c == '\u{b}'
    ||| c == '\u{c}'
    ||| c == '\r'
    ||| c == '\u{85}'
    ||| c == '\u{a0}'
    ||| c == '\u{1680}'
    ||| ('\u{2000}' <= c <= '\u{200a}')
    ||| c == '\u{2028}'
    ||| c == '\u{2029}'
    ||| c == '\u{202f}'
    ||| c == '\u{205f}'
    ||| c == '\u{3000}'
}

/// A character allowed inside comment-definition data: anything up to the
/// terminating semicolon.
pub open spec fn is_data_char(c: char) -> bool {
    c != ';'
}

/// True when the characters of `lit` stand in `s` at offset `at`.
pub open spec fn match_at(s: Seq<char>, at: int, lit: Seq<char>) -> bool {
    at + lit.len() <= s.len() && s.subrange(at, at + lit.len()) == lit
}

/// The end of the maximal run of decimal digits starting at `at`.
pub open spec fn digit_run_end(s: Seq<char>, at: int) -> int
    decreases s.len() - at,
{
    if 0 <= at < s.len() && is_digit(s[at]) {
        digit_run_end(s, at + 1)
    } else {
        at
    }
}

/// The end of the maximal run of label characters starting at `at`.
pub open spec fn label_run_end(s: Seq<char>, at: int) -> int
    decreases s.len() - at,
{
    if 0 <= at < s.len() && is_label_char(s[at]) {
        label_run_end(s, at + 1)
    } else {
        at
    }
}

/// The end of the maximal run of whitespace starting at `at`.
pub open spec fn space_run_end(s: Seq<char>, at: int) -> int
    decreases s.len() - at,
{
    if 0 <= at < s.len() && is_space(s[at]) {
        space_run_end(s, at + 1)
    } else {
        at
    }
}

/// The end of the maximal run of comment data starting at `at`.
pub open spec fn data_run_end(s: Seq<char>, at: int) -> int
    decreases s.len() - at,
{
    if 0 <= at < s.len() && is_data_char(s[at]) {
        data_run_end(s, at + 1)
    } else {
        at
    }
}

/// A run of digits read as a decimal numeral (most significant digit
/// first).
pub open spec fn digits_val(s: Seq<char>, at: int, end: int) -> int
    decreases end - at,
{
    if at >= end {
        0
    } else {
        digits_val(s, at, end - 1) * 10 + (s[end - 1] as int - '0' as int)
    }
}

/// The characters of `s`, one by one.
pub(crate) fn chars_of(s: &str) -> (v: Vec<char>)
    ensures
        v@ == s@,
{
    broadcast use vstd::string::axiom_spec_iter;
    broadcast use vstd::string::next_postcondition;

    let mut it = s.chars();
    let mut v: Vec<char> = Vec::new();
    proof {
        assert(it.remaining() == s@);
        assert(v@ =~= s@.take(0));
    }
    loop
        invariant_except_break
            it.obeys_prophetic_iter_laws(),
            v@.len() <= s@.len(),
            v@ == s@.take(v@.len() as int),
            it.remaining() == s@.skip(v@.len() as int),
        ensures
            v@ == s@,
        decreases s@.len() - v@.len(),
    {
        let ghost k = v@.len() as int;
        match it.next() {
            Some(c) => {
                v.push(c);
                proof {
                    assert(s@.skip(k)[0] == s@[k]);
                    assert(v@ =~= s@.take(k + 1));
                    assert(s@.skip(k).drop_first() =~= s@.skip(k + 1));
                }
            },
            None => {
                proof {
                    assert(s@.skip(k).len() == 0);
                    assert(v@ =~= s@);
                }
                break;
            },
        }
    }
    v
}

/// Whether the characters of `lit` stand in `s` at offset `at`.
fn match_lit(s: &Vec<char>, at: usize, lit: &Vec<char>) -> (r: bool)
    requires
        at <= s@.len(),
    ensures
        r == match_at(s@, at as int, lit@),
{
    if lit.len() > s.len() - at {
        return false;
    }
    let mut k: usize = 0;
    while k < lit.len()
        invariant
            k <= lit@.len(),
            at + lit@.len() <= s@.len(),
            s@.len() <= usize::MAX,
            forall|j: int| 0 <= j < k ==> s@[at + j] == lit@[j],
        decreases lit@.len() - k,
    {
        if s[at + k] != lit[k] {
            proof {
                assert(s@.subrange(at as int, at + lit@.len())[k as int] != lit@[k as int]);
            }
            return false;
        }
        k = k + 1;
    }
    proof {
        assert(s@.subrange(at as int, at + lit@.len()) =~= lit@);
    }
    true
}

/// The characters of `s` from `from` up to `to`, as a fresh vector.
fn slice_chars(s: &Vec<char>, from: usize, to: usize) -> (r: Vec<char>)
    requires
        from <= to <= s@.len(),
    ensures
        r@ == s@.subrange(from as int, to as int),
{
    let mut r: Vec<char> = Vec::new();
    let mut k: usize = from;
    while k < to
        invariant
            from <= k <= to <= s@.len(),
            r@ == s@.subrange(from as int, k as int),
        decreases to - k,
    {
        r.push(s[k]);
        proof {
            assert(r@ =~= s@.subrange(from as int, k + 1));
        }
        k = k + 1;
    }
    r
}

/// Every character of a digit run is a digit, and the run stays inside the
/// text and ends where a digit run ends: at the text's end or at the first
/// character that is no digit.
proof fn lemma_digit_run(s: Seq<char>, at: int)
    requires
        0 <= at <= s.len(),
    ensures
        at <= digit_run_end(s, at) <= s.len(),
        forall|k: int| at <= k < digit_run_end(s, at) ==> is_digit(s[k]),
    decreases s.len() - at,
{
    if at < s.len() && is_digit(s[at]) {
        lemma_digit_run(s, at + 1);
    }
}

fn exec_is_digit(c: char) -> (r: bool)
    ensures
        r == is_digit(c),
{
    '0' <= c && c <= '9'
}

fn exec_is_label_char(c: char) -> (r: bool)
    ensures
        r == is_label_char(c),
{
    'a' <= c && c <= 'z'
}

fn exec_is_space(c: char) -> (r: bool)
    ensures
        r == is_space(c),
{
    c == ' ' || c == '\t' || c == '\n' || c == '\u{b}' || c == '\u{c}' || c == '\r'
        || c == '\u{85}' || c == '\u{a0}' || c == '\u{1680}' || ('\u{2000}' <= c && c
        <= '\u{200a}') || c == '\u{2028}' || c == '\u{2029}' || c == '\u{202f}' || c == '\u{205f}'
        || c == '\u{3000}'
}

fn exec_is_data_char(c: char) -> (r: bool)
    ensures
        r == is_data_char(c),
{
    c != ';'
}

fn find_digit_run_end(s: &Vec<char>, at: usize) -> (r: usize)
    requires
        at <= s@.len(),
    ensures
        r == digit_run_end(s@, at as int),
        at <= r <= s@.len(),
{
    let mut i: usize = at;
    while i < s.len() && exec_is_digit(s[i])
        invariant
            at <= i <= s@.len(),
            digit_run_end(s@, at as int) == digit_run_end(s@, i as int),
        decreases s@.len() - i,
    {
        i = i + 1;
    }
    i
}

fn find_label_run_end(s: &Vec<char>, at: usize) -> (r: usize)
    requires
        at <= s@.len(),
    ensures
        r == label_run_end(s@, at as int),
        at <= r <= s@.len(),
{
    let mut i: usize = at;
    while i < s.len() && exec_is_label_char(s[i])
        invariant
            at <= i <= s@.len(),
            label_run_end(s@, at as int) == label_run_end(s@, i as int),
        decreases s@.len() - i,
    {
        i = i + 1;
    }
    i
}

fn find_space_run_end(s: &Vec<char>, at: usize) -> (r: usize)
    requires
        at <= s@.len(),
    ensures
        r == space_run_end(s@, at as int),
        at <= r <= s@.len(),
{
    let mut i: usize = at;
    while i < s.len() && exec_is_space(s[i])
        invariant
            at <= i <= s@.len(),
            space_run_end(s@, at as int) == space_run_end(s@, i as int),
        decreases s@.len() - i,
    {
        i = i + 1;
    }
    i
}

fn find_data_run_end(s: &Vec<char>, at: usize) -> (r: usize)
    requires
        at <= s@.len(),
    ensures
        r == data_run_end(s@, at as int),
        at <= r <= s@.len(),
{
    let mut i: usize = at;
    while i < s.len() && exec_is_data_char(s[i])
        invariant
            at <= i <= s@.len(),
            data_run_end(s@, at as int) == data_run_end(s@, i as int),
        decreases s@.len() - i,
    {
        i = i + 1;
    }
    i
}

/// What a production that matches a bare literal yields: its token, right
/// after the literal.
pub open spec fn lex_literal_token(
    s: Seq<char>,
    at: int,
    lit: Seq<char>,
    t: TokenV,
    e: Error,
) -> Result<(TokenV, int), Error> {
    if match_at(s, at, lit) {
        Ok((t, at + lit.len()))
    } else {
        Err(e)
    }
}

/// The header production: the fixed program header literal.
pub open spec fn lex_header(s: Seq<char>, at: int) -> Result<(TokenV, int), Error> {
    lex_literal_token(
        s,
        at,
        "-- HUMAN RESOURCE MACHINE PROGRAM --"@,
        TokenV::Header,
        Error::ExpectedHeader,
    )
}

pub open spec fn lex_inbox(s: Seq<char>, at: int) -> Result<(TokenV, int), Error> {
    lex_literal_token(s, at, "INBOX"@, TokenV::Inbox, Error::ExpectedInbox)
}

pub open spec fn lex_outbox(s: Seq<char>, at: int) -> Result<(TokenV, int), Error> {
    lex_literal_token(s, at, "OUTBOX"@, TokenV::Outbox, Error::ExpectedOutbox)
}

/// The whitespace production: a non-empty maximal run of whitespace,
/// kept as a token of its own (whitespace is never skipped implicitly).
pub open spec fn lex_whitespace(s: Seq<char>, at: int) -> Result<(TokenV, int), Error> {
    let end = space_run_end(s, at);
    if end > at {
        Ok((TokenV::Whitespace(s.subrange(at, end)), end))
    } else {
        Err(Error::ExpectedWhiteSpace)
    }
}

/// A register numeral: a non-empty maximal digit run whose value names one
/// of the 256 registers; a numeral over 255 is rejected as no register
/// value.
pub open spec fn lex_register_value(s: Seq<char>, at: int) -> Result<(int, int), Error> {
    let end = digit_run_end(s, at);
    if end == at {
        Err(Error::ExpectedRegisterValue)
    } else if digits_val(s, at, end) > 255 {
        Err(Error::ExpectedRegisterValue)
    } else {
        Ok((digits_val(s, at, end), end))
    }
}

/// An indirect register operand: a register numeral between brackets.
pub open spec fn lex_register_indirect(s: Seq<char>, at: int) -> Result<(Register, int), Error> {
    if !match_at(s, at, "["@) {
        Err(Error::ExpectedIndirectRegister)
    } else {
        match lex_register_value(s, at + 1) {
            Err(e) => Err(e),
            Ok((v, mid)) => {
                if match_at(s, mid, "]"@) {
                    Ok((Register::Indirect(v as u8), mid + 1))
                } else {
                    Err(Error::ExpectedIndirectRegisterEnd)
                }
            },
        }
    }
}

/// A register operand: the indirect form is tried first, then the direct
/// numeral, each from the same offset; when both fail, the direct form's
/// failure is reported.
pub open spec fn lex_register(s: Seq<char>, at: int) -> Result<(Register, int), Error> {
    match lex_register_indirect(s, at) {
        Ok(r) => Ok(r),
        Err(_) => match lex_register_value(s, at) {
            Ok((v, end)) => Ok((Register::Direct(v as u8), end)),
            Err(e) => Err(e),
        },
    }
}

/// The common tail of the register instructions: the mnemonic, whitespace,
/// then a register operand; failing anywhere fails the whole production
/// with no consumption.
pub open spec fn lex_reg_tail(s: Seq<char>, at: int, lit: Seq<char>, e: Error) -> Result<
    (Register, int),
    Error,
> {
    if !match_at(s, at, lit) {
        Err(e)
    } else {
        match lex_whitespace(s, at + lit.len()) {
            Err(we) => Err(we),
            Ok((_, a2)) => lex_register(s, a2),
        }
    }
}

pub open spec fn lex_copy_from(s: Seq<char>, at: int) -> Result<(TokenV, int), Error> {
    match lex_reg_tail(s, at, "COPYFROM"@, Error::ExpectedCopyFrom) {
        Ok((r, np)) => Ok((TokenV::CopyFrom(r), np)),
        Err(e) => Err(e),
    }
}

pub open spec fn lex_copy_to(s: Seq<char>, at: int) -> Result<(TokenV, int), Error> {
    match lex_reg_tail(s, at, "COPYTO"@, Error::ExpectedCopyTo) {
        Ok((r, np)) => Ok((TokenV::CopyTo(r), np)),
        Err(e) => Err(e),
    }
}

pub open spec fn lex_bump_up(s: Seq<char>, at: int) -> Result<(TokenV, int), Error> {
    match lex_reg_tail(s, at, "BUMPUP"@, Error::ExpectedBumpUp) {
        Ok((r, np)) => Ok((TokenV::BumpUp(r), np)),
        Err(e) => Err(e),
    }
}

pub open spec fn lex_bump_down(s: Seq<char>, at: int) -> Result<(TokenV, int), Error> {
    match lex_reg_tail(s, at, "BUMPDN"@, Error::ExpectedBumpDown) {
        Ok((r, np)) => Ok((TokenV::BumpDown(r), np)),
        Err(e) => Err(e),
    }
}

pub open spec fn lex_add(s: Seq<char>, at: int) -> Result<(TokenV, int), Error> {
    match lex_reg_tail(s, at, "ADD"@, Error::ExpectedAdd) {
        Ok((r, np)) => Ok((TokenV::Add(r), np)),
        Err(e) => Err(e),
    }
}

pub open spec fn lex_sub(s: Seq<char>, at: int) -> Result<(TokenV, int), Error> {
    match lex_reg_tail(s, at, "SUB"@, Error::ExpectedSub) {
        Ok((r, np)) => Ok((TokenV::Sub(r), np)),
        Err(e) => Err(e),
    }
}

/// A label name: a non-empty maximal run of lowercase letters.
pub open spec fn lex_label_value(s: Seq<char>, at: int) -> Result<(Seq<char>, int), Error> {
    let end = label_run_end(s, at);
    if end > at {
        Ok((s.subrange(at, end), end))
    } else {
        Err(Error::ExpectedLabelValue)
    }
}

/// A label definition: a label name followed by a colon.
pub open spec fn lex_label_definition(s: Seq<char>, at: int) -> Result<(TokenV, int), Error> {
    match lex_label_value(s, at) {
        Err(_) => Err(Error::ExpectedLabelDefinition),
        Ok((name, a1)) => {
            if match_at(s, a1, ":"@) {
                Ok((TokenV::LabelDefinition(name), a1 + 1))
            } else {
                Err(Error::ExpectedColon)
            }
        },
    }
}

/// The common tail of the jump instructions: the mnemonic, whitespace,
/// then a label name.
pub open spec fn lex_jump_tail(s: Seq<char>, at: int, lit: Seq<char>, e: Error) -> Result<
    (Seq<char>, int),
    Error,
> {
    if !match_at(s, at, lit) {
        Err(e)
    } else {
        match lex_whitespace(s, at + lit.len()) {
            Err(we) => Err(we),
            Ok((_, a2)) => lex_label_value(s, a2),
        }
    }
}

pub open spec fn lex_jump(s: Seq<char>, at: int) -> Result<(TokenV, int), Error> {
    match lex_jump_tail(s, at, "JUMP"@, Error::ExpectedJump) {
        Ok((name, np)) => Ok((TokenV::Jump(name), np)),
        Err(e) => Err(e),
    }
}

pub open spec fn lex_jump_if_zero(s: Seq<char>, at: int) -> Result<(TokenV, int), Error> {
    match lex_jump_tail(s, at, "JUMPZ"@, Error::ExpectedJumpIfZero) {
        Ok((name, np)) => Ok((TokenV::JumpIfZero(name), np)),
        Err(e) => Err(e),
    }
}

pub open spec fn lex_jump_if_negative(s: Seq<char>, at: int) -> Result<(TokenV, int), Error> {
    match lex_jump_tail(s, at, "JUMPN"@, Error::ExpectedJumpIfNegative) {
        Ok((name, np)) => Ok((TokenV::JumpIfNegative(name), np)),
        Err(e) => Err(e),
    }
}

/// A comment id: a non-empty maximal digit run, kept as its characters.
pub open spec fn lex_digit_run(s: Seq<char>, at: int, e: Error) -> Result<(Seq<char>, int), Error> {
    let end = digit_run_end(s, at);
    if end > at {
        Ok((s.subrange(at, end), end))
    } else {
        Err(e)
    }
}

/// Comment-definition data: a non-empty maximal run of characters up to
/// the terminating semicolon.
pub open spec fn lex_data_run(s: Seq<char>, at: int, e: Error) -> Result<(Seq<char>, int), Error> {
    let end = data_run_end(s, at);
    if end > at {
        Ok((s.subrange(at, end), end))
    } else {
        Err(e)
    }
}

/// A comment reference: the mnemonic, whitespace, then a comment id.
pub open spec fn lex_comment(s: Seq<char>, at: int) -> Result<(TokenV, int), Error> {
    if !match_at(s, at, "COMMENT"@) {
        Err(Error::ExpectedComment)
    } else {
        match lex_whitespace(s, at + "COMMENT"@.len()) {
            Err(we) => Err(we),
            Ok((_, a2)) => match lex_digit_run(s, a2, Error::ExpectedCommentId) {
                Err(e) => Err(e),
                Ok((id, a3)) => Ok((TokenV::Comment(id), a3)),
            },
        }
    }
}

/// A comment definition: its literal, whitespace, a comment id,
/// whitespace, the data, and the terminating semicolon.
pub open spec fn lex_comment_definition(s: Seq<char>, at: int) -> Result<(TokenV, int), Error> {
    if !match_at(s, at, "DEFINE COMMENT"@) {
        Err(Error::ExpectedCommentDefinition)
    } else {
        match lex_whitespace(s, at + "DEFINE COMMENT"@.len()) {
            Err(we) => Err(we),
            Ok((_, a2)) => match lex_digit_run(s, a2, Error::ExpectedCommentId) {
                Err(e) => Err(e),
                Ok((id, a3)) => match lex_whitespace(s, a3) {
                    Err(we) => Err(we),
                    Ok((_, a4)) => match lex_data_run(
                        s,
                        a4,
                        Error::ExpectedCommentDefinitionData,
                    ) {
                        Err(e) => Err(e),
                        Ok((data, a5)) => {
                            if match_at(s, a5, ";"@) {
                                Ok((TokenV::CommentDefinition(id, data), a5 + 1))
                            } else {
                                Err(Error::ExpectedCommentDefinitionEnd)
                            }
                        },
                    },
                },
            },
        }
    }
}

/// A register-label definition: like a comment definition under its own
/// literal and failure reasons; it yields the same token kind, carrying
/// the id and the data.
pub open spec fn lex_register_label_definition(s: Seq<char>, at: int) -> Result<
    (TokenV, int),
    Error,
> {
    if !match_at(s, at, "DEFINE LABEL"@) {
        Err(Error::ExpectedRegisterLabelDefinition)
    } else {
        match lex_whitespace(s, at + "DEFINE LABEL"@.len()) {
            Err(we) => Err(we),
            Ok((_, a2)) => match lex_digit_run(s, a2, Error::ExpectedRegisterLabelId) {
                Err(e) => Err(e),
                Ok((id, a3)) => match lex_whitespace(s, a3) {
                    Err(we) => Err(we),
                    Ok((_, a4)) => match lex_data_run(
                        s,
                        a4,
                        Error::ExpectedRegisterLabelDefinitionData,
                    ) {
                        Err(e) => Err(e),
                        Ok((data, a5)) => {
                            if match_at(s, a5, ";"@) {
                                Ok((TokenV::CommentDefinition(id, data), a5 + 1))
                            } else {
                                Err(Error::ExpectedRegisterLabelDefinitionEnd)
                            }
                        },
                    },
                },
            },
        }
    }
}

/// One lexing step: the productions are tried in their fixed order, each
/// from the same offset; the first that succeeds yields the token and the
/// new offset, and when every one fails the step fails with each
/// production's reason, in order.
pub open spec fn lex_step(s: Seq<char>, at: int) -> Result<(TokenV, int), Seq<Error>> {
    match lex_header(s, at) {
        Ok(r) => Ok(r),
        Err(e1) => match lex_inbox(s, at) {
            Ok(r) => Ok(r),
            Err(e2) => match lex_outbox(s, at) {
                Ok(r) => Ok(r),
                Err(e3) => match lex_copy_from(s, at) {
                    Ok(r) => Ok(r),
                    Err(e4) => match lex_copy_to(s, at) {
                        Ok(r) => Ok(r),
                        Err(e5) => match lex_bump_up(s, at) {
                            Ok(r) => Ok(r),
                            Err(e6) => match lex_bump_down(s, at) {
                                Ok(r) => Ok(r),
                                Err(e7) => match lex_add(s, at) {
                                    Ok(r) => Ok(r),
                                    Err(e8) => match lex_sub(s, at) {
                                        Ok(r) => Ok(r),
                                        Err(e9) => match lex_label_definition(s, at) {
                                            Ok(r) => Ok(r),
                                            Err(e10) => match lex_jump(s, at) {
                                                Ok(r) => Ok(r),
                                                Err(e11) => match lex_jump_if_zero(s, at) {
                                                    Ok(r) => Ok(r),
                                                    Err(e12) => match lex_jump_if_negative(
                                                        s,
                                                        at,
                                                    ) {
                                                        Ok(r) => Ok(r),
                                                        Err(e13) => match lex_comment(s, at) {
                                                            Ok(r) => Ok(r),
                                                            Err(e14) => match lex_comment_definition(
                                                                s,
                                                                at,
                                                            ) {
                                                                Ok(r) => Ok(r),
                                                                Err(e15) => match lex_register_label_definition(
                                                                    s,
                                                                    at,
                                                                ) {
                                                                    Ok(r) => Ok(r),
                                                                    Err(e16) => match lex_whitespace(
                                                                        s,
                                                                        at,
                                                                    ) {
                                                                        Ok(r) => Ok(r),
                                                                        Err(e17) => Err(
                                                                            seq![
                                                                                e1,
                                                                                e2,
                                                                                e3,
                                                                                e4,
                                                                                e5,
                                                                                e6,
                                                                                e7,
                                                                                e8,
                                                                                e9,
                                                                                e10,
                                                                                e11,
                                                                                e12,
                                                                                e13,
                                                                                e14,
                                                                                e15,
                                                                                e16,
                                                                                e17,
                                                                            ],
                                                                        ),
                                                                    },
                                                                },
                                                            },
                                                        },
                                                    },
                                                },
                                            },
                                        },
                                    },
                                },
                            },
                        },
                    },
                },
            },
        },
    }
}

/// What one call of `Parser::next` yields: nothing once the text is
/// exhausted; otherwise the lexing step's token and new offset, or the
/// offset the step failed at together with every production's failure
/// reason.
pub open spec fn next_spec(s: Seq<char>, at: int) -> Option<
    Result<(TokenV, int), (int, Seq<Error>)>,
> {
    if at >= s.len() {
        None
    } else {
        match lex_step(s, at) {
            Ok(r) => Some(Ok(r)),
            Err(es) => Some(Err((at, es))),
        }
    }
}

/// Read the digit run `[at, end)` as a decimal number, or `None` when the
/// numeral exceeds 255 and so cannot name a register.
fn digits_to_u8(s: &Vec<char>, at: usize, end: usize) -> (r: Option<u8>)
    requires
        at <= end <= s@.len(),
        forall|k: int| at <= k < end ==> is_digit(s@[k]),
    ensures
        match r {
            Some(v) => digits_val(s@, at as int, end as int) == v as int,
            None => digits_val(s@, at as int, end as int) > 255,
        },
{
    let mut v: u32 = 0;
    let mut i: usize = at;
    while i < end
        invariant
            at <= i <= end <= s@.len(),
            forall|k: int| at <= k < end ==> is_digit(s@[k]),
            digits_val(s@, at as int, i as int) <= 255 ==> v == digits_val(
                s@,
                at as int,
                i as int,
            ),
            digits_val(s@, at as int, i as int) > 255 ==> v == 256,
            v <= 256,
            digits_val(s@, at as int, i as int) >= 0,
        decreases end - i,
    {
        let c = s[i];
        let d: u32 = c as u32 - 48;
        proof {
            assert(is_digit(s@[i as int]));
            assert(d == s@[i as int] as int - '0' as int);
        }
        v = v * 10 + d;
        if v > 255 {
            v = 256;
        }
        i = i + 1;
    }
    if v > 255 {
        None
    } else {
        Some(v as u8)
    }
}

fn parse_header(s: &Vec<char>, at: usize) -> (r: Result<(Token, usize), Error>)
    requires
        at <= s@.len(),
    ensures
        match r {
            Ok((t, np)) => lex_header(s@, at as int) == Ok::<(TokenV, int), Error>(
                (t@, np as int),
            ) && at <= np <= s@.len(),
            Err(e) => lex_header(s@, at as int) == Err::<(TokenV, int), Error>(e),
        },
{
    let n = s.len();
    let lit = chars_of("-- HUMAN RESOURCE MACHINE PROGRAM --");
    if match_lit(s, at, &lit) {
        Ok((Token::Header, at + lit.len()))
    } else {
        Err(Error::ExpectedHeader)
    }
}

fn parse_inbox(s: &Vec<char>, at: usize) -> (r: Result<(Token, usize), Error>)
    requires
        at <= s@.len(),
    ensures
        match r {
            Ok((t, np)) => lex_inbox(s@, at as int) == Ok::<(TokenV, int), Error>(
                (t@, np as int),
            ) && at <= np <= s@.len(),
            Err(e) => lex_inbox(s@, at as int) == Err::<(TokenV, int), Error>(e),
        },
{
    let n = s.len();
    let lit = chars_of("INBOX");
    if match_lit(s, at, &lit) {
        Ok((Token::Inbox, at + lit.len()))
    } else {
        Err(Error::ExpectedInbox)
    }
}

fn parse_outbox(s: &Vec<char>, at: usize) -> (r: Result<(Token, usize), Error>)
    requires
        at <= s@.len(),
    ensures
        match r {
            Ok((t, np)) => lex_outbox(s@, at as int) == Ok::<(TokenV, int), Error>(
                (t@, np as int),
            ) && at <= np <= s@.len(),
            Err(e) => lex_outbox(s@, at as int) == Err::<(TokenV, int), Error>(e),
        },
{
    let n = s.len();
    let lit = chars_of("OUTBOX");
    if match_lit(s, at, &lit) {
        Ok((Token::Outbox, at + lit.len()))
    } else {
        Err(Error::ExpectedOutbox)
    }
}

/// Consume a non-empty whitespace run, yielding the offset after it.
fn skip_whitespace(s: &Vec<char>, at: usize) -> (r: Result<usize, Error>)
    requires
        at <= s@.len(),
    ensures
        match r {
            Ok(np) => at < np <= s@.len() && np == space_run_end(s@, at as int),
            Err(e) => e == Error::ExpectedWhiteSpace && space_run_end(s@, at as int) == at,
        },
{
    let end = find_space_run_end(s, at);
    if end > at {
        Ok(end)
    } else {
        Err(Error::ExpectedWhiteSpace)
    }
}

fn parse_whitespace(s: &Vec<char>, at: usize) -> (r: Result<(Token, usize), Error>)
    requires
        at <= s@.len(),
    ensures
        match r {
            Ok((t, np)) => lex_whitespace(s@, at as int) == Ok::<(TokenV, int), Error>(
                (t@, np as int),
            ) && at <= np <= s@.len(),
            Err(e) => lex_whitespace(s@, at as int) == Err::<(TokenV, int), Error>(e),
        },
{
    let end = find_space_run_end(s, at);
    if end > at {
        Ok((Token::Whitespace(slice_chars(s, at, end)), end))
    } else {
        Err(Error::ExpectedWhiteSpace)
    }
}

fn parse_register_value(s: &Vec<char>, at: usize) -> (r: Result<(u8, usize), Error>)
    requires
        at <= s@.len(),
    ensures
        match r {
            Ok((v, np)) => lex_register_value(s@, at as int) == Ok::<(int, int), Error>(
                (v as int, np as int),
            ) && at <= np <= s@.len(),
            Err(e) => lex_register_value(s@, at as int) == Err::<(int, int), Error>(e),
        },
{
    let end = find_digit_run_end(s, at);
    if end == at {
        return Err(Error::ExpectedRegisterValue);
    }
    proof {
        lemma_digit_run(s@, at as int);
    }
    match digits_to_u8(s, at, end) {
        Some(v) => Ok((v, end)),
        None => Err(Error::ExpectedRegisterValue),
    }
}

fn parse_register_indirect(s: &Vec<char>, at: usize) -> (r: Result<(Register, usize), Error>)
    requires
        at <= s@.len(),
    ensures
        match r {
            Ok((reg, np)) => lex_register_indirect(s@, at as int) == Ok::<
                (Register, int),
                Error,
            >((reg, np as int)) && at <= np <= s@.len(),
            Err(e) => lex_register_indirect(s@, at as int) == Err::<(Register, int), Error>(e),
        },
{
    let n = s.len();
    proof {
        reveal_strlit("[");
        reveal_strlit("]");
    }
    let open = chars_of("[");
    if !match_lit(s, at, &open) {
        return Err(Error::ExpectedIndirectRegister);
    }
    match parse_register_value(s, at + 1) {
        Err(e) => Err(e),
        Ok((v, mid)) => {
            let close = chars_of("]");
            if match_lit(s, mid, &close) {
                Ok((Register::Indirect(v), mid + 1))
            } else {
                Err(Error::ExpectedIndirectRegisterEnd)
            }
        },
    }
}

fn parse_register(s: &Vec<char>, at: usize) -> (r: Result<(Register, usize), Error>)
    requires
        at <= s@.len(),
    ensures
        match r {
            Ok((reg, np)) => lex_register(s@, at as int) == Ok::<(Register, int), Error>(
                (reg, np as int),
            ) && at <= np <= s@.len(),
            Err(e) => lex_register(s@, at as int) == Err::<(Register, int), Error>(e),
        },
{
    match parse_register_indirect(s, at) {
        Ok((reg, np)) => Ok((reg, np)),
        Err(_) => match parse_register_value(s, at) {
            Ok((v, np)) => Ok((Register::Direct(v), np)),
            Err(e) => Err(e),
        },
    }
}

/// The shared body of the register instructions: the mnemonic in `lit`,
/// whitespace, then a register operand.
fn parse_single_register_instruction(
    s: &Vec<char>,
    at: usize,
    lit: &Vec<char>,
    err: Error,
) -> (r: Result<(Register, usize), Error>)
    requires
        at <= s@.len(),
    ensures
        match r {
            Ok((reg, np)) => lex_reg_tail(s@, at as int, lit@, err) == Ok::<
                (Register, int),
                Error,
            >((reg, np as int)) && at <= np <= s@.len(),
            Err(e) => lex_reg_tail(s@, at as int, lit@, err) == Err::<(Register, int), Error>(e),
        },
{
    let n = s.len();
    if !match_lit(s, at, lit) {
        return Err(err);
    }
    match skip_whitespace(s, at + lit.len()) {
        Err(e) => Err(e),
        Ok(a2) => parse_register(s, a2),
    }
}

fn parse_copy_from(s: &Vec<char>, at: usize) -> (r: Result<(Token, usize), Error>)
    requires
        at <= s@.len(),
    ensures
        match r {
            Ok((t, np)) => lex_copy_from(s@, at as int) == Ok::<(TokenV, int), Error>(
                (t@, np as int),
            ) && at <= np <= s@.len(),
            Err(e) => lex_copy_from(s@, at as int) == Err::<(TokenV, int), Error>(e),
        },
{
    let lit = chars_of("COPYFROM");
    match parse_single_register_instruction(s, at, &lit, Error::ExpectedCopyFrom) {
        Ok((reg, np)) => Ok((Token::CopyFrom(reg), np)),
        Err(e) => Err(e),
    }
}

fn parse_copy_to(s: &Vec<char>, at: usize) -> (r: Result<(Token, usize), Error>)
    requires
        at <= s@.len(),
    ensures
        match r {
            Ok((t, np)) => lex_copy_to(s@, at as int) == Ok::<(TokenV, int), Error>(
                (t@, np as int),
            ) && at <= np <= s@.len(),
            Err(e) => lex_copy_to(s@, at as int) == Err::<(TokenV, int), Error>(e),
        },
{
    let lit = chars_of("COPYTO");
    match parse_single_register_instruction(s, at, &lit, Error::ExpectedCopyTo) {
        Ok((reg, np)) => Ok((Token::CopyTo(reg), np)),
        Err(e) => Err(e),
    }
}

fn parse_bump_up(s: &Vec<char>, at: usize) -> (r: Result<(Token, usize), Error>)
    requires
        at <= s@.len(),
    ensures
        match r {
            Ok((t, np)) => lex_bump_up(s@, at as int) == Ok::<(TokenV, int), Error>(
                (t@, np as int),
            ) && at <= np <= s@.len(),
            Err(e) => lex_bump_up(s@, at as int) == Err::<(TokenV, int), Error>(e),
        },
{
    let lit = chars_of("BUMPUP");
    match parse_single_register_instruction(s, at, &lit, Error::ExpectedBumpUp) {
        Ok((reg, np)) => Ok((Token::BumpUp(reg), np)),
        Err(e) => Err(e),
    }
}

fn parse_bump_down(s: &Vec<char>, at: usize) -> (r: Result<(Token, usize), Error>)
    requires
        at <= s@.len(),
    ensures
        match r {
            Ok((t, np)) => lex_bump_down(s@, at as int) == Ok::<(TokenV, int), Error>(
                (t@, np as int),
            ) && at <= np <= s@.len(),
            Err(e) => lex_bump_down(s@, at as int) == Err::<(TokenV, int), Error>(e),
        },
{
    let lit = chars_of("BUMPDN");
    match parse_single_register_instruction(s, at, &lit, Error::ExpectedBumpDown) {
        Ok((reg, np)) => Ok((Token::BumpDown(reg), np)),
        Err(e) => Err(e),
    }
}

fn parse_add(s: &Vec<char>, at: usize) -> (r: Result<(Token, usize), Error>)
    requires
        at <= s@.len(),
    ensures
        match r {
            Ok((t, np)) => lex_add(s@, at as int) == Ok::<(TokenV, int), Error>(
                (t@, np as int),
            ) && at <= np <= s@.len(),
            Err(e) => lex_add(s@, at as int) == Err::<(TokenV, int), Error>(e),
        },
{
    let lit = chars_of("ADD");
    match parse_single_register_instruction(s, at, &lit, Error::ExpectedAdd) {
        Ok((reg, np)) => Ok((Token::Add(reg), np)),
        Err(e) => Err(e),
    }
}

fn parse_sub(s: &Vec<char>, at: usize) -> (r: Result<(Token, usize), Error>)
    requires
        at <= s@.len(),
    ensures
        match r {
            Ok((t, np)) => lex_sub(s@, at as int) == Ok::<(TokenV, int), Error>(
                (t@, np as int),
            ) && at <= np <= s@.len(),
            Err(e) => lex_sub(s@, at as int) == Err::<(TokenV, int), Error>(e),
        },
{
    let lit = chars_of("SUB");
    match parse_single_register_instruction(s, at, &lit, Error::ExpectedSub) {
        Ok((reg, np)) => Ok((Token::Sub(reg), np)),
        Err(e) => Err(e),
    }
}

/// Consume a non-empty label name.
fn read_label(s: &Vec<char>, at: usize) -> (r: Result<(Vec<char>, usize), Error>)
    requires
        at <= s@.len(),
    ensures
        match r {
            Ok((name, np)) => lex_label_value(s@, at as int) == Ok::<(Seq<char>, int), Error>(
                (name@, np as int),
            ) && at <= np <= s@.len(),
            Err(e) => lex_label_value(s@, at as int) == Err::<(Seq<char>, int), Error>(e),
        },
{
    let end = find_label_run_end(s, at);
    if end == at {
        Err(Error::ExpectedLabelValue)
    } else {
        Ok((slice_chars(s, at, end), end))
    }
}

fn parse_label_definition(s: &Vec<char>, at: usize) -> (r: Result<(Token, usize), Error>)
    requires
        at <= s@.len(),
    ensures
        match r {
            Ok((t, np)) => lex_label_definition(s@, at as int) == Ok::<(TokenV, int), Error>(
                (t@, np as int),
            ) && at <= np <= s@.len(),
            Err(e) => lex_label_definition(s@, at as int) == Err::<(TokenV, int), Error>(e),
        },
{
    let n = s.len();
    match read_label(s, at) {
        Err(_) => Err(Error::ExpectedLabelDefinition),
        Ok((name, a1)) => {
            proof {
                reveal_strlit(":");
            }
            let colon = chars_of(":");
            if match_lit(s, a1, &colon) {
                Ok((Token::LabelDefinition(name), a1 + 1))
            } else {
                Err(Error::ExpectedColon)
            }
        },
    }
}

/// The shared body of the jump instructions: the mnemonic in `lit`,
/// whitespace, then a label name.
fn parse_jump_instruction(s: &Vec<char>, at: usize, lit: &Vec<char>, err: Error) -> (r: Result<
    (Vec<char>, usize),
    Error,
>)
    requires
        at <= s@.len(),
    ensures
        match r {
            Ok((name, np)) => lex_jump_tail(s@, at as int, lit@, err) == Ok::<
                (Seq<char>, int),
                Error,
            >((name@, np as int)) && at <= np <= s@.len(),
            Err(e) => lex_jump_tail(s@, at as int, lit@, err) == Err::<(Seq<char>, int), Error>(
                e,
            ),
        },
{
    let n = s.len();
    if !match_lit(s, at, lit) {
        return Err(err);
    }
    match skip_whitespace(s, at + lit.len()) {
        Err(e) => Err(e),
        Ok(a2) => read_label(s, a2),
    }
}

fn parse_jump(s: &Vec<char>, at: usize) -> (r: Result<(Token, usize), Error>)
    requires
        at <= s@.len(),
    ensures
        match r {
            Ok((t, np)) => lex_jump(s@, at as int) == Ok::<(TokenV, int), Error>(
                (t@, np as int),
            ) && at <= np <= s@.len(),
            Err(e) => lex_jump(s@, at as int) == Err::<(TokenV, int), Error>(e),
        },
{
    let lit = chars_of("JUMP");
    match parse_jump_instruction(s, at, &lit, Error::ExpectedJump) {
        Ok((name, np)) => Ok((Token::Jump(name), np)),
        Err(e) => Err(e),
    }
}

fn parse_jump_if_zero(s: &Vec<char>, at: usize) -> (r: Result<(Token, usize), Error>)
    requires
        at <= s@.len(),
    ensures
        match r {
            Ok((t, np)) => lex_jump_if_zero(s@, at as int) == Ok::<(TokenV, int), Error>(
                (t@, np as int),
            ) && at <= np <= s@.len(),
            Err(e) => lex_jump_if_zero(s@, at as int) == Err::<(TokenV, int), Error>(e),
        },
{
    let lit = chars_of("JUMPZ");
    match parse_jump_instruction(s, at, &lit, Error::ExpectedJumpIfZero) {
        Ok((name, np)) => Ok((Token::JumpIfZero(name), np)),
        Err(e) => Err(e),
    }
}

fn parse_jump_if_negative(s: &Vec<char>, at: usize) -> (r: Result<(Token, usize), Error>)
    requires
        at <= s@.len(),
    ensures
        match r {
            Ok((t, np)) => lex_jump_if_negative(s@, at as int) == Ok::<(TokenV, int), Error>(
                (t@, np as int),
            ) && at <= np <= s@.len(),
            Err(e) => lex_jump_if_negative(s@, at as int) == Err::<(TokenV, int), Error>(e),
        },
{
    let lit = chars_of("JUMPN");
    match parse_jump_instruction(s, at, &lit, Error::ExpectedJumpIfNegative) {
        Ok((name, np)) => Ok((Token::JumpIfNegative(name), np)),
        Err(e) => Err(e),
    }
}

/// Consume a non-empty digit run, reporting `err` when none is there.
fn read_digit_run(s: &Vec<char>, at: usize, err: Error) -> (r: Result<(Vec<char>, usize), Error>)
    requires
        at <= s@.len(),
    ensures
        match r {
            Ok((id, np)) => lex_digit_run(s@, at as int, err) == Ok::<(Seq<char>, int), Error>(
                (id@, np as int),
            ) && at <= np <= s@.len(),
            Err(e) => lex_digit_run(s@, at as int, err) == Err::<(Seq<char>, int), Error>(e),
        },
{
    let end = find_digit_run_end(s, at);
    if end == at {
        Err(err)
    } else {
        Ok((slice_chars(s, at, end), end))
    }
}

/// Consume a non-empty data run, reporting `err` when none is there.
fn read_data_run(s: &Vec<char>, at: usize, err: Error) -> (r: Result<(Vec<char>, usize), Error>)
    requires
        at <= s@.len(),
    ensures
        match r {
            Ok((d, np)) => lex_data_run(s@, at as int, err) == Ok::<(Seq<char>, int), Error>(
                (d@, np as int),
            ) && at <= np <= s@.len(),
            Err(e) => lex_data_run(s@, at as int, err) == Err::<(Seq<char>, int), Error>(e),
        },
{
    let end = find_data_run_end(s, at);
    if end == at {
        Err(err)
    } else {
        Ok((slice_chars(s, at, end), end))
    }
}

fn parse_comment(s: &Vec<char>, at: usize) -> (r: Result<(Token, usize), Error>)
    requires
        at <= s@.len(),
    ensures
        match r {
            Ok((t, np)) => lex_comment(s@, at as int) == Ok::<(TokenV, int), Error>(
                (t@, np as int),
            ) && at <= np <= s@.len(),
            Err(e) => lex_comment(s@, at as int) == Err::<(TokenV, int), Error>(e),
        },
{
    let n = s.len();
    let lit = chars_of("COMMENT");
    if !match_lit(s, at, &lit) {
        return Err(Error::ExpectedComment);
    }
    match skip_whitespace(s, at + lit.len()) {
        Err(e) => Err(e),
        Ok(a2) => match read_digit_run(s, a2, Error::ExpectedCommentId) {
            Err(e) => Err(e),
            Ok((id, a3)) => Ok((Token::Comment(id), a3)),
        },
    }
}

fn parse_comment_definition(s: &Vec<char>, at: usize) -> (r: Result<(Token, usize), Error>)
    requires
        at <= s@.len(),
    ensures
        match r {
            Ok((t, np)) => lex_comment_definition(s@, at as int) == Ok::<(TokenV, int), Error>(
                (t@, np as int),
            ) && at <= np <= s@.len(),
            Err(e) => lex_comment_definition(s@, at as int) == Err::<(TokenV, int), Error>(e),
        },
{
    let n = s.len();
    let lit = chars_of("DEFINE COMMENT");
    if !match_lit(s, at, &lit) {
        return Err(Error::ExpectedCommentDefinition);
    }
    match skip_whitespace(s, at + lit.len()) {
        Err(e) => Err(e),
        Ok(a2) => match read_digit_run(s, a2, Error::ExpectedCommentId) {
            Err(e) => Err(e),
            Ok((id, a3)) => match skip_whitespace(s, a3) {
                Err(e) => Err(e),
                Ok(a4) => match read_data_run(s, a4, Error::ExpectedCommentDefinitionData) {
                    Err(e) => Err(e),
                    Ok((data, a5)) => {
                        proof {
                            reveal_strlit(";");
                        }
                        let semi = chars_of(";");
                        if match_lit(s, a5, &semi) {
                            Ok((Token::CommentDefinition(id, data), a5 + 1))
                        } else {
                            Err(Error::ExpectedCommentDefinitionEnd)
                        }
                    },
                },
            },
        },
    }
}

fn parse_register_label_definition(s: &Vec<char>, at: usize) -> (r: Result<(Token, usize), Error>)
    requires
        at <= s@.len(),
    ensures
        match r {
            Ok((t, np)) => lex_register_label_definition(s@, at as int) == Ok::<
                (TokenV, int),
                Error,
            >((t@, np as int)) && at <= np <= s@.len(),
            Err(e) => lex_register_label_definition(s@, at as int) == Err::<
                (TokenV, int),
                Error,
            >(e),
        },
{
    let n = s.len();
    let lit = chars_of("DEFINE LABEL");
    if !match_lit(s, at, &lit) {
        return Err(Error::ExpectedRegisterLabelDefinition);
    }
    match skip_whitespace(s, at + lit.len()) {
        Err(e) => Err(e),
        Ok(a2) => match read_digit_run(s, a2, Error::ExpectedRegisterLabelId) {
            Err(e) => Err(e),
            Ok((id, a3)) => match skip_whitespace(s, a3) {
                Err(e) => Err(e),
                Ok(a4) => match read_data_run(
                    s,
                    a4,
                    Error::ExpectedRegisterLabelDefinitionData,
                ) {
                    Err(e) => Err(e),
                    Ok((data, a5)) => {
                        proof {
                            reveal_strlit(";");
                        }
                        let semi = chars_of(";");
                        if match_lit(s, a5, &semi) {
                            Ok((Token::CommentDefinition(id, data), a5 + 1))
                        } else {
                            Err(Error::ExpectedRegisterLabelDefinitionEnd)
                        }
                    },
                },
            },
        },
    }
}

/// The observable state of a lexer: the text it reads and how far it has
/// come.
pub ghost struct ParserView {
    pub text: Seq<char>,
    pub offset: int,
}

/// The lexer: it walks the source text once, front to back, producing one
/// token per step.
#[derive(Debug, Clone)]
pub struct Parser {
    text: Vec<char>,
    offset: usize,
}

impl View for Parser {
    type V = ParserView;

    closed spec fn view(&self) -> ParserView {
        ParserView { text: self.text@, offset: self.offset as int }
    }
}

impl Parser {
    /// A lexer at the start of `s`.
    pub fn new(s: &str) -> (p: Parser)
        ensures
            p@ == (ParserView { text: s@, offset: 0 }),
    {
        Parser { text: chars_of(s), offset: 0 }
    }

    /// The next token of the text, as `next_spec` describes: `None` once
    /// the text is exhausted; a token, consuming its characters, while
    /// some production matches; otherwise the offset the lexing stopped at
    /// and every production's failure reason, consuming nothing.
    pub fn next(&mut self) -> (r: Option<Result<Token, (usize, Vec<Error>)>>)
        requires
            old(self)@.offset <= old(self)@.text.len(),
        ensures
            final(self)@.text == old(self)@.text,
            final(self)@.offset <= final(self)@.text.len(),
            match next_spec(old(self)@.text, old(self)@.offset) {
                None => r is None && final(self)@ == old(self)@,
                Some(Ok((tv, np))) => (r matches Some(tr) && tr matches Ok(t) && t@ == tv)
                    && final(self)@.offset == np,
                Some(Err((off, es))) => (r matches Some(tr) && tr matches Err(fail) && fail.0
                    == off && fail.1@ == es) && final(self)@ == old(self)@,
            },
    {
        let at = self.offset;
        if at >= self.text.len() {
            return None;
        }
        let s = &self.text;
        let mut errs: Vec<Error> = Vec::new();
        let e1 = match parse_header(s, at) {
            Ok((t, np)) => {
                self.offset = np;
                return Some(Ok(t));
            },
            Err(e) => e,
        };
        errs.push(e1);
        let e2 = match parse_inbox(s, at) {
            Ok((t, np)) => {
                self.offset = np;
                return Some(Ok(t));
            },
            Err(e) => e,
        };
        errs.push(e2);
        let e3 = match parse_outbox(s, at) {
            Ok((t, np)) => {
                self.offset = np;
                return Some(Ok(t));
            },
            Err(e) => e,
        };
        errs.push(e3);
        let e4 = match parse_copy_from(s, at) {
            Ok((t, np)) => {
                self.offset = np;
                return Some(Ok(t));
            },
            Err(e) => e,
        };
        errs.push(e4);
        let e5 = match parse_copy_to(s, at) {
            Ok((t, np)) => {
                self.offset = np;
                return Some(Ok(t));
            },
            Err(e) => e,
        };
        errs.push(e5);
        let e6 = match parse_bump_up(s, at) {
            Ok((t, np)) => {
                self.offset = np;
                return Some(Ok(t));
            },
            Err(e) => e,
        };
        errs.push(e6);
        let e7 = match parse_bump_down(s, at) {
            Ok((t, np)) => {
                self.offset = np;
                return Some(Ok(t));
            },
            Err(e) => e,
        };
        errs.push(e7);
        let e8 = match parse_add(s, at) {
            Ok((t, np)) => {
                self.offset = np;
                return Some(Ok(t));
            },
            Err(e) => e,
        };
        errs.push(e8);
        let e9 = match parse_sub(s, at) {
            Ok((t, np)) => {
                self.offset = np;
                return Some(Ok(t));
            },
            Err(e) => e,
        };
        errs.push(e9);
        let e10 = match parse_label_definition(s, at) {
            Ok((t, np)) => {
                self.offset = np;
                return Some(Ok(t));
            },
            Err(e) => e,
        };
        errs.push(e10);
        let e11 = match parse_jump(s, at) {
            Ok((t, np)) => {
                self.offset = np;
                return Some(Ok(t));
            },
            Err(e) => e,
        };
        errs.push(e11);
        let e12 = match parse_jump_if_zero(s, at) {
            Ok((t, np)) => {
                self.offset = np;
                return Some(Ok(t));
            },
            Err(e) => e,
        };
        errs.push(e12);
        let e13 = match parse_jump_if_negative(s, at) {
            Ok((t, np)) => {
                self.offset = np;
                return Some(Ok(t));
            },
            Err(e) => e,
        };
        errs.push(e13);
        let e14 = match parse_comment(s, at) {
            Ok((t, np)) => {
                self.offset = np;
                return Some(Ok(t));
            },
            Err(e) => e,
        };
        errs.push(e14);
        let e15 = match parse_comment_definition(s, at) {
            Ok((t, np)) => {
                self.offset = np;
                return Some(Ok(t));
            },
            Err(e) => e,
        };
        errs.push(e15);
        let e16 = match parse_register_label_definition(s, at) {
            Ok((t, np)) => {
                self.offset = np;
                return Some(Ok(t));
            },
            Err(e) => e,
        };
        errs.push(e16);
        let e17 = match parse_whitespace(s, at) {
            Ok((t, np)) => {
                self.offset = np;
                return Some(Ok(t));
            },
            Err(e) => e,
        };
        errs.push(e17);
        proof {
            assert(errs@ =~= seq![
                e1,
                e2,
                e3,
                e4,
                e5,
                e6,
                e7,
                e8,
                e9,
                e10,
                e11,
                e12,
                e13,
                e14,
                e15,
                e16,
                e17,
            ]);
        }
        Some(Err((at, errs)))
    }
}

} // verus!

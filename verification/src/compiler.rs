//! The compiler: filters the token stream down to the tokens with runtime
//! effect, records where each label is defined, and lowers every remaining
//! token into an instruction, resolving symbolic jump targets to absolute
//! indices.

use vstd::prelude::*;

use crate::machine::{Instruction, program_wf};

pub use crate::machine::Program;
use crate::parser::{Token, TokenV};

verus! {

/// A compile failure: the token stream itself failed to lex (`ParserError`
/// carries the lexer's report), or a jump referenced a label that is never
/// defined.
#[derive(Debug, Copy, Clone, PartialEq, Eq)]
pub enum Error<E> {
    ParserError(E),
    UndefinedLabel,
}

/// Whether a token has a runtime effect. Headers, comments, comment
/// definitions and whitespace do not and are filtered out before
/// compilation.
pub open spec fn is_semantic(t: TokenV) -> bool {
    match t {
        TokenV::Header => false,
        TokenV::Comment(_) => false,
        TokenV::CommentDefinition(_, _) => false,
        TokenV::Whitespace(_) => false,
        _ => true,
    }
}

/// The token stream with every token of no runtime effect removed, order
/// kept.
pub open spec fn filter_semantic(s: Seq<TokenV>) -> Seq<TokenV>
    decreases s.len(),
{
    if s.len() == 0 {
        s
    } else {
        let rest = filter_semantic(s.drop_last());
        if is_semantic(s.last()) {
            rest.push(s.last())
        } else {
            rest
        }
    }
}

/// Every token of the filtered stream has a runtime effect.
pub proof fn lemma_filter_semantic_elements(s: Seq<TokenV>)
    ensures
        forall|i: int|
            0 <= i < filter_semantic(s).len() ==> is_semantic(#[trigger] filter_semantic(s)[i]),
    decreases s.len(),
{
    if s.len() > 0 {
        lemma_filter_semantic_elements(s.drop_last());
        let f0 = filter_semantic(s.drop_last());
        assert forall|i: int|
            0 <= i < filter_semantic(s).len() implies is_semantic(
            #[trigger] filter_semantic(s)[i],
        ) by {
            if i < f0.len() {
                assert(is_semantic(f0[i]));
            } else {
                assert(filter_semantic(s)[i] == s.last());
            }
        }
    }
}

/// Where a jump to `name` lands in the filtered stream `s`: the index of
/// the last definition of `name`, later definitions silently overwriting
/// earlier ones; `None` when `name` is never defined.
pub open spec fn resolve_label(s: Seq<TokenV>, name: Seq<char>) -> Option<int>
    decreases s.len(),
{
    if s.len() == 0 {
        None
    } else if s.last() == TokenV::LabelDefinition(name) {
        Some(s.len() - 1)
    } else {
        resolve_label(s.drop_last(), name)
    }
}

/// A resolved label names the position of the last definition of `name`:
/// that slot holds the definition and no later slot defines `name` again;
/// an unresolved label is defined nowhere.
pub proof fn lemma_resolve_label_last(s: Seq<TokenV>, name: Seq<char>)
    ensures
        match resolve_label(s, name) {
            Some(i) => 0 <= i < s.len() && s[i] == TokenV::LabelDefinition(name) && forall|j: int|
                i < j < s.len() ==> s[j] != TokenV::LabelDefinition(name),
            None => forall|j: int| 0 <= j < s.len() ==> s[j] != TokenV::LabelDefinition(name),
        },
    decreases s.len(),
{
    if s.len() > 0 {
        lemma_resolve_label_last(s.drop_last(), name);
        let s0 = s.drop_last();
        if s.last() != TokenV::LabelDefinition(name) {
            match resolve_label(s0, name) {
                Some(i) => {
                    assert forall|j: int| i < j < s.len() implies s[j]
                        != TokenV::LabelDefinition(name) by {
                        if j < s.len() - 1 {
                            assert(s0[j] != TokenV::LabelDefinition(name));
                        } else {
                            assert(s[j] == s.last());
                        }
                    }
                },
                None => {
                    assert forall|j: int| 0 <= j < s.len() implies s[j]
                        != TokenV::LabelDefinition(name) by {
                        if j < s.len() - 1 {
                            assert(s0[j] != TokenV::LabelDefinition(name));
                        } else {
                            assert(s[j] == s.last());
                        }
                    }
                },
            }
        }
    }
}

/// What one filtered token compiles to, inside the filtered stream `f`:
/// direct translations are one to one, a label definition keeps its slot
/// as `NoOp`, and a jump resolves its label against the whole of `f`
/// (so definitions after the jump are found too); `None` when the label
/// is undefined. Tokens with no runtime effect never reach lowering.
pub open spec fn lower_token(f: Seq<TokenV>, t: TokenV) -> Option<Instruction> {
    match t {
        TokenV::Inbox => Some(Instruction::Inbox),
        TokenV::Outbox => Some(Instruction::Outbox),
        TokenV::CopyFrom(r) => Some(Instruction::CopyFrom(r)),
        TokenV::CopyTo(r) => Some(Instruction::CopyTo(r)),
        TokenV::BumpUp(r) => Some(Instruction::BumpUp(r)),
        TokenV::BumpDown(r) => Some(Instruction::BumpDown(r)),
        TokenV::Add(r) => Some(Instruction::Add(r)),
        TokenV::Sub(r) => Some(Instruction::Sub(r)),
        TokenV::LabelDefinition(_) => Some(Instruction::NoOp),
        TokenV::Jump(name) => match resolve_label(f, name) {
            Some(i) => Some(Instruction::Jump(i as usize)),
            None => None,
        },
        TokenV::JumpIfZero(name) => match resolve_label(f, name) {
            Some(i) => Some(Instruction::JumpIfZero(i as usize)),
            None => None,
        },
        TokenV::JumpIfNegative(name) => match resolve_label(f, name) {
            Some(i) => Some(Instruction::JumpIfNegative(i as usize)),
            None => None,
        },
        _ => None,
    }
}

/// What compiling a token stream yields: the filtered stream lowered token
/// by token, each instruction keeping its token's index, or `None` when
/// some jump's label is undefined.
pub open spec fn compile_spec(toks: Seq<TokenV>) -> Option<Seq<Instruction>> {
    let f = filter_semantic(toks);
    if forall|i: int| 0 <= i < f.len() ==> (#[trigger] lower_token(f, f[i])) is Some {
        Some(Seq::new(f.len(), |i: int| lower_token(f, f[i])->0))
    } else {
        None
    }
}

/// The value sequence of a sequence of tokens.
pub open spec fn toks_view(s: Seq<Token>) -> Seq<TokenV> {
    s.map_values(|t: Token| t@)
}

/// The value sequence of a lexed stream; meaningful while no entry is a
/// lex failure.
pub open spec fn stream_view<E>(s: Seq<Result<Token, E>>) -> Seq<TokenV> {
    s.map_values(
        |x: Result<Token, E>|
            match x {
                Ok(t) => t@,
                Err(_) => arbitrary(),
            },
    )
}

/// The first lex failure of a lexed stream, if any: compilation reports it
/// and never looks further.
pub open spec fn first_lex_failure<E>(s: Seq<Result<Token, E>>) -> Option<E>
    decreases s.len(),
{
    if s.len() == 0 {
        None
    } else {
        match s.first() {
            Err(e) => Some(e),
            Ok(_) => first_lex_failure(s.drop_first()),
        }
    }
}

/// Skipping a failure-free prefix does not change the first lex failure.
proof fn lemma_first_lex_failure_skip<E>(s: Seq<Result<Token, E>>, i: int)
    requires
        0 <= i <= s.len(),
        forall|j: int| 0 <= j < i ==> s[j] is Ok,
    ensures
        first_lex_failure(s) == first_lex_failure(s.skip(i)),
    decreases i,
{
    if i > 0 {
        assert(s[0] is Ok);
        assert(s.skip(i) =~= s.drop_first().skip(i - 1));
        assert forall|j: int| 0 <= j < i - 1 implies s.drop_first()[j] is Ok by {
            assert(s[j + 1] is Ok);
        }
        lemma_first_lex_failure_skip(s.drop_first(), i - 1);
    } else {
        assert(s.skip(0) =~= s);
    }
}

/// The label table: one entry per label definition of the filtered stream,
/// in stream order, carrying the defined name and its index.
pub open spec fn label_entries(s: Seq<TokenV>) -> Seq<(Seq<char>, int)>
    decreases s.len(),
{
    if s.len() == 0 {
        Seq::empty()
    } else {
        let rest = label_entries(s.drop_last());
        match s.last() {
            TokenV::LabelDefinition(name) => rest.push((name, s.len() - 1)),
            _ => rest,
        }
    }
}

/// What looking a name up in the label table yields: the index of the
/// entry pushed last for that name.
pub open spec fn lookup_spec(entries: Seq<(Seq<char>, int)>, name: Seq<char>) -> Option<int>
    decreases entries.len(),
{
    if entries.len() == 0 {
        None
    } else if entries.last().0 == name {
        Some(entries.last().1)
    } else {
        lookup_spec(entries.drop_last(), name)
    }
}

/// The label table agrees with resolution over the stream it was built
/// from: looking a name up finds its last definition's index.
pub proof fn lemma_lookup_is_resolve(s: Seq<TokenV>, name: Seq<char>)
    ensures
        lookup_spec(label_entries(s), name) == resolve_label(s, name),
    decreases s.len(),
{
    if s.len() > 0 {
        lemma_lookup_is_resolve(s.drop_last(), name);
        match s.last() {
            TokenV::LabelDefinition(n2) => {
                let e = label_entries(s);
                assert(e == label_entries(s.drop_last()).push((n2, s.len() - 1)));
                assert(e.drop_last() =~= label_entries(s.drop_last()));
            },
            _ => {},
        }
    }
}

/// The value sequence of the label table.
pub open spec fn entries_view(t: Seq<(Vec<char>, usize)>) -> Seq<(Seq<char>, int)> {
    t.map_values(|p: (Vec<char>, usize)| (p.0@, p.1 as int))
}

/// Character-for-character equality of two character vectors.
fn chars_eq(a: &Vec<char>, b: &Vec<char>) -> (r: bool)
    ensures
        r == (a@ == b@),
{
    if a.len() != b.len() {
        return false;
    }
    let mut i: usize = 0;
    while i < a.len()
        invariant
            i <= a@.len(),
            a@.len() == b@.len(),
            forall|k: int| 0 <= k < i ==> a@[k] == b@[k],
        decreases a@.len() - i,
    {
        if a[i] != b[i] {
            return false;
        }
        i = i + 1;
    }
    proof {
        assert(a@ =~= b@);
    }
    true
}

/// A fresh character vector holding the same characters.
fn clone_chars(v: &Vec<char>) -> (r: Vec<char>)
    ensures
        r@ == v@,
{
    let mut r: Vec<char> = Vec::new();
    let mut i: usize = 0;
    while i < v.len()
        invariant
            i <= v@.len(),
            r@ == v@.take(i as int),
        decreases v@.len() - i,
    {
        r.push(v[i]);
        proof {
            assert(r@ =~= v@.take(i + 1));
        }
        i = i + 1;
    }
    proof {
        assert(v@.take(v@.len() as int) =~= v@);
    }
    r
}

/// Look `name` up in the label table, scanning newest entries first, so
/// that the last definition of a name wins.
fn lookup_label(table: &Vec<(Vec<char>, usize)>, name: &Vec<char>) -> (r: Option<usize>)
    ensures
        match r {
            Some(i) => lookup_spec(entries_view(table@), name@) == Some(i as int),
            None => lookup_spec(entries_view(table@), name@) is None,
        },
{
    let ghost ev = entries_view(table@);
    let mut j = table.len();
    proof {
        assert(ev.take(ev.len() as int) =~= ev);
    }
    while j > 0
        invariant
            j <= table@.len(),
            ev == entries_view(table@),
            lookup_spec(ev, name@) == lookup_spec(ev.take(j as int), name@),
        decreases j,
    {
        j = j - 1;
        if chars_eq(&table[j].0, name) {
            proof {
                assert(ev.take(j as int + 1).last() == ev[j as int]);
            }
            return Some(table[j].1);
        }
        proof {
            assert(ev.take(j as int + 1).drop_last() =~= ev.take(j as int));
        }
    }
    None
}

impl Program {
    /// Compile a lexed token stream: report the first lex failure if there
    /// is one; otherwise filter the tokens, resolve every jump against the
    /// label definitions of the whole filtered stream, and lower each
    /// filtered token to the instruction at its own index, failing with
    /// `UndefinedLabel` when a jump's label has no definition.
    #[verifier::loop_isolation(false)]
    pub fn compile<E>(tokens: Vec<Result<Token, E>>) -> (r: Result<Program, Error<E>>)
        ensures
            first_lex_failure(tokens@) matches Some(e) ==> r == Err::<Program, Error<E>>(
                Error::ParserError(e),
            ),
            first_lex_failure(tokens@) is None ==> match compile_spec(stream_view(tokens@)) {
                Some(instrs) => r matches Ok(p) && p@ == instrs,
                None => r == Err::<Program, Error<E>>(Error::UndefinedLabel),
            },
            r matches Ok(p) ==> program_wf(p@),
    {
        let ghost orig = tokens@;
        let mut tokens = tokens;

        // Flip the stream so that popping yields tokens front to back.
        let mut rev: Vec<Result<Token, E>> = Vec::new();
        while tokens.len() > 0
            invariant
                tokens@ == orig.take(tokens@.len() as int),
                rev@.len() + tokens@.len() == orig.len(),
                forall|k: int| 0 <= k < rev@.len() ==> rev@[k] == orig[orig.len() - 1 - k],
            decreases tokens@.len(),
        {
            let x = match tokens.pop() {
                Some(x) => x,
                None => {
                    proof {
                        assert(false);
                    }
                    return Err(Error::UndefinedLabel);
                },
            };
            rev.push(x);
        }

        // Unwrap each lex result in order, keeping only the tokens with
        // runtime effect.
        let mut filtered: Vec<Token> = Vec::new();
        let ghost mut seen: int = 0;
        while rev.len() > 0
            invariant
                0 <= seen <= orig.len(),
                rev@.len() == orig.len() - seen,
                forall|k: int| 0 <= k < rev@.len() ==> rev@[k] == orig[orig.len() - 1 - k],
                forall|j: int| 0 <= j < seen ==> orig[j] is Ok,
                toks_view(filtered@) == filter_semantic(stream_view(orig.take(seen))),
            decreases rev@.len(),
        {
            let ghost pre_filtered = toks_view(filtered@);
            let x = match rev.pop() {
                Some(x) => x,
                None => {
                    proof {
                        assert(false);
                    }
                    return Err(Error::UndefinedLabel);
                },
            };
            proof {
                assert(x == orig[seen]);
            }
            match x {
                Err(e) => {
                    proof {
                        lemma_first_lex_failure_skip(orig, seen);
                        assert(orig.skip(seen).first() == orig[seen]);
                    }
                    return Err(Error::ParserError(e));
                },
                Ok(t) => {
                    let keep = match &t {
                        Token::Header => false,
                        Token::Comment(_) => false,
                        Token::CommentDefinition(_, _) => false,
                        Token::Whitespace(_) => false,
                        _ => true,
                    };
                    if keep {
                        filtered.push(t);
                    }
                    proof {
                        let svp = stream_view(orig.take(seen));
                        let svn = stream_view(orig.take(seen + 1));
                        assert(svn =~= svp.push(orig[seen]->Ok_0@));
                        assert(svn.drop_last() =~= svp);
                        if keep {
                            assert(toks_view(filtered@) =~= pre_filtered.push(
                                orig[seen]->Ok_0@,
                            ));
                        }
                        seen = seen + 1;
                    }
                },
            }
        }
        proof {
            assert(orig.take(seen) =~= orig);
            lemma_first_lex_failure_skip(orig, seen);
            assert(first_lex_failure(orig.skip(seen)) == None::<E>);
        }

        let ghost fv = toks_view(filtered@);
        proof {
            assert(fv == filter_semantic(stream_view(orig)));
            lemma_filter_semantic_elements(stream_view(orig));
        }

        // Record, for every label definition, the filtered index it sits
        // at; later definitions of a name shadow earlier ones at lookup.
        let mut table: Vec<(Vec<char>, usize)> = Vec::new();
        let mut i: usize = 0;
        proof {
            assert(fv.take(0) =~= Seq::<TokenV>::empty());
            assert(entries_view(table@) =~= Seq::<(Seq<char>, int)>::empty());
        }
        while i < filtered.len()
            invariant
                i <= filtered@.len(),
                fv == toks_view(filtered@),
                entries_view(table@) == label_entries(fv.take(i as int)),
            decreases filtered@.len() - i,
        {
            let ghost pre_entries = entries_view(table@);
            match &filtered[i] {
                Token::LabelDefinition(name) => {
                    let copy = clone_chars(name);
                    table.push((copy, i));
                    proof {
                        assert(entries_view(table@) =~= pre_entries.push((fv[i as int]->LabelDefinition_0, i as int)));
                    }
                },
                _ => {},
            }
            proof {
                assert(fv.take(i + 1).drop_last() =~= fv.take(i as int));
                assert(fv.take(i + 1).last() == fv[i as int]);
            }
            i = i + 1;
        }
        proof {
            assert(fv.take(filtered@.len() as int) =~= fv);
        }

        // Lower every filtered token in place, resolving jumps through the
        // table.
        let mut instrs: Vec<Instruction> = Vec::new();
        let mut i: usize = 0;
        while i < filtered.len()
            invariant
                i <= filtered@.len(),
                fv == toks_view(filtered@),
                entries_view(table@) == label_entries(fv),
                instrs@.len() == i,
                forall|k: int|
                    0 <= k < i ==> Some(#[trigger] instrs@[k]) == lower_token(fv, fv[k]),
            decreases filtered@.len() - i,
        {
            let lowered: Instruction = match &filtered[i] {
                Token::Inbox => Instruction::Inbox,
                Token::Outbox => Instruction::Outbox,
                Token::CopyFrom(r) => Instruction::CopyFrom(*r),
                Token::CopyTo(r) => Instruction::CopyTo(*r),
                Token::BumpUp(r) => Instruction::BumpUp(*r),
                Token::BumpDown(r) => Instruction::BumpDown(*r),
                Token::Add(r) => Instruction::Add(*r),
                Token::Sub(r) => Instruction::Sub(*r),
                Token::LabelDefinition(_) => Instruction::NoOp,
                Token::Jump(name) => {
                    proof {
                        lemma_lookup_is_resolve(fv, name@);
                    }
                    match lookup_label(&table, name) {
                        Some(t) => Instruction::Jump(t),
                        None => {
                            proof {
                                assert(lower_token(fv, fv[i as int]) is None);
                            }
                            return Err(Error::UndefinedLabel);
                        },
                    }
                },
                Token::JumpIfZero(name) => {
                    proof {
                        lemma_lookup_is_resolve(fv, name@);
                    }
                    match lookup_label(&table, name) {
                        Some(t) => Instruction::JumpIfZero(t),
                        None => {
                            proof {
                                assert(lower_token(fv, fv[i as int]) is None);
                            }
                            return Err(Error::UndefinedLabel);
                        },
                    }
                },
                Token::JumpIfNegative(name) => {
                    proof {
                        lemma_lookup_is_resolve(fv, name@);
                    }
                    match lookup_label(&table, name) {
                        Some(t) => Instruction::JumpIfNegative(t),
                        None => {
                            proof {
                                assert(lower_token(fv, fv[i as int]) is None);
                            }
                            return Err(Error::UndefinedLabel);
                        },
                    }
                },
                _ => {
                    proof {
                        assert(is_semantic(fv[i as int]));
                        assert(false);
                    }
                    Instruction::NoOp
                },
            };
            proof {
                assert(Some(lowered) == lower_token(fv, fv[i as int]));
            }
            instrs.push(lowered);
            i = i + 1;
        }
        proof {
            let f = filter_semantic(stream_view(orig));
            assert forall|k: int| 0 <= k < f.len() implies (#[trigger] lower_token(f, f[k]))
                is Some by {
                assert(Some(instrs@[k]) == lower_token(fv, fv[k]));
            }
            let target = Seq::new(f.len(), |k: int| lower_token(f, f[k])->0);
            assert forall|k: int| 0 <= k < f.len() implies instrs@[k] == target[k] by {
                assert(Some(instrs@[k]) == lower_token(fv, fv[k]));
            }
            assert(instrs@ =~= target);
            lemma_compile_spec_wf(stream_view(orig));
        }
        Ok(Program(instrs))
    }

    /// How many instructions of the program count towards its size
    /// statistic.
    pub fn stats_len(&self) -> (n: usize)
        ensures
            n == count_stats(self@),
    {
        let mut n: usize = 0;
        let mut i: usize = 0;
        proof {
            lemma_count_stats_le_len(self@.take(0));
        }
        while i < self.0.len()
            invariant
                i <= self@.len(),
                n == count_stats(self@.take(i as int)),
                n <= i,
            decreases self@.len() - i,
        {
            proof {
                assert(self@.take(i + 1).drop_last() =~= self@.take(i as int));
                assert(self@.take(i + 1).last() == self@[i as int]);
            }
            if self.0[i].counts_towards_stats() {
                n = n + 1;
            }
            i = i + 1;
        }
        proof {
            assert(self@.take(self@.len() as int) =~= self@);
        }
        n
    }
}

/// How many instructions of `p` count towards the size statistic.
pub open spec fn count_stats(p: Seq<Instruction>) -> nat
    decreases p.len(),
{
    if p.len() == 0 {
        0
    } else {
        count_stats(p.drop_last()) + if p.last().counts_towards_stats_spec() {
            1nat
        } else {
            0nat
        }
    }
}

proof fn lemma_count_stats_le_len(p: Seq<Instruction>)
    ensures
        count_stats(p) <= p.len(),
    decreases p.len(),
{
    if p.len() > 0 {
        lemma_count_stats_le_len(p.drop_last());
    }
}

/// Every token of the filtered stream occurs in the stream it was
/// filtered from.
pub proof fn lemma_filter_semantic_membership(s: Seq<TokenV>)
    ensures
        forall|i: int|
            0 <= i < filter_semantic(s).len() ==> exists|j: int|
                0 <= j < s.len() && #[trigger] filter_semantic(s)[i] == s[j],
    decreases s.len(),
{
    if s.len() > 0 {
        lemma_filter_semantic_membership(s.drop_last());
        let s0 = s.drop_last();
        let f0 = filter_semantic(s0);
        assert forall|i: int| 0 <= i < filter_semantic(s).len() implies exists|j: int|
            0 <= j < s.len() && #[trigger] filter_semantic(s)[i] == s[j] by {
            if i < f0.len() {
                let j0 = choose|j: int| 0 <= j < s0.len() && f0[i] == s0[j];
                assert(s0[j0] == s[j0]);
                assert(0 <= j0 < s.len() && filter_semantic(s)[i] == s[j0]);
            } else {
                assert(filter_semantic(s)[i] == s[s.len() - 1]);
            }
        }
    }
}

/// No token of the stream is a jump.
pub open spec fn no_jumps(toks: Seq<TokenV>) -> bool {
    forall|i: int|
        0 <= i < toks.len() ==> match #[trigger] toks[i] {
            TokenV::Jump(_) => false,
            TokenV::JumpIfZero(_) => false,
            TokenV::JumpIfNegative(_) => false,
            _ => true,
        }
}

/// A stream without jumps has nothing to resolve, so it always compiles.
pub proof fn lemma_no_jumps_compile(toks: Seq<TokenV>)
    requires
        no_jumps(toks),
    ensures
        compile_spec(toks) is Some,
{
    lemma_filter_semantic_elements(toks);
    lemma_filter_semantic_membership(toks);
    let f = filter_semantic(toks);
    assert forall|i: int| 0 <= i < f.len() implies (#[trigger] lower_token(f, f[i])) is Some by {
        let j = choose|j: int| 0 <= j < toks.len() && f[i] == toks[j];
        assert(match toks[j] {
            TokenV::Jump(_) => false,
            TokenV::JumpIfZero(_) => false,
            TokenV::JumpIfNegative(_) => false,
            _ => true,
        });
        assert(is_semantic(f[i]));
    }
}

/// Compilation is deterministic: what a stream without jumps compiles to
/// is one fixed program, so compiling twice yields identical programs.
pub proof fn lemma_compile_deterministic(
    toks: Seq<TokenV>,
    p1: Seq<Instruction>,
    p2: Seq<Instruction>,
)
    requires
        no_jumps(toks),
        compile_spec(toks) == Some(p1),
        compile_spec(toks) == Some(p2),
    ensures
        p1 == p2,
{
}

/// Where a jump's target is the last definition of `name` in the filtered
/// stream: that slot holds the definition, no later slot defines `name`
/// again, and the compiled program keeps a `NoOp` there, so that jumping
/// to it continues with the instruction that follows it.
pub open spec fn targets_last_definition(toks: Seq<TokenV>, name: Seq<char>, t: int) -> bool {
    let f = filter_semantic(toks);
    &&& 0 <= t < f.len()
    &&& f[t] == TokenV::LabelDefinition(name)
    &&& (forall|j: int| t < j < f.len() ==> f[j] != TokenV::LabelDefinition(name))
    &&& compile_spec(toks)->0[t] == Instruction::NoOp
}

/// Every jump of a compiled program targets the slot of the last
/// definition of its label in the filtered stream.
pub proof fn lemma_jump_targets_resolved(toks: Seq<TokenV>, i: int)
    requires
        compile_spec(toks) is Some,
        filter_semantic(toks).len() <= usize::MAX,
        0 <= i < filter_semantic(toks).len(),
    ensures
        filter_semantic(toks)[i] matches TokenV::Jump(name) ==> (compile_spec(toks)->0[i]
            matches Instruction::Jump(t) && targets_last_definition(toks, name, t as int)),
        filter_semantic(toks)[i] matches TokenV::JumpIfZero(name) ==> (compile_spec(toks)->0[i]
            matches Instruction::JumpIfZero(t) && targets_last_definition(toks, name, t as int)),
        filter_semantic(toks)[i] matches TokenV::JumpIfNegative(name) ==> (compile_spec(
            toks,
        )->0[i] matches Instruction::JumpIfNegative(t) && targets_last_definition(
            toks,
            name,
            t as int,
        )),
{
    let f = filter_semantic(toks);
    let p = compile_spec(toks)->0;
    assert(lower_token(f, f[i]) is Some);
    assert(p[i] == lower_token(f, f[i])->0);
    match f[i] {
        TokenV::Jump(name) => {
            lemma_resolve_label_last(f, name);
            let t = resolve_label(f, name)->0;
            assert(lower_token(f, f[t]) is Some);
            assert(p[t] == lower_token(f, f[t])->0);
        },
        TokenV::JumpIfZero(name) => {
            lemma_resolve_label_last(f, name);
            let t = resolve_label(f, name)->0;
            assert(lower_token(f, f[t]) is Some);
            assert(p[t] == lower_token(f, f[t])->0);
        },
        TokenV::JumpIfNegative(name) => {
            lemma_resolve_label_last(f, name);
            let t = resolve_label(f, name)->0;
            assert(lower_token(f, f[t]) is Some);
            assert(p[t] == lower_token(f, f[t])->0);
        },
        _ => {},
    }
}

/// Compiled programs are well formed: every jump target the compiler
/// resolves is the index of a label definition inside the filtered stream,
/// so it lands inside the program.
pub proof fn lemma_compile_spec_wf(toks: Seq<TokenV>)
    requires
        compile_spec(toks) is Some,
        filter_semantic(toks).len() <= usize::MAX,
    ensures
        program_wf(compile_spec(toks)->0),
        compile_spec(toks)->0.len() == filter_semantic(toks).len(),
{
    let f = filter_semantic(toks);
    let p = compile_spec(toks)->0;
    assert forall|k: int| 0 <= k < p.len() implies match #[trigger] p[k] {
        Instruction::Jump(t) => t < p.len(),
        Instruction::JumpIfZero(t) => t < p.len(),
        Instruction::JumpIfNegative(t) => t < p.len(),
        _ => true,
    } by {
        assert(lower_token(f, f[k]) is Some);
        match f[k] {
            TokenV::Jump(name) => {
                lemma_resolve_label_last(f, name);
            },
            TokenV::JumpIfZero(name) => {
                lemma_resolve_label_last(f, name);
            },
            TokenV::JumpIfNegative(name) => {
                lemma_resolve_label_last(f, name);
            },
            _ => {},
        }
    }
}

} // verus!

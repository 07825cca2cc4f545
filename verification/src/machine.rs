//! The virtual machine: clamped numbers, tiles, the register file, compiled
//! instructions, and step execution with its failure taxonomy.

use vstd::prelude::*;

use crate::parser::Register;

verus! {

/// Everything a single machine step can report. `EndOfProgram` doubles as
/// the normal halt signal (input exhausted on `Inbox`, or the program
/// counter ran past the last instruction) and is treated as success by
/// `Machine::run`; every other variant is a genuine failure.
#[derive(Debug, Copy, Clone, PartialEq, Eq)]
pub enum StepError {
    EndOfProgram,
    IndirectThroughNil,
    IndirectThroughNegative,
    IndirectThroughLetter,
    OutputNil,
    CopyFromNil,
    CopyToNil,
    BumpNil,
    BumpLetter,
    AddWithNil,
    AddToNil,
    AddWithLetter,
    SubFromNil,
    SubWithNil,
    SubCrossTypes,
    JumpZeroNil,
    JumpNegativeNil,
    Underflow,
    Overflow,
}

/// A machine integer, kept within `[-999, 999]` by every operation that
/// produces one.
#[derive(Debug, Copy, Clone, PartialEq, Eq)]
pub struct NumberValue(i16);

impl NumberValue {
    #[verifier::type_invariant]
    spec fn type_inv(self) -> bool {
        -999 <= self.0 <= 999
    }

    /// The mathematical value of this number.
    pub closed spec fn as_int(self) -> int {
        self.0 as int
    }

    /// Admit `v` as a machine number, or report which clamping bound it
    /// breaches; the only way a number comes into being.
    pub fn clamp(v: i16) -> (r: Result<NumberValue, StepError>)
        ensures
            r == clamp_spec(v as int),
    {
        if v > 999 {
            Err(StepError::Overflow)
        } else if v < -999 {
            Err(StepError::Underflow)
        } else {
            Ok(NumberValue(v))
        }
    }

    /// A letter's character code as a machine number; codes above 999
    /// overflow, exactly as an out-of-range integer would.
    pub fn from_char(c: char) -> (r: Result<NumberValue, StepError>)
        ensures
            r == clamp_spec(c as int),
    {
        let code = c as u32;
        if code > 999 {
            Err(StepError::Overflow)
        } else {
            Ok(NumberValue(code as i16))
        }
    }

    pub fn add(self, other: NumberValue) -> (r: Result<NumberValue, StepError>)
        ensures
            r == clamp_spec(self.as_int() + other.as_int()),
    {
        proof {
            use_type_invariant(self);
            use_type_invariant(other);
        }
        NumberValue::clamp(self.0 + other.0)
    }

    pub fn sub(self, other: NumberValue) -> (r: Result<NumberValue, StepError>)
        ensures
            r == clamp_spec(self.as_int() - other.as_int()),
    {
        proof {
            use_type_invariant(self);
            use_type_invariant(other);
        }
        NumberValue::clamp(self.0 - other.0)
    }

    pub fn is_zero(self) -> (r: bool)
        ensures
            r == (self.as_int() == 0),
    {
        self.0 == 0
    }

    pub fn is_negative(self) -> (r: bool)
        ensures
            r == (self.as_int() < 0),
    {
        self.0 < 0
    }

    pub fn increment(self) -> (r: Result<NumberValue, StepError>)
        ensures
            r == clamp_spec(self.as_int() + 1),
    {
        proof {
            use_type_invariant(self);
        }
        NumberValue::clamp(self.0 + 1)
    }

    pub fn decrement(self) -> (r: Result<NumberValue, StepError>)
        ensures
            r == clamp_spec(self.as_int() - 1),
    {
        proof {
            use_type_invariant(self);
        }
        NumberValue::clamp(self.0 - 1)
    }

    /// The low byte of a non-negative number, as a register index.
    pub fn into_u8(self) -> (r: u8)
        requires
            self.as_int() >= 0,
        ensures
            r == self.as_int() % 256,
    {
        proof {
            use_type_invariant(self);
        }
        (self.0 % 256) as u8
    }
}

/// What a successfully clamped operation on `v` yields: `v` itself inside
/// the range, `Overflow` above it, `Underflow` below it.
pub open spec fn clamp_spec(v: int) -> Result<NumberValue, StepError> {
    if v > 999 {
        Err(StepError::Overflow)
    } else if v < -999 {
        Err(StepError::Underflow)
    } else {
        Ok(number_value(v))
    }
}

/// The machine number whose value is `v`; meaningful for `v` within the
/// clamping range.
pub closed spec fn number_value(v: int) -> NumberValue {
    NumberValue(v as i16)
}

/// Within the clamping range, `number_value` carries its argument
/// exactly.
pub proof fn lemma_number_value_as_int(v: int)
    requires
        -999 <= v <= 999,
    ensures
        number_value(v).as_int() == v,
{
}

/// The single value domain of the machine: a clamped number or a letter.
#[derive(Debug, Copy, Clone, PartialEq, Eq)]
pub enum Tile {
    Number(NumberValue),
    Letter(char),
}

/// The mathematical value of a `Tile`.
pub ghost enum TileV {
    Number(int),
    Letter(char),
}

impl View for Tile {
    type V = TileV;

    open spec fn view(&self) -> TileV {
        match self {
            Tile::Number(n) => TileV::Number(n.as_int()),
            Tile::Letter(c) => TileV::Letter(*c),
        }
    }
}

impl Tile {
    /// A number tile; the value must already lie within the clamping range.
    pub fn num(i: i16) -> (r: Tile)
        requires
            -999 <= i <= 999,
        ensures
            r@ == TileV::Number(i as int),
    {
        Tile::Number(NumberValue::clamp(i).unwrap())
    }
}

/// The value of one tile.
pub open spec fn tile_value(t: Tile) -> TileV {
    t@
}

/// The value sequence of a sequence of tiles.
pub open spec fn tiles_view(s: Seq<Tile>) -> Seq<TileV> {
    Seq::new(s.len(), |i: int| tile_value(s[i]))
}

/// One compiled instruction. Jump targets are absolute indices into the
/// program that contains the instruction.
#[derive(Debug, Copy, Clone, PartialEq, Eq)]
pub enum Instruction {
    Inbox,
    Outbox,
    CopyFrom(Register),
    CopyTo(Register),
    BumpUp(Register),
    BumpDown(Register),
    Add(Register),
    Sub(Register),
    Jump(usize),
    JumpIfZero(usize),
    JumpIfNegative(usize),
    NoOp,
}

impl Instruction {
    /// Whether the instruction counts towards a program's size statistic;
    /// `NoOp` only keeps a label's slot and does not.
    pub open spec fn counts_towards_stats_spec(self) -> bool {
        !(self is NoOp)
    }

    pub fn counts_towards_stats(&self) -> (r: bool)
        ensures
            r == self.counts_towards_stats_spec(),
    {
        !matches!(self, Instruction::NoOp)
    }
}

/// An ordered sequence of instructions, produced once by the compiler.
#[derive(Debug, Clone)]
pub struct Program(pub Vec<Instruction>);

impl View for Program {
    type V = Seq<Instruction>;

    open spec fn view(&self) -> Seq<Instruction> {
        self.0@
    }
}

/// Every jump target of the program lands inside the program.
pub open spec fn program_wf(p: Seq<Instruction>) -> bool {
    forall|k: int|
        0 <= k < p.len() ==> match #[trigger] p[k] {
            Instruction::Jump(t) => t < p.len(),
            Instruction::JumpIfZero(t) => t < p.len(),
            Instruction::JumpIfNegative(t) => t < p.len(),
            _ => true,
        }
}

/// The machine's input and output mailboxes: ordered tile sequences.
pub type Input = Vec<Tile>;

pub type Output = Vec<Tile>;

/// The register file: a sparse mapping from register index to tile.
/// A register without an entry is nil, which is distinct from holding
/// any tile.
#[derive(Debug, Copy, Clone)]
pub struct Registers {
    slots: [Option<Tile>; 256],
}

impl View for Registers {
    type V = Map<int, TileV>;

    closed spec fn view(&self) -> Map<int, TileV> {
        Map::new(
            |i: int| 0 <= i < 256 && self.slots@[i] is Some,
            |i: int| stored_tile(self.slots@[i]),
        )
    }
}

/// The value of the tile a slot stores; meaningful only for filled slots.
spec fn stored_tile(slot: Option<Tile>) -> TileV {
    match slot {
        Some(t) => t@,
        None => arbitrary(),
    }
}

impl Registers {
    /// An empty register file: every register is nil.
    pub fn new() -> (r: Registers)
        ensures
            r@ == Map::<int, TileV>::empty(),
    {
        let r = Registers { slots: [None; 256] };
        proof {
            assert(r@ =~= Map::<int, TileV>::empty());
        }
        r
    }

    /// Store `t` in register `idx`, replacing whatever was there.
    pub fn insert(&mut self, idx: u8, t: Tile)
        ensures
            final(self)@ == old(self)@.insert(idx as int, t@),
    {
        self.slots[idx as usize] = Some(t);
        proof {
            assert(self@ =~= old(self)@.insert(idx as int, t@));
        }
    }

    /// The tile register `idx` holds, or `None` when the register is nil.
    pub fn get(&self, idx: u8) -> (r: Option<Tile>)
        ensures
            r is Some <==> self@.contains_key(idx as int),
            r matches Some(t) ==> self@[idx as int] == t@,
    {
        self.slots[idx as usize]
    }
}

/// The value of an accumulator: the tile it holds, if any.
pub open spec fn acc_view(o: Option<Tile>) -> Option<TileV> {
    match o {
        Some(t) => Some(t@),
        None => None,
    }
}

/// The whole observable state of a machine: its program, the remaining
/// input, the output produced so far, the program counter, the accumulator
/// and the register file.
#[verifier::ext_equal]
pub ghost struct MachineView {
    pub program: Seq<Instruction>,
    pub input: Seq<TileV>,
    pub output: Seq<TileV>,
    pub pc: int,
    pub acc: Option<TileV>,
    pub regs: Map<int, TileV>,
}

/// Resolve a register operand against the register file: a direct operand
/// names its register; an indirect operand reads its register, which must
/// hold a non-negative number, whose low byte names the target register.
pub open spec fn deref_spec(regs: Map<int, TileV>, r: Register) -> Result<int, StepError> {
    match r {
        Register::Direct(i) => Ok(i as int),
        Register::Indirect(i) => {
            if !regs.contains_key(i as int) {
                Err(StepError::IndirectThroughNil)
            } else {
                match regs[i as int] {
                    TileV::Number(v) => {
                        if v < 0 {
                            Err(StepError::IndirectThroughNegative)
                        } else {
                            Ok(v % 256)
                        }
                    },
                    TileV::Letter(_) => Err(StepError::IndirectThroughLetter),
                }
            }
        },
    }
}

/// Step the program counter past an instruction that does not jump:
/// running off the end of the program reports `EndOfProgram`, the
/// machine's normal halt signal.
pub open spec fn advance_spec(m: MachineView) -> (MachineView, Result<(), StepError>) {
    let m2 = MachineView { pc: m.pc + 1, ..m };
    if m.pc + 1 >= m.program.len() {
        (m2, Err(StepError::EndOfProgram))
    } else {
        (m2, Ok(()))
    }
}

/// What one `Machine::step` does: the successor state and the step's
/// result, as a function of the current state. Meaningful whenever the
/// program counter indexes into the program.
pub open spec fn step_spec(m: MachineView) -> (MachineView, Result<(), StepError>) {
    match m.program[m.pc] {
        Instruction::Inbox => {
            if m.input.len() == 0 {
                (m, Err(StepError::EndOfProgram))
            } else {
                advance_spec(
                    MachineView { input: m.input.drop_first(), acc: Some(m.input[0]), ..m },
                )
            }
        },
        Instruction::Outbox => {
            match m.acc {
                None => (m, Err(StepError::OutputNil)),
                Some(v) => advance_spec(MachineView { output: m.output.push(v), ..m }),
            }
        },
        Instruction::CopyFrom(r) => {
            match deref_spec(m.regs, r) {
                Err(e) => (m, Err(e)),
                Ok(t) => {
                    if !m.regs.contains_key(t) {
                        (m, Err(StepError::CopyFromNil))
                    } else {
                        advance_spec(MachineView { acc: Some(m.regs[t]), ..m })
                    }
                },
            }
        },
        Instruction::CopyTo(r) => {
            match m.acc {
                None => (m, Err(StepError::CopyToNil)),
                Some(v) => {
                    match deref_spec(m.regs, r) {
                        Err(e) => (m, Err(e)),
                        Ok(t) => advance_spec(MachineView { regs: m.regs.insert(t, v), ..m }),
                    }
                },
            }
        },
        Instruction::BumpUp(r) => bump_spec(m, r, 1),
        Instruction::BumpDown(r) => bump_spec(m, r, -1),
        Instruction::Add(r) => {
            match deref_spec(m.regs, r) {
                Err(e) => (m, Err(e)),
                Ok(t) => {
                    match (m.acc, m.regs.contains_key(t)) {
                        (None, _) => (m, Err(StepError::AddToNil)),
                        (_, false) => (m, Err(StepError::AddWithNil)),
                        (Some(a), true) => {
                            match (a, m.regs[t]) {
                                (TileV::Number(x), TileV::Number(y)) => {
                                    match clamp_spec(x + y) {
                                        Err(e) => (m, Err(e)),
                                        Ok(n) => advance_spec(
                                            MachineView {
                                                acc: Some(TileV::Number(n.as_int())),
                                                ..m
                                            },
                                        ),
                                    }
                                },
                                _ => (m, Err(StepError::AddWithLetter)),
                            }
                        },
                    }
                },
            }
        },
        Instruction::Sub(r) => {
            match deref_spec(m.regs, r) {
                Err(e) => (m, Err(e)),
                Ok(t) => {
                    match (m.acc, m.regs.contains_key(t)) {
                        (None, _) => (m, Err(StepError::SubFromNil)),
                        (_, false) => (m, Err(StepError::SubWithNil)),
                        (Some(a), true) => sub_tiles_spec(m, a, m.regs[t]),
                    }
                },
            }
        },
        Instruction::Jump(i) => (MachineView { pc: i as int, ..m }, Ok(())),
        Instruction::JumpIfZero(i) => {
            match m.acc {
                None => (m, Err(StepError::JumpZeroNil)),
                Some(TileV::Number(v)) => {
                    if v == 0 {
                        (MachineView { pc: i as int, ..m }, Ok(()))
                    } else {
                        advance_spec(m)
                    }
                },
                Some(TileV::Letter(_)) => advance_spec(m),
            }
        },
        Instruction::JumpIfNegative(i) => {
            match m.acc {
                None => (m, Err(StepError::JumpNegativeNil)),
                Some(TileV::Number(v)) => {
                    if v < 0 {
                        (MachineView { pc: i as int, ..m }, Ok(()))
                    } else {
                        advance_spec(m)
                    }
                },
                Some(TileV::Letter(_)) => advance_spec(m),
            }
        },
        Instruction::NoOp => advance_spec(m),
    }
}

/// A bump: the resolved register must hold a number, which moves by
/// `delta` under clamping; the result lands in both the register and the
/// accumulator.
pub open spec fn bump_spec(m: MachineView, r: Register, delta: int) -> (
    MachineView,
    Result<(), StepError>,
) {
    match deref_spec(m.regs, r) {
        Err(e) => (m, Err(e)),
        Ok(t) => {
            if !m.regs.contains_key(t) {
                (m, Err(StepError::BumpNil))
            } else {
                match m.regs[t] {
                    TileV::Letter(_) => (m, Err(StepError::BumpLetter)),
                    TileV::Number(v) => {
                        match clamp_spec(v + delta) {
                            Err(e) => (m, Err(e)),
                            Ok(n) => advance_spec(
                                MachineView {
                                    regs: m.regs.insert(t, TileV::Number(n.as_int())),
                                    acc: Some(TileV::Number(n.as_int())),
                                    ..m
                                },
                            ),
                        }
                    },
                }
            }
        },
    }
}

/// A subtraction on the accumulator: number minus number, or letter minus
/// letter with both character codes read as numbers first; mixing the two
/// kinds fails, and the difference is clamped.
pub open spec fn sub_tiles_spec(m: MachineView, a: TileV, b: TileV) -> (
    MachineView,
    Result<(), StepError>,
) {
    match (a, b) {
        (TileV::Number(x), TileV::Number(y)) => {
            match clamp_spec(x - y) {
                Err(e) => (m, Err(e)),
                Ok(n) => advance_spec(
                    MachineView { acc: Some(TileV::Number(n.as_int())), ..m },
                ),
            }
        },
        (TileV::Letter(x), TileV::Letter(y)) => {
            match clamp_spec(x as int) {
                Err(e) => (m, Err(e)),
                Ok(xn) => {
                    match clamp_spec(y as int) {
                        Err(e) => (m, Err(e)),
                        Ok(yn) => {
                            match clamp_spec(xn.as_int() - yn.as_int()) {
                                Err(e) => (m, Err(e)),
                                Ok(n) => advance_spec(
                                    MachineView { acc: Some(TileV::Number(n.as_int())), ..m },
                                ),
                            }
                        },
                    }
                },
            }
        },
        _ => (m, Err(StepError::SubCrossTypes)),
    }
}

/// The machine after `n` attempted steps from `m`: its state, and `None`
/// while it is still running, or `Some` of the first stop reason, after
/// which the state no longer changes.
pub open spec fn run_steps(m: MachineView, n: nat) -> (MachineView, Option<StepError>)
    decreases n,
{
    if n == 0 {
        (m, None)
    } else {
        let prev = run_steps(m, (n - 1) as nat);
        match prev.1 {
            Some(_) => prev,
            None => {
                let s = step_spec(prev.0);
                match s.1 {
                    Ok(_) => (s.0, None),
                    Err(e) => (s.0, Some(e)),
                }
            },
        }
    }
}

/// Once stopped, a run's state and stop reason never change again.
pub proof fn lemma_run_steps_stable(m: MachineView, n: nat, n2: nat)
    requires
        n <= n2,
        run_steps(m, n).1 is Some,
    ensures
        run_steps(m, n2) == run_steps(m, n),
    decreases n2,
{
    if n2 > n {
        lemma_run_steps_stable(m, n, (n2 - 1) as nat);
    }
}

/// A run that is still going after `k` steps stops, if at all, only
/// strictly later.
pub proof fn lemma_run_steps_stops_later(m: MachineView, k: nat, stop: nat)
    requires
        run_steps(m, k).1 is None,
        run_steps(m, stop).1 is Some,
    ensures
        k < stop,
{
    if k >= stop {
        lemma_run_steps_stable(m, stop, k);
    }
}

/// The stop reason a result of `Machine::run` stands for: `Ok` stands for
/// the `EndOfProgram` halt signal, an error for itself.
pub open spec fn run_stop(r: Result<(), StepError>) -> StepError {
    match r {
        Ok(_) => StepError::EndOfProgram,
        Err(e) => e,
    }
}

/// A step that continues keeps the program word for word and leaves the
/// program counter on an instruction: straight-line steps stop at the
/// program's end instead of continuing, and a program whose jumps all land
/// inside it cannot escape it.
pub proof fn lemma_step_spec_ok_bounds(m: MachineView)
    requires
        0 <= m.pc < m.program.len(),
        program_wf(m.program),
        step_spec(m).1 is Ok,
    ensures
        0 <= step_spec(m).0.pc < step_spec(m).0.program.len(),
        step_spec(m).0.program == m.program,
{
    assert(match m.program[m.pc] {
        Instruction::Jump(t) => t < m.program.len(),
        Instruction::JumpIfZero(t) => t < m.program.len(),
        Instruction::JumpIfNegative(t) => t < m.program.len(),
        _ => true,
    });
}

/// A tile value the machine may hold: a number lies within the clamping
/// range; any letter does.
pub open spec fn tile_wf(t: TileV) -> bool {
    match t {
        TileV::Number(v) => -999 <= v <= 999,
        TileV::Letter(_) => true,
    }
}

/// Every tile the machine holds, in the input, the output, the registers
/// and the accumulator, lies within the clamping range.
pub open spec fn machine_tiles_wf(m: MachineView) -> bool {
    &&& (forall|i: int| 0 <= i < m.input.len() ==> tile_wf(#[trigger] m.input[i]))
    &&& (forall|i: int| 0 <= i < m.output.len() ==> tile_wf(#[trigger] m.output[i]))
    &&& (forall|k: int| m.regs.dom().contains(k) ==> tile_wf(#[trigger] m.regs[k]))
    &&& (m.acc matches Some(t) ==> tile_wf(t))
}

/// The clamping rule: an operation whose mathematical result lies within
/// `[-999, 999]` yields exactly that result; above the range it fails
/// with `Overflow`, below it with `Underflow`.
pub proof fn lemma_clamp_range(v: int)
    ensures
        -999 <= v <= 999 ==> (clamp_spec(v) matches Ok(n) && n.as_int() == v),
        v > 999 ==> clamp_spec(v) == Err::<NumberValue, StepError>(StepError::Overflow),
        v < -999 ==> clamp_spec(v) == Err::<NumberValue, StepError>(StepError::Underflow),
{
    if -999 <= v <= 999 {
        lemma_number_value_as_int(v);
    }
}

/// The clamping invariant: a step of a machine whose tiles all lie within
/// the clamping range leaves every tile within it; in particular no
/// arithmetic ever stores a number outside `[-999, 999]`.
pub proof fn lemma_step_preserves_clamping(m: MachineView)
    requires
        0 <= m.pc < m.program.len(),
        machine_tiles_wf(m),
    ensures
        machine_tiles_wf(step_spec(m).0),
{
    let post = step_spec(m).0;
    match m.program[m.pc] {
        Instruction::Inbox => {
            if m.input.len() > 0 {
                assert(tile_wf(m.input[0]));
                assert(forall|i: int|
                    0 <= i < post.input.len() ==> tile_wf(#[trigger] post.input[i]));
            }
        },
        Instruction::Outbox => {
            match m.acc {
                Some(v) => {
                    assert(forall|i: int|
                        0 <= i < post.output.len() ==> tile_wf(#[trigger] post.output[i]));
                },
                None => {},
            }
        },
        Instruction::BumpUp(r) => {
            lemma_bump_preserves_clamping(m, r, 1);
        },
        Instruction::BumpDown(r) => {
            lemma_bump_preserves_clamping(m, r, -1);
        },
        Instruction::Add(r) => {
            match deref_spec(m.regs, r) {
                Ok(t) => {
                    if m.acc is Some && m.regs.contains_key(t) {
                        match (m.acc->0, m.regs[t]) {
                            (TileV::Number(x), TileV::Number(y)) => {
                                lemma_clamp_range(x + y);
                            },
                            _ => {},
                        }
                    }
                },
                Err(_) => {},
            }
        },
        Instruction::Sub(r) => {
            match deref_spec(m.regs, r) {
                Ok(t) => {
                    if m.acc is Some && m.regs.contains_key(t) {
                        match (m.acc->0, m.regs[t]) {
                            (TileV::Number(x), TileV::Number(y)) => {
                                lemma_clamp_range(x - y);
                            },
                            (TileV::Letter(x), TileV::Letter(y)) => {
                                lemma_clamp_range(x as int);
                                lemma_clamp_range(y as int);
                                if 0 <= x as int <= 999 && 0 <= y as int <= 999 {
                                    lemma_clamp_range(
                                        clamp_spec(x as int)->Ok_0.as_int() - clamp_spec(
                                            y as int,
                                        )->Ok_0.as_int(),
                                    );
                                }
                            },
                            _ => {},
                        }
                    }
                },
                Err(_) => {},
            }
        },
        _ => {},
    }
}

/// A bump stores and holds only clamped numbers.
proof fn lemma_bump_preserves_clamping(m: MachineView, r: Register, delta: int)
    requires
        0 <= m.pc < m.program.len(),
        machine_tiles_wf(m),
    ensures
        machine_tiles_wf(bump_spec(m, r, delta).0),
{
    let post = bump_spec(m, r, delta).0;
    match deref_spec(m.regs, r) {
        Ok(t) => {
            if m.regs.contains_key(t) {
                match m.regs[t] {
                    TileV::Number(v) => {
                        lemma_clamp_range(v + delta);
                        match clamp_spec(v + delta) {
                            Ok(n) => {
                                assert(forall|k: int|
                                    post.regs.dom().contains(k) ==> tile_wf(
                                        #[trigger] post.regs[k],
                                    ));
                            },
                            Err(_) => {},
                        }
                    },
                    TileV::Letter(_) => {},
                }
            }
        },
        Err(_) => {},
    }
}

/// Any step failure but the `EndOfProgram` halt signal leaves the machine
/// exactly as it was: the program counter, the accumulator, the registers
/// and both mailboxes are untouched.
pub proof fn lemma_failed_step_keeps_state(m: MachineView)
    requires
        0 <= m.pc < m.program.len(),
        step_spec(m).1 is Err,
        !(step_spec(m).1 matches Err(e) && e == StepError::EndOfProgram),
    ensures
        step_spec(m).0 == m,
{
}

/// The indirect-addressing rule: `Indirect(r)` resolves only when
/// register `r` holds a non-negative number, whose low byte names the
/// target; for a number that itself is a register index, the target is
/// exactly that number. Each way the rule can fail names its own error.
pub proof fn lemma_indirect_addressing(regs: Map<int, TileV>, r: u8)
    ensures
        match deref_spec(regs, Register::Indirect(r)) {
            Ok(t) => regs.contains_key(r as int) && (regs[r as int] matches TileV::Number(v)
                && v >= 0 && t == v % 256 && (v <= 255 ==> t == v)),
            Err(e) => match e {
                StepError::IndirectThroughNil => !regs.contains_key(r as int),
                StepError::IndirectThroughLetter => regs.contains_key(r as int) && regs[r as int]
                    is Letter,
                StepError::IndirectThroughNegative => regs.contains_key(r as int) && (regs[r
                    as int] matches TileV::Number(v) && v < 0),
                _ => false,
            },
        },
{
}

/// A machine mid-run: the program, what is left of the input, the output
/// so far, the program counter, the accumulator and the register file.
#[derive(Debug)]
pub struct Machine {
    program: Program,
    input: Input,
    output: Output,
    pc: usize,
    accumulator: Option<Tile>,
    registers: Registers,
}

impl View for Machine {
    type V = MachineView;

    closed spec fn view(&self) -> MachineView {
        MachineView {
            program: self.program@,
            input: tiles_view(self.input@),
            output: tiles_view(self.output@),
            pc: self.pc as int,
            acc: acc_view(self.accumulator),
            regs: self.registers@,
        }
    }
}

impl Machine {
    /// A machine about to run `program` on `input` with the given initial
    /// register file: the program counter starts at the first instruction,
    /// the accumulator empty, the output empty.
    pub fn new(program: Program, input: Input, registers: Registers) -> (m: Machine)
        ensures
            m@ == (MachineView {
                program: program@,
                input: tiles_view(input@),
                output: Seq::<TileV>::empty(),
                pc: 0,
                acc: None,
                regs: registers@,
            }),
    {
        let m = Machine {
            program,
            input,
            output: Vec::new(),
            pc: 0,
            accumulator: None,
            registers,
        };
        proof {
            assert(tiles_view(Seq::<Tile>::empty()) =~= Seq::<TileV>::empty());
        }
        m
    }

    /// Surrender the output produced so far.
    pub fn into_output(self) -> (out: Output)
        ensures
            tiles_view(out@) == self@.output,
    {
        self.output
    }

    /// Resolve a register operand against the current register file.
    fn deref_target(&self, r: Register) -> (res: Result<u8, StepError>)
        ensures
            match res {
                Ok(b) => deref_spec(self@.regs, r) == Ok::<int, StepError>(b as int),
                Err(e) => deref_spec(self@.regs, r) == Err::<int, StepError>(e),
            },
    {
        match r {
            Register::Direct(i) => Ok(i),
            Register::Indirect(i) => {
                match self.registers.get(i) {
                    None => Err(StepError::IndirectThroughNil),
                    Some(Tile::Number(v)) => {
                        if v.is_negative() {
                            Err(StepError::IndirectThroughNegative)
                        } else {
                            Ok(v.into_u8())
                        }
                    },
                    Some(Tile::Letter(_)) => Err(StepError::IndirectThroughLetter),
                }
            },
        }
    }

    /// Step the program counter past a non-jumping instruction, reporting
    /// `EndOfProgram` when it runs off the end of the program.
    fn advance(&mut self) -> (r: Result<(), StepError>)
        requires
            0 <= old(self)@.pc < old(self)@.program.len(),
        ensures
            final(self)@ == advance_spec(old(self)@).0,
            r == advance_spec(old(self)@).1,
    {
        let n = self.program.0.len();
        assert(self.pc < n);
        self.pc = self.pc + 1;
        if self.pc >= n {
            Err(StepError::EndOfProgram)
        } else {
            Ok(())
        }
    }

    fn step_inbox(&mut self) -> (r: Result<(), StepError>)
        requires
            0 <= old(self)@.pc < old(self)@.program.len(),
            old(self)@.program[old(self)@.pc] is Inbox,
        ensures
            final(self)@ == step_spec(old(self)@).0,
            r == step_spec(old(self)@).1,
    {
        if self.input.is_empty() {
            return Err(StepError::EndOfProgram);
        }
        let v = self.input.remove(0);
        self.accumulator = Some(v);
        proof {
            assert(tiles_view(self.input@) =~= old(self)@.input.drop_first());
            assert(self@ =~= (MachineView {
                input: old(self)@.input.drop_first(),
                acc: Some(old(self)@.input[0]),
                ..old(self)@
            }));
        }
        self.advance()
    }

    fn step_outbox(&mut self) -> (r: Result<(), StepError>)
        requires
            0 <= old(self)@.pc < old(self)@.program.len(),
            old(self)@.program[old(self)@.pc] is Outbox,
        ensures
            final(self)@ == step_spec(old(self)@).0,
            r == step_spec(old(self)@).1,
    {
        match self.accumulator {
            Some(v) => {
                self.output.push(v);
                proof {
                    assert(tiles_view(self.output@) =~= old(self)@.output.push(v@));
                    assert(self@ =~= (MachineView {
                        output: old(self)@.output.push(v@),
                        ..old(self)@
                    }));
                }
                self.advance()
            },
            None => Err(StepError::OutputNil),
        }
    }

    fn step_copy_from(&mut self, r: Register) -> (res: Result<(), StepError>)
        requires
            0 <= old(self)@.pc < old(self)@.program.len(),
            old(self)@.program[old(self)@.pc] == Instruction::CopyFrom(r),
        ensures
            final(self)@ == step_spec(old(self)@).0,
            res == step_spec(old(self)@).1,
    {
        let t = match self.deref_target(r) {
            Ok(t) => t,
            Err(e) => {
                return Err(e);
            },
        };
        let v = match self.registers.get(t) {
            Some(v) => v,
            None => {
                return Err(StepError::CopyFromNil);
            },
        };
        self.accumulator = Some(v);
        proof {
            assert(self@ =~= (MachineView { acc: Some(old(self)@.regs[t as int]), ..old(self)@ }));
        }
        self.advance()
    }

    fn step_copy_to(&mut self, r: Register) -> (res: Result<(), StepError>)
        requires
            0 <= old(self)@.pc < old(self)@.program.len(),
            old(self)@.program[old(self)@.pc] == Instruction::CopyTo(r),
        ensures
            final(self)@ == step_spec(old(self)@).0,
            res == step_spec(old(self)@).1,
    {
        match self.accumulator {
            Some(v) => {
                let t = match self.deref_target(r) {
                    Ok(t) => t,
                    Err(e) => {
                        return Err(e);
                    },
                };
                self.registers.insert(t, v);
                proof {
                    assert(self@ =~= (MachineView {
                        regs: old(self)@.regs.insert(t as int, v@),
                        ..old(self)@
                    }));
                }
                self.advance()
            },
            None => Err(StepError::CopyToNil),
        }
    }

    fn step_bump(&mut self, r: Register, up: bool) -> (res: Result<(), StepError>)
        requires
            0 <= old(self)@.pc < old(self)@.program.len(),
            up ==> old(self)@.program[old(self)@.pc] == Instruction::BumpUp(r),
            !up ==> old(self)@.program[old(self)@.pc] == Instruction::BumpDown(r),
        ensures
            final(self)@ == step_spec(old(self)@).0,
            res == step_spec(old(self)@).1,
    {
        let t = match self.deref_target(r) {
            Ok(t) => t,
            Err(e) => {
                return Err(e);
            },
        };
        let v = match self.registers.get(t) {
            None => {
                return Err(StepError::BumpNil);
            },
            Some(Tile::Letter(_)) => {
                return Err(StepError::BumpLetter);
            },
            Some(Tile::Number(v)) => {
                let bumped = if up {
                    v.increment()
                } else {
                    v.decrement()
                };
                match bumped {
                    Ok(n) => n,
                    Err(e) => {
                        return Err(e);
                    },
                }
            },
        };
        self.registers.insert(t, Tile::Number(v));
        self.accumulator = Some(Tile::Number(v));
        proof {
            assert(self@ =~= (MachineView {
                regs: old(self)@.regs.insert(t as int, TileV::Number(v.as_int())),
                acc: Some(TileV::Number(v.as_int())),
                ..old(self)@
            }));
        }
        self.advance()
    }

    fn step_add(&mut self, r: Register) -> (res: Result<(), StepError>)
        requires
            0 <= old(self)@.pc < old(self)@.program.len(),
            old(self)@.program[old(self)@.pc] == Instruction::Add(r),
        ensures
            final(self)@ == step_spec(old(self)@).0,
            res == step_spec(old(self)@).1,
    {
        let t = match self.deref_target(r) {
            Ok(t) => t,
            Err(e) => {
                return Err(e);
            },
        };
        let v = match (self.accumulator, self.registers.get(t)) {
            (None, _) => {
                return Err(StepError::AddToNil);
            },
            (_, None) => {
                return Err(StepError::AddWithNil);
            },
            (Some(Tile::Number(a)), Some(Tile::Number(v))) => {
                match a.add(v) {
                    Ok(n) => n,
                    Err(e) => {
                        return Err(e);
                    },
                }
            },
            _ => {
                return Err(StepError::AddWithLetter);
            },
        };
        self.accumulator = Some(Tile::Number(v));
        proof {
            assert(self@ =~= (MachineView { acc: Some(TileV::Number(v.as_int())), ..old(self)@ }));
        }
        self.advance()
    }

    fn step_sub(&mut self, r: Register) -> (res: Result<(), StepError>)
        requires
            0 <= old(self)@.pc < old(self)@.program.len(),
            old(self)@.program[old(self)@.pc] == Instruction::Sub(r),
        ensures
            final(self)@ == step_spec(old(self)@).0,
            res == step_spec(old(self)@).1,
    {
        let t = match self.deref_target(r) {
            Ok(t) => t,
            Err(e) => {
                return Err(e);
            },
        };
        let v = match (self.accumulator, self.registers.get(t)) {
            (None, _) => {
                return Err(StepError::SubFromNil);
            },
            (_, None) => {
                return Err(StepError::SubWithNil);
            },
            (Some(Tile::Number(a)), Some(Tile::Number(v))) => {
                match a.sub(v) {
                    Ok(n) => n,
                    Err(e) => {
                        return Err(e);
                    },
                }
            },
            (Some(Tile::Letter(a)), Some(Tile::Letter(v))) => {
                let an = match NumberValue::from_char(a) {
                    Ok(n) => n,
                    Err(e) => {
                        return Err(e);
                    },
                };
                let vn = match NumberValue::from_char(v) {
                    Ok(n) => n,
                    Err(e) => {
                        return Err(e);
                    },
                };
                match an.sub(vn) {
                    Ok(n) => n,
                    Err(e) => {
                        return Err(e);
                    },
                }
            },
            _ => {
                return Err(StepError::SubCrossTypes);
            },
        };
        self.accumulator = Some(Tile::Number(v));
        proof {
            assert(self@ =~= (MachineView { acc: Some(TileV::Number(v.as_int())), ..old(self)@ }));
        }
        self.advance()
    }

    /// Step repeatedly until the machine stops. `EndOfProgram` is the
    /// normal halt and comes back as `Ok`; every other stop reason comes
    /// back as the error it is. The final state and result are those of
    /// the finite run of `step_spec` applications from the initial state.
    /// The machine must stop after some finite number of steps: the stop
    /// count bounds the loop, so that every verified function provably
    /// terminates.
    pub fn run(&mut self) -> (r: Result<(), StepError>)
        requires
            0 <= old(self)@.pc < old(self)@.program.len(),
            program_wf(old(self)@.program),
            exists|n: nat| (#[trigger] run_steps(old(self)@, n)).1 is Some,
        ensures
            exists|n: nat|
                #[trigger] run_steps(old(self)@, n) == (final(self)@, Some(run_stop(r))),
            r matches Err(e) ==> e != StepError::EndOfProgram,
    {
        let ghost stop: nat = choose|n: nat| (#[trigger] run_steps(old(self)@, n)).1 is Some;
        let ghost mut steps: nat = 0;
        proof {
            assert(run_steps(self@, 0) == (self@, None::<StepError>));
        }
        loop
            invariant
                0 <= self@.pc < self@.program.len(),
                program_wf(self@.program),
                run_steps(old(self)@, steps) == (self@, None::<StepError>),
                run_steps(old(self)@, stop).1 is Some,
                steps < stop,
            decreases stop - steps,
        {
            let ghost pre = self@;
            match self.step() {
                Ok(_) => {
                    proof {
                        lemma_step_spec_ok_bounds(pre);
                        steps = steps + 1;
                        assert(run_steps(old(self)@, steps) == (self@, None::<StepError>));
                        lemma_run_steps_stops_later(old(self)@, steps, stop);
                    }
                },
                Err(e) => {
                    proof {
                        assert(run_steps(old(self)@, steps + 1) == (self@, Some(e)));
                    }
                    match e {
                        StepError::EndOfProgram => {
                            return Ok(());
                        },
                        _ => {
                            return Err(e);
                        },
                    }
                },
            }
        }
    }

    /// Execute the instruction at the program counter, exactly as
    /// `step_spec` describes: on `Ok` the machine continues; on any error
    /// (including the `EndOfProgram` halt signal) it must not be stepped
    /// further.
    pub fn step(&mut self) -> (r: Result<(), StepError>)
        requires
            0 <= old(self)@.pc < old(self)@.program.len(),
        ensures
            final(self)@ == step_spec(old(self)@).0,
            r == step_spec(old(self)@).1,
    {
        let instr = self.program.0[self.pc];
        match instr {
            Instruction::Inbox => self.step_inbox(),
            Instruction::Outbox => self.step_outbox(),
            Instruction::CopyFrom(r) => self.step_copy_from(r),
            Instruction::CopyTo(r) => self.step_copy_to(r),
            Instruction::BumpUp(r) => self.step_bump(r, true),
            Instruction::BumpDown(r) => self.step_bump(r, false),
            Instruction::Add(r) => self.step_add(r),
            Instruction::Sub(r) => self.step_sub(r),
            Instruction::Jump(i) => {
                self.pc = i;
                proof {
                    assert(self@ =~= (MachineView { pc: i as int, ..old(self)@ }));
                }
                Ok(())
            },
            Instruction::JumpIfZero(i) => {
                match self.accumulator {
                    None => Err(StepError::JumpZeroNil),
                    Some(Tile::Number(v)) => {
                        if v.is_zero() {
                            self.pc = i;
                            proof {
                                assert(self@ =~= (MachineView { pc: i as int, ..old(self)@ }));
                            }
                            Ok(())
                        } else {
                            self.advance()
                        }
                    },
                    Some(Tile::Letter(_)) => self.advance(),
                }
            },
            Instruction::JumpIfNegative(i) => {
                match self.accumulator {
                    None => Err(StepError::JumpNegativeNil),
                    Some(Tile::Number(v)) => {
                        if v.is_negative() {
                            self.pc = i;
                            proof {
                                assert(self@ =~= (MachineView { pc: i as int, ..old(self)@ }));
                            }
                            Ok(())
                        } else {
                            self.advance()
                        }
                    },
                    Some(Tile::Letter(_)) => self.advance(),
                }
            },
            Instruction::NoOp => self.advance(),
        }
    }
}

} // verus!

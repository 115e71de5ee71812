//! The stack virtual machine: a bytecode program is a flat vector of `i32`
//! words in which opcodes and their immediate operands are interleaved.
//! The machine state is modelled by the spec-level [`MachineState`] and the
//! one-instruction transition function [`step`]; the executable [`VM`] is
//! proved to follow that model tick by tick.

use vstd::prelude::*;
use vstd::arithmetic::power::pow;
use vstd::math::abs;
use vstd::arithmetic::div_mod::{lemma_div_pos_is_pos, lemma_div_nonincreasing};

verus! {

/// Number of words the operand stack can hold at most.
pub const STACK_SIZE: usize = 256;

/// Registers addressable by bytecode. The machine reserves two further
/// conceptual slots for the instruction pointer and the stack pointer, which
/// this implementation keeps as separate fields of the state.
pub const USER_REGISTERS: usize = 14;

/// The opcodes of the bytecode machine. Their integer encoding is fixed by
/// [`opcode_of`] and is shared between the compiler and the machine.
#[derive(Clone, Copy, Debug, PartialEq, Eq, Structural)]
pub enum Instruction {
    PSH,
    POP,
    ADD,
    SUB,
    MUL,
    DIV,
    SET,
    HLT,
    GET,
    EQ,
    NEQ,
    LSS,
    GTR,
    LEQ,
    GEQ,
    JMZ,
    JMP,
    MOD,
    EXP,
    FLRDIV,
    UNK,
}

/// The reasons the machine can abort a run.
#[derive(Clone, Copy, Debug, PartialEq, Eq, Structural)]
pub enum RuntimeError {
    /// A push was attempted while the stack already held `STACK_SIZE` values.
    StackOverflow,
    /// A pop was attempted on an empty stack.
    StackUnderflow,
    /// An arithmetic instruction produced a value outside `i32`.
    IntegerOverflow,
    /// The divisor of `DIV` or `FLRDIV` was zero.
    DivisionByZero,
    /// The divisor of `MOD` was zero.
    ModulusByZero,
    /// The right operand of `EXP` was negative.
    NegativeExponent,
    /// A `SET` or `GET` immediate was outside `0 .. USER_REGISTERS`.
    InvalidRegister,
    /// An opcode outside the instruction set was fetched.
    InvalidInstruction,
    /// The instruction pointer left the program, or an immediate operand was
    /// missing at the end of the program.
    IpOutOfBounds,
}

/// The fixed numbering of the opcodes inside bytecode programs.
pub open spec fn opcode_of(i: Instruction) -> i32 {
    match i {
        Instruction::PSH => 0,
        Instruction::POP => 1,
        Instruction::ADD => 2,
        Instruction::SUB => 3,
        Instruction::MUL => 4,
        Instruction::DIV => 5,
        Instruction::SET => 6,
        Instruction::HLT => 7,
        Instruction::GET => 8,
        Instruction::EQ => 9,
        Instruction::NEQ => 10,
        Instruction::LSS => 11,
        Instruction::GTR => 12,
        Instruction::LEQ => 13,
        Instruction::GEQ => 14,
        Instruction::JMZ => 15,
        Instruction::JMP => 16,
        Instruction::MOD => 17,
        Instruction::EXP => 18,
        Instruction::FLRDIV => 19,
        Instruction::UNK => 20,
    }
}

/// The opcode of an instruction, as it appears in a bytecode program.
pub fn opcode(i: Instruction) -> (r: i32)
    ensures
        r == opcode_of(i),
{
    match i {
        Instruction::PSH => 0,
        Instruction::POP => 1,
        Instruction::ADD => 2,
        Instruction::SUB => 3,
        Instruction::DIV => 5,
        Instruction::MUL => 4,
        Instruction::SET => 6,
        Instruction::HLT => 7,
        Instruction::GET => 8,
        Instruction::EQ => 9,
        Instruction::NEQ => 10,
        Instruction::LSS => 11,
        Instruction::GTR => 12,
        Instruction::LEQ => 13,
        Instruction::GEQ => 14,
        Instruction::JMZ => 15,
        Instruction::JMP => 16,
        Instruction::MOD => 17,
        Instruction::EXP => 18,
        Instruction::FLRDIV => 19,
        Instruction::UNK => 20,
    }
}

/// Decoding of a bytecode word into an instruction. Words outside the
/// instruction set decode to `UNK`, which the machine rejects at execution
/// time.
pub open spec fn decode(v: i32) -> Instruction {
    if v == 0 {
        Instruction::PSH
    } else if v == 1 {
        Instruction::POP
    } else if v == 2 {
        Instruction::ADD
    } else if v == 3 {
        Instruction::SUB
    } else if v == 4 {
        Instruction::MUL
    } else if v == 5 {
        Instruction::DIV
    } else if v == 6 {
        Instruction::SET
    } else if v == 7 {
        Instruction::HLT
    } else if v == 8 {
        Instruction::GET
    } else if v == 9 {
        Instruction::EQ
    } else if v == 10 {
        Instruction::NEQ
    } else if v == 11 {
        Instruction::LSS
    } else if v == 12 {
        Instruction::GTR
    } else if v == 13 {
        Instruction::LEQ
    } else if v == 14 {
        Instruction::GEQ
    } else if v == 15 {
        Instruction::JMZ
    } else if v == 16 {
        Instruction::JMP
    } else if v == 17 {
        Instruction::MOD
    } else if v == 18 {
        Instruction::EXP
    } else if v == 19 {
        Instruction::FLRDIV
    } else {
        Instruction::UNK
    }
}

/// Executable decoding; agrees with [`decode`].
pub fn decode_op(v: i32) -> (r: Instruction)
    ensures
        r == decode(v),
{
    if v == 0 {
        Instruction::PSH
    } else if v == 1 {
        Instruction::POP
    } else if v == 2 {
        Instruction::ADD
    } else if v == 3 {
        Instruction::SUB
    } else if v == 4 {
        Instruction::MUL
    } else if v == 5 {
        Instruction::DIV
    } else if v == 6 {
        Instruction::SET
    } else if v == 7 {
        Instruction::HLT
    } else if v == 8 {
        Instruction::GET
    } else if v == 9 {
        Instruction::EQ
    } else if v == 10 {
        Instruction::NEQ
    } else if v == 11 {
        Instruction::LSS
    } else if v == 12 {
        Instruction::GTR
    } else if v == 13 {
        Instruction::LEQ
    } else if v == 14 {
        Instruction::GEQ
    } else if v == 15 {
        Instruction::JMZ
    } else if v == 16 {
        Instruction::JMP
    } else if v == 17 {
        Instruction::MOD
    } else if v == 18 {
        Instruction::EXP
    } else if v == 19 {
        Instruction::FLRDIV
    } else {
        Instruction::UNK
    }
}

/// Whether a mathematical integer fits into `i32`.
pub open spec fn fits_i32(v: int) -> bool {
    i32::MIN <= v <= i32::MAX
}

/// Truncating division as Rust's `/` computes it on `i32` (rounds toward
/// zero).
pub open spec fn trunc_div(a: int, b: int) -> int
    recommends
        b != 0,
{
    if a == 0 {
        0
    } else if a > 0 && b > 0 {
        a / b
    } else if a < 0 && b < 0 {
        (a * -1) / (b * -1)
    } else if a < 0 {
        ((a * -1) / b) * -1
    } else {
        (a / (b * -1)) * -1
    }
}

/// Truncating remainder as Rust's `%` computes it on `i32` (sign of the
/// dividend).
pub open spec fn trunc_rem(a: int, b: int) -> int
    recommends
        b != 0,
{
    if a == 0 {
        0
    } else if a > 0 && b > 0 {
        a % b
    } else if a < 0 && b < 0 {
        ((a * -1) % (b * -1)) * -1
    } else if a < 0 {
        ((a * -1) % b) * -1
    } else {
        a % (b * -1)
    }
}

/// Flooring division: rounds toward negative infinity. The `//` operator of
/// the source language uses this semantics.
pub open spec fn floor_div(a: int, b: int) -> int
    recommends
        b != 0,
{
    if trunc_rem(a, b) != 0 && ((a < 0) != (b < 0)) {
        trunc_div(a, b) - 1
    } else {
        trunc_div(a, b)
    }
}

/// The mathematical result of an arithmetic opcode, or the error it raises
/// before any overflow check. `a` is the operand pushed first, `b` the one
/// pushed last.
pub open spec fn arith_op(op: Instruction, a: int, b: int) -> Result<int, RuntimeError>
    recommends
        is_arith(op),
{
    match op {
        Instruction::ADD => Ok(a + b),
        Instruction::SUB => Ok(a - b),
        Instruction::MUL => Ok(a * b),
        Instruction::DIV => if b == 0 {
            Err(RuntimeError::DivisionByZero)
        } else {
            Ok(trunc_div(a, b))
        },
        Instruction::MOD => if b == 0 {
            Err(RuntimeError::ModulusByZero)
        } else if a == i32::MIN as int && b == -1 {
            // the implied quotient overflows, as Rust's checked `%` reports
            Err(RuntimeError::IntegerOverflow)
        } else {
            Ok(trunc_rem(a, b))
        },
        Instruction::EXP => if b < 0 {
            Err(RuntimeError::NegativeExponent)
        } else {
            Ok(pow(a, b as nat))
        },
        Instruction::FLRDIV => if b == 0 {
            Err(RuntimeError::DivisionByZero)
        } else {
            Ok(floor_div(a, b))
        },
        _ => Ok(0),
    }
}

/// The arithmetic opcodes: both operands are popped, the result is pushed.
pub open spec fn is_arith(op: Instruction) -> bool {
    match op {
        Instruction::ADD
        | Instruction::SUB
        | Instruction::MUL
        | Instruction::DIV
        | Instruction::MOD
        | Instruction::EXP
        | Instruction::FLRDIV => true,
        _ => false,
    }
}

/// The comparison opcodes: both operands are popped, `1` or `0` is pushed.
pub open spec fn is_comparison(op: Instruction) -> bool {
    match op {
        Instruction::EQ
        | Instruction::NEQ
        | Instruction::LSS
        | Instruction::GTR
        | Instruction::LEQ
        | Instruction::GEQ => true,
        _ => false,
    }
}

/// The boolean value of a comparison opcode applied to `a` (pushed first) and
/// `b` (pushed last).
pub open spec fn compare_op(op: Instruction, a: i32, b: i32) -> bool
    recommends
        is_comparison(op),
{
    match op {
        Instruction::EQ => a == b,
        Instruction::NEQ => a != b,
        Instruction::LSS => a < b,
        Instruction::GTR => a > b,
        Instruction::LEQ => a <= b,
        Instruction::GEQ => a >= b,
        _ => false,
    }
}

/// The whole observable state of the machine between two ticks. The operand
/// stack holds only the live values; the stack pointer of the concrete
/// machine is `stack.len() - 1`.
pub struct MachineState {
    /// Live operand stack, bottom first.
    pub stack: Seq<i32>,
    /// The `USER_REGISTERS` variable registers.
    pub regs: Seq<i32>,
    /// Index of the next word to execute.
    pub ip: int,
    /// Cleared when `HLT` executes or an error occurs.
    pub running: bool,
    /// Set exactly when the machine aborted.
    pub error: Option<RuntimeError>,
}

/// The state the machine starts a program in.
pub open spec fn machine_init() -> MachineState {
    MachineState {
        stack: Seq::empty(),
        regs: Seq::new(USER_REGISTERS as nat, |i: int| 0i32),
        ip: 0,
        running: true,
        error: None,
    }
}

/// `s`, stopped with error `e`.
pub open spec fn halt_error(s: MachineState, e: RuntimeError) -> MachineState {
    MachineState { running: false, error: Some(e), ..s }
}

/// The immediate operand of the instruction at `s.ip`, if the program still
/// has a word there.
pub open spec fn immediate(prog: Seq<i32>, s: MachineState) -> Option<i32> {
    if s.ip + 1 < prog.len() {
        Some(prog[s.ip + 1])
    } else {
        None
    }
}

/// `s` with `v` pushed and the instruction pointer advanced by `adv`; a full
/// stack aborts the machine instead.
pub open spec fn push_value(s: MachineState, v: i32, adv: int) -> MachineState {
    if s.stack.len() >= STACK_SIZE {
        halt_error(s, RuntimeError::StackOverflow)
    } else {
        MachineState { stack: s.stack.push(v), ip: s.ip + adv, ..s }
    }
}

/// One tick of the machine: fetch, decode, execute. Every failure stops the
/// machine with a typed error; a stopped machine does not move.
pub open spec fn step(prog: Seq<i32>, s: MachineState) -> MachineState {
    if !s.running {
        s
    } else if !(0 <= s.ip < prog.len()) {
        halt_error(s, RuntimeError::IpOutOfBounds)
    } else {
        let op = decode(prog[s.ip]);
        match op {
            Instruction::HLT => MachineState { running: false, ..s },
            Instruction::PSH => match immediate(prog, s) {
                None => halt_error(s, RuntimeError::IpOutOfBounds),
                Some(v) => push_value(s, v, 2),
            },
            Instruction::POP => if s.stack.len() < 1 {
                halt_error(s, RuntimeError::StackUnderflow)
            } else {
                MachineState { stack: s.stack.drop_last(), ip: s.ip + 1, ..s }
            },
            Instruction::SET => match immediate(prog, s) {
                None => halt_error(s, RuntimeError::IpOutOfBounds),
                Some(r) => if !(0 <= r < USER_REGISTERS) {
                    halt_error(s, RuntimeError::InvalidRegister)
                } else if s.stack.len() < 1 {
                    halt_error(s, RuntimeError::StackUnderflow)
                } else {
                    MachineState {
                        stack: s.stack.drop_last(),
                        regs: s.regs.update(r as int, s.stack.last()),
                        ip: s.ip + 2,
                        ..s
                    }
                },
            },
            Instruction::GET => match immediate(prog, s) {
                None => halt_error(s, RuntimeError::IpOutOfBounds),
                Some(r) => if !(0 <= r < USER_REGISTERS) {
                    halt_error(s, RuntimeError::InvalidRegister)
                } else {
                    push_value(s, s.regs[r as int], 2)
                },
            },
            Instruction::JMZ => match immediate(prog, s) {
                None => halt_error(s, RuntimeError::IpOutOfBounds),
                Some(target) => if s.stack.len() < 1 {
                    halt_error(s, RuntimeError::StackUnderflow)
                } else if s.stack.last() == 0 {
                    if target < 0 {
                        halt_error(s, RuntimeError::IpOutOfBounds)
                    } else {
                        MachineState { stack: s.stack.drop_last(), ip: target as int, ..s }
                    }
                } else {
                    MachineState { stack: s.stack.drop_last(), ip: s.ip + 2, ..s }
                },
            },
            Instruction::JMP => match immediate(prog, s) {
                None => halt_error(s, RuntimeError::IpOutOfBounds),
                Some(target) => if target < 0 {
                    halt_error(s, RuntimeError::IpOutOfBounds)
                } else {
                    MachineState { ip: target as int, ..s }
                },
            },
            Instruction::UNK => halt_error(s, RuntimeError::InvalidInstruction),
            _ => if is_arith(op) {
                if s.stack.len() < 2 {
                    halt_error(s, RuntimeError::StackUnderflow)
                } else {
                    let a = s.stack[s.stack.len() - 2] as int;
                    let b = s.stack[s.stack.len() - 1] as int;
                    match arith_op(op, a, b) {
                        Err(e) => halt_error(s, e),
                        Ok(v) => if !fits_i32(v) {
                            halt_error(s, RuntimeError::IntegerOverflow)
                        } else {
                            MachineState {
                                stack: s.stack.drop_last().drop_last().push(v as i32),
                                ip: s.ip + 1,
                                ..s
                            }
                        },
                    }
                }
            } else {
                // the comparison opcodes
                if s.stack.len() < 2 {
                    halt_error(s, RuntimeError::StackUnderflow)
                } else {
                    let a = s.stack[s.stack.len() - 2];
                    let b = s.stack[s.stack.len() - 1];
                    let v: i32 = if compare_op(op, a, b) {
                        1
                    } else {
                        0
                    };
                    MachineState {
                        stack: s.stack.drop_last().drop_last().push(v),
                        ip: s.ip + 1,
                        ..s
                    }
                }
            },
        }
    }
}

/// `n` ticks of the machine from `s`, stopping early once it halts.
pub open spec fn run(prog: Seq<i32>, s: MachineState, n: nat) -> MachineState
    decreases n,
{
    if n == 0 || !s.running {
        s
    } else {
        run(prog, step(prog, s), (n - 1) as nat)
    }
}

/// What a finished run reports: the error if one occurred, otherwise the top
/// of the stack if the program left a value there.
pub open spec fn machine_outcome(s: MachineState) -> Result<Option<i32>, RuntimeError> {
    match s.error {
        Some(e) => Err(e),
        None => if s.stack.len() > 0 {
            Ok(Some(s.stack.last()))
        } else {
            Ok(None)
        },
    }
}

proof fn lemma_abs_mul(x: int, y: int)
    ensures
        abs(x * y) == abs(x) * abs(y),
{
    if x >= 0 && y >= 0 {
        assert(x * y >= 0) by (nonlinear_arith)
            requires
                x >= 0,
                y >= 0,
        ;
    } else if x >= 0 && y < 0 {
        assert(x * y <= 0 && -(x * y) == x * (-y)) by (nonlinear_arith)
            requires
                x >= 0,
                y < 0,
        ;
    } else if x < 0 && y >= 0 {
        assert(x * y <= 0 && -(x * y) == (-x) * y) by (nonlinear_arith)
            requires
                x < 0,
                y >= 0,
        ;
    } else {
        assert(x * y >= 0 && x * y == (-x) * (-y)) by (nonlinear_arith)
            requires
                x < 0,
                y < 0,
        ;
    }
}

/// A base of absolute value at most one never leaves `[-1, 1]` under
/// exponentiation.
proof fn lemma_pow_small_base(b: int, e: nat)
    requires
        -1 <= b <= 1,
    ensures
        -1 <= pow(b, e) <= 1,
    decreases e,
{
    vstd::arithmetic::power::lemma_pow0(b);
    if e > 0 {
        lemma_pow_small_base(b, (e - 1) as nat);
        vstd::arithmetic::power::lemma_pow1(b);
        assert(pow(b, e) == b * pow(b, (e - 1) as nat)) by {
            reveal(pow);
        }
        assert(-1 <= b * pow(b, (e - 1) as nat) <= 1) by (nonlinear_arith)
            requires
                -1 <= b <= 1,
                -1 <= pow(b, (e - 1) as nat) <= 1,
        ;
    }
}

/// The absolute value of a power is the power of the absolute value.
proof fn lemma_pow_abs(b: int, e: nat)
    ensures
        abs(pow(b, e)) == pow(abs(b) as int, e),
    decreases e,
{
    reveal(pow);
    if e > 0 {
        lemma_pow_abs(b, (e - 1) as nat);
        lemma_abs_mul(b, pow(b, (e - 1) as nat));
    }
}

/// Once a power of `b` has left the `i32` range, all higher powers are out of
/// range as well.
proof fn lemma_pow_overflow_mono(b: int, k: nat, e: nat)
    requires
        k <= e,
        !fits_i32(pow(b, k)),
    ensures
        !fits_i32(pow(b, e)),
{
    if -1 <= b <= 1 {
        lemma_pow_small_base(b, k);
        assert(false);
    } else {
        lemma_pow_abs(b, k);
        lemma_pow_abs(b, e);
        if k < e {
            vstd::arithmetic::power::lemma_pow_strictly_increases(abs(b), k, e);
        }
    }
}

/// `base` raised to `exp`, or an overflow report exactly when the
/// mathematical power does not fit into `i32`.
fn pow_checked(base: i32, exp: u32) -> (r: Result<i32, RuntimeError>)
    ensures
        match r {
            Ok(v) => fits_i32(pow(base as int, exp as nat)) && v as int == pow(
                base as int,
                exp as nat,
            ),
            Err(er) => er == RuntimeError::IntegerOverflow && !fits_i32(
                pow(base as int, exp as nat),
            ),
        },
{
    let mut acc: i32 = 1;
    let mut i: u32 = 0;
    proof {
        reveal(pow);
    }
    while i < exp
        invariant
            i <= exp,
            acc as int == pow(base as int, i as nat),
        decreases exp - i,
    {
        match acc.checked_mul(base) {
            Some(v) => {
                proof {
                    reveal(pow);
                    assert(pow(base as int, (i + 1) as nat) == base * pow(base as int, i as nat));
                }
                acc = v;
                i = i + 1;
            },
            None => {
                proof {
                    reveal(pow);
                    assert(pow(base as int, (i + 1) as nat) == base * pow(base as int, i as nat));
                    lemma_pow_overflow_mono(base as int, (i + 1) as nat, exp as nat);
                }
                return Err(RuntimeError::IntegerOverflow);
            },
        }
    }
    Ok(acc)
}

/// The quotient truncated toward zero stays within the absolute value of the
/// dividend.
proof fn lemma_trunc_div_bounds(a: int, b: int)
    requires
        b != 0,
    ensures
        -abs(a) <= trunc_div(a, b) <= abs(a),
{
    if a == 0 {
    } else if a > 0 && b > 0 {
        lemma_div_pos_is_pos(a, b);
        lemma_div_nonincreasing(a, b);
    } else if a < 0 && b < 0 {
        lemma_div_pos_is_pos(a * -1, b * -1);
        lemma_div_nonincreasing(a * -1, b * -1);
    } else if a < 0 {
        lemma_div_pos_is_pos(a * -1, b);
        lemma_div_nonincreasing(a * -1, b);
    } else {
        lemma_div_pos_is_pos(a, b * -1);
        lemma_div_nonincreasing(a, b * -1);
    }
}

/// Flooring division of `a` by `b`, or an overflow report exactly when the
/// flooring quotient does not fit into `i32`.
fn floor_div_exec(a: i32, b: i32) -> (r: Result<i32, RuntimeError>)
    requires
        b != 0,
    ensures
        ({
            let v = floor_div(a as int, b as int);
            if fits_i32(v) {
                r == Ok::<i32, RuntimeError>(v as i32)
            } else {
                r == Err::<i32, RuntimeError>(RuntimeError::IntegerOverflow)
            }
        }),
{
    if a == i32::MIN && b == -1 {
        proof {
            assert(trunc_div(a as int, b as int) == 2147483648int / 1int);
            assert(trunc_rem(a as int, b as int) == (2147483648int % 1int) * -1);
        }
        return Err(RuntimeError::IntegerOverflow);
    }
    proof {
        lemma_trunc_div_bounds(a as int, b as int);
        if a == i32::MIN && (b as int) < 0 {
            // b <= -2 here, so the quotient is at most 2^31 / 2
            assert(trunc_div(a as int, b as int) == 2147483648int / ((b as int) * -1));
            vstd::arithmetic::div_mod::lemma_div_is_ordered_by_denominator(
                2147483648,
                2,
                (b as int) * -1,
            );
            assert(2147483648int / 2int == 1073741824int);
        }
    }
    let q = a.checked_div(b).unwrap();
    let rem = a.checked_rem(b).unwrap();
    if rem != 0 && ((a < 0) != (b < 0)) {
        match q.checked_sub(1) {
            Some(v) => Ok(v),
            None => Err(RuntimeError::IntegerOverflow),
        }
    } else {
        Ok(q)
    }
}

/// The result an arithmetic opcode pushes for operands `a` and `b`, or the
/// error it stops the machine with; agrees with [`arith_op`] followed by the
/// `i32` range check.
fn arith_exec(op: Instruction, a: i32, b: i32) -> (r: Result<i32, RuntimeError>)
    requires
        is_arith(op),
    ensures
        match arith_op(op, a as int, b as int) {
            Err(e) => r == Err::<i32, RuntimeError>(e),
            Ok(v) => if fits_i32(v) {
                r == Ok::<i32, RuntimeError>(v as i32)
            } else {
                r == Err::<i32, RuntimeError>(RuntimeError::IntegerOverflow)
            },
        },
{
    match op {
        Instruction::ADD => match a.checked_add(b) {
            Some(v) => Ok(v),
            None => Err(RuntimeError::IntegerOverflow),
        },
        Instruction::SUB => match a.checked_sub(b) {
            Some(v) => Ok(v),
            None => Err(RuntimeError::IntegerOverflow),
        },
        Instruction::MUL => match a.checked_mul(b) {
            Some(v) => Ok(v),
            None => Err(RuntimeError::IntegerOverflow),
        },
        Instruction::DIV => if b == 0 {
            Err(RuntimeError::DivisionByZero)
        } else {
            match a.checked_div(b) {
                Some(v) => Ok(v),
                None => Err(RuntimeError::IntegerOverflow),
            }
        },
        Instruction::MOD => if b == 0 {
            Err(RuntimeError::ModulusByZero)
        } else {
            match a.checked_rem(b) {
                Some(v) => Ok(v),
                None => Err(RuntimeError::IntegerOverflow),
            }
        },
        Instruction::EXP => if b < 0 {
            Err(RuntimeError::NegativeExponent)
        } else {
            pow_checked(a, b as u32)
        },
        _ => {
            // FLRDIV
            if b == 0 {
                Err(RuntimeError::DivisionByZero)
            } else {
                floor_div_exec(a, b)
            }
        },
    }
}

/// The truth value a comparison opcode computes; agrees with [`compare_op`].
fn compare_exec(op: Instruction, a: i32, b: i32) -> (r: bool)
    requires
        is_comparison(op),
    ensures
        r == compare_op(op, a, b),
{
    match op {
        Instruction::EQ => a == b,
        Instruction::NEQ => a != b,
        Instruction::LSS => a < b,
        Instruction::GTR => a > b,
        Instruction::LEQ => a <= b,
        _ => a >= b,
    }
}

/// Bounds that every reachable machine state satisfies: the stack never
/// exceeds its capacity and the register file never changes size.
pub open spec fn state_inv(s: MachineState) -> bool {
    &&& s.stack.len() <= STACK_SIZE
    &&& s.regs.len() == USER_REGISTERS
}

/// The virtual machine. Its observable state is the [`MachineState`] given
/// by its view, and [`VM::tick`] follows [`step`] exactly.
pub struct VM {
    stack: Vec<i32>,
    registers: Vec<i32>,
    ip: usize,
    running: bool,
    error: Option<RuntimeError>,
}

impl View for VM {
    type V = MachineState;

    closed spec fn view(&self) -> MachineState {
        MachineState {
            stack: self.stack@,
            regs: self.registers@,
            ip: self.ip as int,
            running: self.running,
            error: self.error,
        }
    }
}

impl VM {
    /// Well-formedness: the state bounds of [`state_inv`] hold. Established
    /// by [`VM::new`] and preserved by every method.
    pub open spec fn wf(&self) -> bool {
        state_inv(self.view())
    }

    /// A machine ready to run a program: empty stack, zeroed registers.
    pub fn new() -> (vm: VM)
        ensures
            vm@ == machine_init(),
            vm.wf(),
    {
        let stack: Vec<i32> = Vec::new();
        let registers: Vec<i32> = vec![0i32; USER_REGISTERS];
        let vm = VM { stack, registers, ip: 0, running: true, error: None };
        proof {
            assert(vm@.regs =~= machine_init().regs);
            assert(vm@.stack =~= machine_init().stack);
        }
        vm
    }

    /// Whether the machine is still executing instructions.
    pub fn running(&self) -> (r: bool)
        ensures
            r == self@.running,
    {
        self.running
    }

    /// The error the machine stopped with, if any.
    pub fn error(&self) -> (r: Option<RuntimeError>)
        ensures
            r == self@.error,
    {
        self.error
    }

    /// The instruction pointer.
    pub fn ip(&self) -> (r: usize)
        ensures
            r as int == self@.ip,
    {
        self.ip
    }

    /// The stack pointer: the index of the top of the stack, `-1` when the
    /// stack is empty.
    pub fn sp(&self) -> (r: i32)
        requires
            self.wf(),
        ensures
            r == self@.stack.len() - 1,
    {
        (self.stack.len() as i32) - 1
    }

    /// A copy of the live operand stack, bottom first.
    pub fn stack_snapshot(&self) -> (r: Vec<i32>)
        ensures
            r@ == self@.stack,
    {
        let mut r: Vec<i32> = Vec::new();
        let mut i: usize = 0;
        while i < self.stack.len()
            invariant
                i <= self.stack.len(),
                r@ == self.stack@.subrange(0, i as int),
            decreases self.stack.len() - i,
        {
            r.push(self.stack[i]);
            i = i + 1;
        }
        proof {
            assert(r@ =~= self@.stack);
        }
        r
    }

    /// What the machine reports in its current state; meaningful once it has
    /// stopped.
    pub fn outcome(&self) -> (r: Result<Option<i32>, RuntimeError>)
        ensures
            r == machine_outcome(self@),
    {
        match self.error {
            Some(e) => Err(e),
            None => if self.stack.len() > 0 {
                Ok(Some(self.stack[self.stack.len() - 1]))
            } else {
                Ok(None)
            },
        }
    }

    /// Stop with error `e`, leaving the rest of the state untouched.
    fn fail(&mut self, e: RuntimeError)
        ensures
            final(self)@ == halt_error(old(self)@, e),
    {
        self.running = false;
        self.error = Some(e);
    }

    /// The immediate operand of the current instruction, if present.
    fn fetch_immediate(&self, program: &Vec<i32>) -> (r: Option<i32>)
        requires
            self@.ip < program@.len(),
        ensures
            r == immediate(program@, self@),
    {
        if program.len() - self.ip >= 2 {
            Some(program[self.ip + 1])
        } else {
            None
        }
    }

    /// Push `v` and advance the instruction pointer by `adv`; stop with a
    /// stack overflow when the stack is full.
    fn push_advance(&mut self, v: i32, adv: usize)
        requires
            old(self).ip + adv <= usize::MAX,
        ensures
            final(self)@ == push_value(old(self)@, v, adv as int),
    {
        if self.stack.len() >= STACK_SIZE {
            self.fail(RuntimeError::StackOverflow);
        } else {
            self.stack.push(v);
            self.ip = self.ip + adv;
        }
    }

    /// One tick: fetch, decode, execute. Follows the machine model's
    /// [`step`] exactly.
    pub fn tick(&mut self, program: &Vec<i32>)
        requires
            old(self).wf(),
        ensures
            final(self)@ == step(program@, old(self)@),
            final(self).wf(),
    {
        proof {
            lemma_step_preserves_inv(program@, old(self)@);
        }
        if !self.running {
            return ;
        }
        if self.ip >= program.len() {
            self.fail(RuntimeError::IpOutOfBounds);
            return ;
        }
        let instr = program[self.ip];
        let op = decode_op(instr);
        match op {
            Instruction::HLT => {
                self.running = false;
            },
            Instruction::PSH => {
                match self.fetch_immediate(program) {
                    None => self.fail(RuntimeError::IpOutOfBounds),
                    Some(v) => self.push_advance(v, 2),
                }
            },
            Instruction::POP => {
                if self.stack.len() < 1 {
                    self.fail(RuntimeError::StackUnderflow);
                } else {
                    let _ = self.stack.pop();
                    self.ip = self.ip + 1;
                }
            },
            Instruction::SET => {
                match self.fetch_immediate(program) {
                    None => self.fail(RuntimeError::IpOutOfBounds),
                    Some(imm) => {
                        if imm < 0 || imm >= USER_REGISTERS as i32 {
                            self.fail(RuntimeError::InvalidRegister);
                        } else if self.stack.len() < 1 {
                            self.fail(RuntimeError::StackUnderflow);
                        } else {
                            let v = self.stack.pop().unwrap();
                            self.registers[imm as usize] = v;
                            self.ip = self.ip + 2;
                        }
                    },
                }
            },
            Instruction::GET => {
                match self.fetch_immediate(program) {
                    None => self.fail(RuntimeError::IpOutOfBounds),
                    Some(imm) => {
                        if imm < 0 || imm >= USER_REGISTERS as i32 {
                            self.fail(RuntimeError::InvalidRegister);
                        } else {
                            let v = self.registers[imm as usize];
                            self.push_advance(v, 2);
                        }
                    },
                }
            },
            Instruction::JMZ => {
                match self.fetch_immediate(program) {
                    None => self.fail(RuntimeError::IpOutOfBounds),
                    Some(target) => {
                        if self.stack.len() < 1 {
                            self.fail(RuntimeError::StackUnderflow);
                        } else {
                            let c = self.stack[self.stack.len() - 1];
                            if c == 0 {
                                if target < 0 {
                                    self.fail(RuntimeError::IpOutOfBounds);
                                } else {
                                    let _ = self.stack.pop();
                                    self.ip = target as usize;
                                }
                            } else {
                                let _ = self.stack.pop();
                                self.ip = self.ip + 2;
                            }
                        }
                    },
                }
            },
            Instruction::JMP => {
                match self.fetch_immediate(program) {
                    None => self.fail(RuntimeError::IpOutOfBounds),
                    Some(target) => {
                        if target < 0 {
                            self.fail(RuntimeError::IpOutOfBounds);
                        } else {
                            self.ip = target as usize;
                        }
                    },
                }
            },
            Instruction::UNK => {
                self.fail(RuntimeError::InvalidInstruction);
            },
            Instruction::ADD
            | Instruction::SUB
            | Instruction::MUL
            | Instruction::DIV
            | Instruction::MOD
            | Instruction::EXP
            | Instruction::FLRDIV => {
                if self.stack.len() < 2 {
                    self.fail(RuntimeError::StackUnderflow);
                } else {
                    let n = self.stack.len();
                    let a = self.stack[n - 2];
                    let b = self.stack[n - 1];
                    match arith_exec(op, a, b) {
                        Err(e) => self.fail(e),
                        Ok(v) => {
                            let _ = self.stack.pop();
                            let _ = self.stack.pop();
                            self.stack.push(v);
                            self.ip = self.ip + 1;
                        },
                    }
                }
            },
            Instruction::EQ
            | Instruction::NEQ
            | Instruction::LSS
            | Instruction::GTR
            | Instruction::LEQ
            | Instruction::GEQ => {
                if self.stack.len() < 2 {
                    self.fail(RuntimeError::StackUnderflow);
                } else {
                    let n = self.stack.len();
                    let a = self.stack[n - 2];
                    let b = self.stack[n - 1];
                    let v: i32 = if compare_exec(op, a, b) {
                        1
                    } else {
                        0
                    };
                    let _ = self.stack.pop();
                    let _ = self.stack.pop();
                    self.stack.push(v);
                    self.ip = self.ip + 1;
                }
            },
        }
    }
}

/// Running a machine for the sum of two budgets runs it for the first and
/// then for the second.
pub proof fn lemma_run_add(prog: Seq<i32>, s: MachineState, m: nat, n: nat)
    ensures
        run(prog, s, m + n) == run(prog, run(prog, s, m), n),
    decreases m,
{
    if m == 0 || !s.running {
    } else {
        lemma_run_add(prog, step(prog, s), (m - 1) as nat, n);
    }
}

/// A stopped machine does not move again, whatever the budget.
pub proof fn lemma_run_stopped(prog: Seq<i32>, s: MachineState, n: nat)
    requires
        !s.running,
    ensures
        run(prog, s, n) == s,
{
}

/// One tick preserves the state bounds.
pub proof fn lemma_step_preserves_inv(prog: Seq<i32>, s: MachineState)
    requires
        state_inv(s),
    ensures
        state_inv(step(prog, s)),
{
}

/// Any number of ticks preserves the state bounds.
pub proof fn lemma_run_preserves_inv(prog: Seq<i32>, s: MachineState, n: nat)
    requires
        state_inv(s),
    ensures
        state_inv(run(prog, s, n)),
    decreases n,
{
    if n > 0 && s.running {
        lemma_step_preserves_inv(prog, s);
        lemma_run_preserves_inv(prog, step(prog, s), (n - 1) as nat);
    }
}

/// Memory safety of the machine: however long any program runs, the stack
/// stays within its `STACK_SIZE` slots and the register file keeps exactly
/// its `USER_REGISTERS` slots. Out-of-range accesses stop the machine with a
/// typed error instead (see [`step`]).
pub proof fn lemma_vm_safety(prog: Seq<i32>, n: nat)
    ensures
        state_inv(run(prog, machine_init(), n)),
{
    lemma_run_preserves_inv(prog, machine_init(), n);
}

/// The machine is deterministic: a program that stops has a single final
/// state, whatever budget the run was given.
pub proof fn lemma_run_halt_unique(prog: Seq<i32>, n1: nat, n2: nat)
    requires
        !run(prog, machine_init(), n1).running,
        !run(prog, machine_init(), n2).running,
    ensures
        run(prog, machine_init(), n1) == run(prog, machine_init(), n2),
{
    if n1 <= n2 {
        lemma_run_add(prog, machine_init(), n1, (n2 - n1) as nat);
        lemma_run_stopped(prog, run(prog, machine_init(), n1), (n2 - n1) as nat);
    } else {
        lemma_run_add(prog, machine_init(), n2, (n1 - n2) as nat);
        lemma_run_stopped(prog, run(prog, machine_init(), n2), (n1 - n2) as nat);
    }
}

/// Checked arithmetic: whenever the mathematical result of an arithmetic
/// opcode lies outside `i32`, the tick stops the machine with
/// `IntegerOverflow` instead of wrapping.
pub proof fn lemma_checked_arithmetic(prog: Seq<i32>, s: MachineState)
    requires
        s.running,
        0 <= s.ip < prog.len(),
        is_arith(decode(prog[s.ip])),
        s.stack.len() >= 2,
        arith_op(
            decode(prog[s.ip]),
            s.stack[s.stack.len() - 2] as int,
            s.stack[s.stack.len() - 1] as int,
        ) matches Ok(v) && !fits_i32(v),
    ensures
        step(prog, s) == halt_error(s, RuntimeError::IntegerOverflow),
{
}

/// Run `program` on a fresh machine for at most `max_steps` ticks. `None`
/// means the program was still running when the budget ran out; otherwise
/// the result is the machine's report: its error, or the value left on top
/// of the stack, if any.
pub fn run_program(program: Vec<i32>, max_steps: u64) -> (r: Option<
    Result<Option<i32>, RuntimeError>,
>)
    ensures
        match r {
            Some(res) => exists|n: nat|
                n <= max_steps && !(#[trigger] run(program@, machine_init(), n)).running && res
                    == machine_outcome(run(program@, machine_init(), n)),
            None => run(program@, machine_init(), max_steps as nat).running,
        },
{
    let mut vm = VM::new();
    let mut steps: u64 = 0;
    while vm.running && steps < max_steps
        invariant
            steps <= max_steps,
            vm.wf(),
            vm@ == run(program@, machine_init(), steps as nat),
        decreases max_steps - steps,
    {
        let ghost pre = vm@;
        vm.tick(&program);
        proof {
            assert(run(program@, pre, 1) == step(program@, pre)) by {
                reveal_with_fuel(run, 2);
            }
            lemma_run_add(program@, machine_init(), steps as nat, 1);
        }
        steps = steps + 1;
    }
    if vm.running {
        None
    } else {
        proof {
            assert(!run(program@, machine_init(), steps as nat).running);
        }
        Some(vm.outcome())
    }
}

} // verus!

//! Stack balance of the lowering: executing the code compiled for an
//! expression either stops with a typed error, keeps running, or arrives at
//! the end of that code having pushed exactly one value onto the operand
//! stack. In particular a compiled program that halts cleanly leaves exactly
//! one value on the stack.

use vstd::prelude::*;
use crate::parser::ExprV;
use crate::compiler::{lower, binop_instruction};
use crate::vm::{
    Instruction, opcode_of, decode, is_arith, arith_op, compare_op, fits_i32, machine_init,
    machine_outcome, run, step, MachineState, RuntimeError, USER_REGISTERS, STACK_SIZE,
    lemma_run_add, lemma_run_stopped,
};

verus! {

/// `code` stands in `prog` at address `at`.
pub open spec fn seg_at(prog: Seq<i32>, at: int, code: Seq<i32>) -> bool {
    &&& 0 <= at
    &&& at + code.len() <= prog.len()
    &&& prog.subrange(at, at + code.len()) == code
}

/// After `k` ticks the run from `s` stands at `endp`, live, with exactly one
/// value pushed onto `base` and `regsn` registers.
pub open spec fn block_done_at(
    prog: Seq<i32>,
    s: MachineState,
    k: nat,
    endp: int,
    base: Seq<i32>,
    regsn: int,
) -> bool {
    &&& run(prog, s, k).running
    &&& run(prog, s, k).error is None
    &&& run(prog, s, k).ip == endp
    &&& run(prog, s, k).regs.len() == regsn
    &&& exists|v: i32| run(prog, s, k).stack == base.push(v)
}

/// What a bounded run from `s` can look like, seen from a block of code
/// ending at address `endp`: it passes through a state at `endp` that has
/// pushed exactly one value onto `base` (and the run continues from there),
/// or it stops with an error, or it is still running when the budget ends.
pub open spec fn block_result(
    prog: Seq<i32>,
    s: MachineState,
    n: nat,
    endp: int,
    base: Seq<i32>,
    regsn: int,
) -> bool {
    ||| (exists|k: nat|
        k <= n && #[trigger] block_done_at(prog, s, k, endp, base, regsn) && run(prog, s, n) == run(
            prog,
            run(prog, s, k),
            (n - k) as nat,
        ))
    ||| run(prog, s, n).error is Some
    ||| (run(prog, s, n).running && run(prog, s, n).error is None)
}

/// A budget of one runs exactly one tick.
proof fn lemma_run_one(prog: Seq<i32>, s: MachineState)
    requires
        s.running,
    ensures
        run(prog, s, 1) == step(prog, s),
{
    assert(run(prog, step(prog, s), 0) == step(prog, s));
}

/// One tick off the budget of a live state.
proof fn lemma_run_step(prog: Seq<i32>, s: MachineState, n: nat)
    requires
        s.running,
        n >= 1,
    ensures
        run(prog, s, n) == run(prog, step(prog, s), (n - 1) as nat),
{
}

/// A segment of a segment stands at the shifted address.
proof fn lemma_seg_sub(prog: Seq<i32>, at: int, code: Seq<i32>, lo: int, hi: int)
    requires
        seg_at(prog, at, code),
        0 <= lo <= hi <= code.len(),
    ensures
        seg_at(prog, at + lo, code.subrange(lo, hi)),
{
    assert(prog.subrange(at + lo, at + hi) =~= code.subrange(lo, hi));
}

/// The opcode of a binary operator decodes back to its instruction; every
/// such instruction pops two operands and pushes one result.
proof fn lemma_decode_binop(op: crate::parser::BinaryOp)
    ensures
        decode(opcode_of(binop_instruction(op))) == binop_instruction(op),
{
}

/// Conclude the first case of [`block_result`] from a witness.
proof fn lemma_block_done(
    prog: Seq<i32>,
    s: MachineState,
    n: nat,
    k: nat,
    endp: int,
    base: Seq<i32>,
    regsn: int,
    v: i32,
)
    requires
        k <= n,
        run(prog, s, k).running,
        run(prog, s, k).error is None,
        run(prog, s, k).ip == endp,
        run(prog, s, k).regs.len() == regsn,
        run(prog, s, k).stack == base.push(v),
    ensures
        block_result(prog, s, n, endp, base, regsn),
{
    lemma_run_add(prog, s, k, (n - k) as nat);
    assert(block_done_at(prog, s, k, endp, base, regsn));
}

/// Executing the code lowered for `e` from its start is stack-balanced: by
/// any budget `n` it errors, keeps running, or reaches the code's end with
/// exactly one more value on the stack and the register file unchanged in
/// size.
#[verifier::rlimit(100)]
#[verifier::spinoff_prover]
pub proof fn lemma_lowered_block_balance(
    prog: Seq<i32>,
    e: ExprV,
    env: Map<Seq<char>, usize>,
    next: int,
    at: int,
    s: MachineState,
    n: nat,
)
    requires
        lower(e, env, next, at) is Ok,
        seg_at(prog, at, lower(e, env, next, at)->Ok_0.0),
        s.running,
        s.error is None,
        s.ip == at,
        s.regs.len() == USER_REGISTERS,
    ensures
        block_result(
            prog,
            s,
            n,
            at + lower(e, env, next, at)->Ok_0.0.len(),
            s.stack,
            s.regs.len() as int,
        ),
    decreases e, n, 1int,
{
    let code = lower(e, env, next, at)->Ok_0.0;
    let endp = at + code.len();
    if n == 0 {
        return ;
    }
    match e {
        ExprV::Number(v) => {
            assert(prog[at] == code[0] && prog[at + 1] == code[1]);
            let t = step(prog, s);
            lemma_run_step(prog, s, n);
            if s.stack.len() >= STACK_SIZE {
                lemma_run_stopped(prog, t, (n - 1) as nat);
            } else {
                lemma_run_one(prog, s);
                assert(run(prog, s, 1) == t);
                lemma_block_done(prog, s, n, 1, endp, s.stack, s.regs.len() as int, v);
            }
        },
        ExprV::Variable(x) => {
            assert(prog[at] == code[0] && prog[at + 1] == code[1]);
            let t = step(prog, s);
            lemma_run_step(prog, s, n);
            let rv = env[x] as i32;
            if !(0 <= rv && rv < USER_REGISTERS) || s.stack.len() >= STACK_SIZE {
                lemma_run_stopped(prog, t, (n - 1) as nat);
            } else {
                lemma_run_one(prog, s);
                assert(run(prog, s, 1) == t);
                lemma_block_done(
                    prog,
                    s,
                    n,
                    1,
                    endp,
                    s.stack,
                    s.regs.len() as int,
                    s.regs[rv as int],
                );
            }
        },
        ExprV::Unary { .. } => {
            lemma_unary_balance(prog, e, env, next, at, s, n);
        },
        ExprV::Binary { .. } => {
            lemma_binary_balance(prog, e, env, next, at, s, n);
        },
        ExprV::Define { .. } => {
            lemma_define_balance(prog, e, env, next, at, s, n);
        },
        ExprV::If { condition, then_branch, else_branch } => {
            lemma_if_balance(prog, e, env, next, at, s, n);
        },
        ExprV::While { condition, body } => {
            assert(prog[at] == code[0] && prog[at + 1] == code[1]);
            let t1 = step(prog, s);
            lemma_run_step(prog, s, n);
            if s.stack.len() >= STACK_SIZE {
                lemma_run_stopped(prog, t1, (n - 1) as nat);
                return ;
            }
            lemma_while_balance(
                prog,
                e,
                env,
                next,
                at,
                s.stack,
                s.regs.len() as int,
                t1,
                0,
                (n - 1) as nat,
            );
            if run(prog, t1, (n - 1) as nat).error is Some {
                return ;
            }
            if exists|k: nat|
                k <= (n - 1) as nat && #[trigger] block_done_at(prog, t1, k, endp, s.stack, s.regs.len() as int)
                    && run(prog, t1, (n - 1) as nat) == run(prog, run(prog, t1, k), ((n - 1) as nat - k) as nat) {
                let kf_ = choose|k: nat|
                    k <= (n - 1) as nat && #[trigger] block_done_at(prog, t1, k, endp, s.stack, s.regs.len() as int)
                        && run(prog, t1, (n - 1) as nat) == run(prog, run(prog, t1, k), ((n - 1) as nat - k) as nat);
                let tf_ = run(prog, t1, kf_);
                let vf_ = choose|v: i32| tf_.stack == s.stack.push(v);
                assert(run(prog, s, (1 + kf_) as nat) == tf_) by {
                    lemma_run_one(prog, s);
        lemma_run_add(prog, s, 1, kf_);
                }
                lemma_block_done(prog, s, n, (1 + kf_) as nat, endp, s.stack, s.regs.len() as int, vf_);
            }

        },
    }
}

/// The `Unary` case of [`lemma_lowered_block_balance`].
#[verifier::rlimit(100)]
#[verifier::spinoff_prover]
proof fn lemma_unary_balance(
    prog: Seq<i32>,
    e: ExprV,
    env: Map<Seq<char>, usize>,
    next: int,
    at: int,
    s: MachineState,
    n: nat,
)
    requires
        e is Unary,
        lower(e, env, next, at) is Ok,
        seg_at(prog, at, lower(e, env, next, at)->Ok_0.0),
        s.running,
        s.error is None,
        s.ip == at,
        s.regs.len() == USER_REGISTERS,
        n >= 1,
    ensures
        block_result(
            prog,
            s,
            n,
            at + lower(e, env, next, at)->Ok_0.0.len(),
            s.stack,
            s.regs.len() as int,
        ),
    decreases e, n, 0int,
{
    let code = lower(e, env, next, at)->Ok_0.0;
    let endp = at + code.len();
    match e {
        ExprV::Unary { op, expr } => {

            let c = lower(*expr, env, next, at + 2)->Ok_0.0;
            assert(code =~= seq![opcode_of(Instruction::PSH), 0i32] + c + seq![
                opcode_of(Instruction::SUB),
            ]);
            assert(prog[at] == code[0] && prog[at + 1] == code[1]);
            let t1 = step(prog, s);
            lemma_run_step(prog, s, n);
            if s.stack.len() >= STACK_SIZE {
                lemma_run_stopped(prog, t1, (n - 1) as nat);
                return ;
            }
            lemma_seg_sub(prog, at, code, 2, 2 + c.len() as int);
            assert(code.subrange(2, 2 + c.len() as int) =~= c);
            lemma_lowered_block_balance(prog, *expr, env, next, at + 2, t1, (n - 1) as nat);
            if run(prog, t1, (n - 1) as nat).error is Some {
                return ;
            }
            if exists|k: nat|
                k <= (n - 1) as nat && #[trigger] block_done_at(prog, t1, k, at + 2 + c.len(), t1.stack, t1.regs.len() as int)
                    && run(prog, t1, (n - 1) as nat) == run(prog, run(prog, t1, k), ((n - 1) as nat - k) as nat) {
                let k1 = choose|k: nat|
                    k <= (n - 1) as nat && #[trigger] block_done_at(prog, t1, k, at + 2 + c.len(), t1.stack, t1.regs.len() as int)
                        && run(prog, t1, (n - 1) as nat) == run(prog, run(prog, t1, k), ((n - 1) as nat - k) as nat);
                let t2 = run(prog, t1, k1);
                let v1_ = choose|v: i32| t2.stack == t1.stack.push(v);
                let w = v1_;
                if n - 1 - k1 == 0 {
                    return ;
                }
                assert(prog[at + 2 + c.len()] == code[2 + c.len() as int]);
                let t3 = step(prog, t2);
                lemma_run_step(prog, t2, (n - 1 - k1) as nat);
                assert(t2.stack.len() >= 2);
                assert(t2.stack[t2.stack.len() - 2] == 0i32 && t2.stack[t2.stack.len() - 1] == w);
                if !fits_i32(0 - w as int) {
                    lemma_run_stopped(prog, t3, (n - 2 - k1) as nat);
                } else {
                    assert(t3.stack =~= s.stack.push((0 - w as int) as i32)) by {
                        assert(t2.stack.drop_last().drop_last() =~= s.stack);
                    }
                    assert(run(prog, s, (1 + k1) as nat) == t2) by {
                        lemma_run_one(prog, s);
            lemma_run_add(prog, s, 1, k1);
                    }
                    assert(run(prog, s, (1 + k1 + 1) as nat) == t3) by {
                        lemma_run_one(prog, t2);
            lemma_run_add(prog, s, (1 + k1) as nat, 1);
                    }
                    lemma_block_done(
                        prog,
                        s,
                        n,
                        (1 + k1 + 1) as nat,
                        endp,
                        s.stack,
                        s.regs.len() as int,
                        (0 - w as int) as i32,
                    );
                }
            }

        
        },
        _ => {},
    }
}

/// The `Binary` case of [`lemma_lowered_block_balance`].
#[verifier::rlimit(100)]
#[verifier::spinoff_prover]
proof fn lemma_binary_balance(
    prog: Seq<i32>,
    e: ExprV,
    env: Map<Seq<char>, usize>,
    next: int,
    at: int,
    s: MachineState,
    n: nat,
)
    requires
        e is Binary,
        lower(e, env, next, at) is Ok,
        seg_at(prog, at, lower(e, env, next, at)->Ok_0.0),
        s.running,
        s.error is None,
        s.ip == at,
        s.regs.len() == USER_REGISTERS,
        n >= 1,
    ensures
        block_result(
            prog,
            s,
            n,
            at + lower(e, env, next, at)->Ok_0.0.len(),
            s.stack,
            s.regs.len() as int,
        ),
    decreases e, n, 0int,
{
    let code = lower(e, env, next, at)->Ok_0.0;
    let endp = at + code.len();
    match e {
        ExprV::Binary { left, op, right } => {

            let cl = lower(*left, env, next, at)->Ok_0.0;
            let n1 = lower(*left, env, next, at)->Ok_0.1;
            let cr = lower(*right, env, n1, at + cl.len())->Ok_0.0;
            assert(code =~= cl + cr + seq![opcode_of(binop_instruction(op))]);
            lemma_seg_sub(prog, at, code, 0, cl.len() as int);
            assert(code.subrange(0, cl.len() as int) =~= cl);
            lemma_lowered_block_balance(prog, *left, env, next, at, s, n);
            if run(prog, s, n).error is Some {
                return ;
            }
            if exists|k: nat|
                k <= n && #[trigger] block_done_at(prog, s, k, at + cl.len(), s.stack, s.regs.len() as int)
                    && run(prog, s, n) == run(prog, run(prog, s, k), (n - k) as nat) {
                let k1 = choose|k: nat|
                    k <= n && #[trigger] block_done_at(prog, s, k, at + cl.len(), s.stack, s.regs.len() as int)
                        && run(prog, s, n) == run(prog, run(prog, s, k), (n - k) as nat);
                let t1 = run(prog, s, k1);
                let vl_ = choose|v: i32| t1.stack == s.stack.push(v);
                let vl = vl_;
                lemma_seg_sub(prog, at, code, cl.len() as int, (cl.len() + cr.len()) as int);
                assert(code.subrange(cl.len() as int, (cl.len() + cr.len()) as int) =~= cr);
                lemma_lowered_block_balance(prog, *right, env, n1, at + cl.len(), t1, (n - k1) as nat);
                if run(prog, t1, (n - k1) as nat).error is Some {
                    return ;
                }
                if exists|k: nat|
                    k <= (n - k1) as nat && #[trigger] block_done_at(prog, t1, k, at + cl.len() + cr.len(), t1.stack, t1.regs.len() as int)
                        && run(prog, t1, (n - k1) as nat) == run(prog, run(prog, t1, k), ((n - k1) as nat - k) as nat) {
                    let k2_ = choose|k: nat|
                        k <= (n - k1) as nat && #[trigger] block_done_at(prog, t1, k, at + cl.len() + cr.len(), t1.stack, t1.regs.len() as int)
                            && run(prog, t1, (n - k1) as nat) == run(prog, run(prog, t1, k), ((n - k1) as nat - k) as nat);
                    let t2_ = run(prog, t1, k2_);
                    let vr_ = choose|v: i32| t2_.stack == t1.stack.push(v);
                    let k2 = k2_;
                    let t2 = t2_;
                    let vl = vl_;
                    let vr = vr_;
                    if n - k1 - k2 == 0 {
                        return ;
                    }
                    assert(prog[at + cl.len() + cr.len()] == code[cl.len() + cr.len() as int]);
                    assert(code[cl.len() + cr.len() as int] == opcode_of(binop_instruction(op)));
                    lemma_decode_binop(op);
                    let t3 = step(prog, t2_);
                    lemma_run_step(prog, t2_, (n - k1 - k2) as nat);
                    assert(t2_.stack.len() >= 2);
                    assert(t2_.stack[t2_.stack.len() - 2] == vl && t2_.stack[t2_.stack.len() - 1] == vr);
                    assert(run(prog, s, (k1 + k2) as nat) == t2) by {
                        lemma_run_add(prog, s, k1, k2);
                    }
                    let instr = binop_instruction(op);
                    let done: bool = if is_arith(instr) {
                        match arith_op(instr, vl as int, vr as int) {
                            Err(er) => false,
                            Ok(res) => fits_i32(res),
                        }
                    } else {
                        true
                    };
                    if !done {
                        lemma_run_stopped(prog, t3, (n - k1 - k2 - 1) as nat);
                    } else {
                        let res: i32 = if is_arith(instr) {
                            arith_op(instr, vl as int, vr as int)->Ok_0 as i32
                        } else if compare_op(instr, vl, vr) {
                            1
                        } else {
                            0
                        };
                        assert(t3.stack =~= s.stack.push(res)) by {
                            assert(t2_.stack.drop_last().drop_last() =~= s.stack);
                        }
                        assert(run(prog, s, (k1 + k2 + 1) as nat) == t3) by {
                            lemma_run_one(prog, t2_);
            lemma_run_add(prog, s, (k1 + k2) as nat, 1);
                        }
                        lemma_block_done(
                            prog,
                            s,
                            n,
                            (k1 + k2 + 1) as nat,
                            endp,
                            s.stack,
                            s.regs.len() as int,
                            res,
                        );
                    }
                }

            }

        
        },
        _ => {},
    }
}

/// The `Define` case of [`lemma_lowered_block_balance`].
#[verifier::rlimit(100)]
#[verifier::spinoff_prover]
proof fn lemma_define_balance(
    prog: Seq<i32>,
    e: ExprV,
    env: Map<Seq<char>, usize>,
    next: int,
    at: int,
    s: MachineState,
    n: nat,
)
    requires
        e is Define,
        lower(e, env, next, at) is Ok,
        seg_at(prog, at, lower(e, env, next, at)->Ok_0.0),
        s.running,
        s.error is None,
        s.ip == at,
        s.regs.len() == USER_REGISTERS,
        n >= 1,
    ensures
        block_result(
            prog,
            s,
            n,
            at + lower(e, env, next, at)->Ok_0.0.len(),
            s.stack,
            s.regs.len() as int,
        ),
    decreases e, n, 0int,
{
    let code = lower(e, env, next, at)->Ok_0.0;
    let endp = at + code.len();
    match e {
        ExprV::Define { name, value, body } => {

            let cv = lower(*value, env, next, at)->Ok_0.0;
            let n1 = lower(*value, env, next, at)->Ok_0.1;
            let reused = env.contains_key(name);
            let reg: int = if reused {
                env[name] as int
            } else {
                n1
            };
            let benv = if reused {
                env
            } else {
                env.insert(name, n1 as usize)
            };
            let bnext = if reused {
                n1
            } else {
                n1 + 1
            };
            let cb = lower(*body, benv, bnext, at + cv.len() + 2)->Ok_0.0;
            assert(code =~= cv + seq![opcode_of(Instruction::SET), reg as i32] + cb);
            lemma_seg_sub(prog, at, code, 0, cv.len() as int);
            assert(code.subrange(0, cv.len() as int) =~= cv);
            lemma_lowered_block_balance(prog, *value, env, next, at, s, n);
            if run(prog, s, n).error is Some {
                return ;
            }
            if exists|k: nat|
                k <= n && #[trigger] block_done_at(prog, s, k, at + cv.len(), s.stack, s.regs.len() as int)
                    && run(prog, s, n) == run(prog, run(prog, s, k), (n - k) as nat) {
                let k1 = choose|k: nat|
                    k <= n && #[trigger] block_done_at(prog, s, k, at + cv.len(), s.stack, s.regs.len() as int)
                        && run(prog, s, n) == run(prog, run(prog, s, k), (n - k) as nat);
                let t1 = run(prog, s, k1);
                let vv_ = choose|v: i32| t1.stack == s.stack.push(v);
                let vv = vv_;
                if n - k1 == 0 {
                    return ;
                }
                assert(prog[at + cv.len()] == code[cv.len() as int] && prog[at + cv.len() + 1] == code[
                    cv.len() + 1 as int
                ]);
                let t2 = step(prog, t1);
                lemma_run_step(prog, t1, (n - k1) as nat);
                let rgv = reg as i32;
    if !(0 <= rgv && rgv < USER_REGISTERS) {
                    lemma_run_stopped(prog, t2, (n - k1 - 1) as nat);
                    return ;
                }
                assert(t2.stack =~= s.stack) by {
                    assert(t1.stack.drop_last() =~= s.stack);
                }
                lemma_seg_sub(prog, at, code, cv.len() + 2 as int, code.len() as int);
                assert(code.subrange(cv.len() + 2 as int, code.len() as int) =~= cb);
                lemma_lowered_block_balance(prog, *body, benv, bnext, at + cv.len() + 2, t2, (n - k1
                    - 1) as nat);
                assert(run(prog, s, (k1 + 1) as nat) == t2) by {
                    lemma_run_one(prog, t1);
        lemma_run_add(prog, s, k1, 1);
                }
                if run(prog, t2, (n - k1 - 1) as nat).error is Some {
                    return ;
                }
                if exists|k: nat|
                    k <= (n - k1 - 1) as nat && #[trigger] block_done_at(prog, t2, k, endp, t2.stack, t2.regs.len() as int)
                        && run(prog, t2, (n - k1 - 1) as nat) == run(prog, run(prog, t2, k), ((n - k1 - 1) as nat - k) as nat) {
                    let k2_ = choose|k: nat|
                        k <= (n - k1 - 1) as nat && #[trigger] block_done_at(prog, t2, k, endp, t2.stack, t2.regs.len() as int)
                            && run(prog, t2, (n - k1 - 1) as nat) == run(prog, run(prog, t2, k), ((n - k1 - 1) as nat - k) as nat);
                    let t3_ = run(prog, t2, k2_);
                    let vb_ = choose|v: i32| t3_.stack == t2.stack.push(v);
                    assert(run(prog, s, (k1 + 1 + k2_) as nat) == t3_) by {
                        lemma_run_add(prog, s, (k1 + 1) as nat, k2_);
                    }
                    assert(t3_.stack == s.stack.push(vb_));
                    assert(t2.regs.len() == t1.regs.len() && t1.regs.len() == s.regs.len());
                    lemma_block_done(
                        prog,
                        s,
                        n,
                        (k1 + 1 + k2_) as nat,
                        endp,
                        s.stack,
                        s.regs.len() as int,
                        vb_,
                    );
                }

            }

        
        },
        _ => {},
    }
}

/// The `if` case of [`lemma_lowered_block_balance`].
#[verifier::rlimit(100)]
#[verifier::spinoff_prover]
proof fn lemma_if_balance(
    prog: Seq<i32>,
    e: ExprV,
    env: Map<Seq<char>, usize>,
    next: int,
    at: int,
    s: MachineState,
    n: nat,
)
    requires
        e is If,
        lower(e, env, next, at) is Ok,
        seg_at(prog, at, lower(e, env, next, at)->Ok_0.0),
        s.running,
        s.error is None,
        s.ip == at,
        s.regs.len() == USER_REGISTERS,
        n >= 1,
    ensures
        block_result(
            prog,
            s,
            n,
            at + lower(e, env, next, at)->Ok_0.0.len(),
            s.stack,
            s.regs.len() as int,
        ),
    decreases e, n, 0int,
{
    let code = lower(e, env, next, at)->Ok_0.0;
    let endp = at + code.len();
    match e {
        ExprV::If { condition, then_branch, else_branch } => {
            let cc = lower(*condition, env, next, at)->Ok_0.0;
            let n1 = lower(*condition, env, next, at)->Ok_0.1;
            let ct = lower(*then_branch, env, n1, at + cc.len() + 2)->Ok_0.0;
            let n2 = lower(*then_branch, env, n1, at + cc.len() + 2)->Ok_0.1;
            let else_addr = at + cc.len() + 2 + ct.len() + 2;
            let ce_ = lower(*else_branch, env, n2, else_addr)->Ok_0.0;
            let end_addr = else_addr + ce_.len();
            assert(end_addr <= i32::MAX);
            assert(code =~= cc + seq![opcode_of(Instruction::JMZ), else_addr as i32] + ct + seq![
                opcode_of(Instruction::JMP),
                end_addr as i32,
            ] + ce_);
            lemma_seg_sub(prog, at, code, 0, cc.len() as int);
            assert(code.subrange(0, cc.len() as int) =~= cc);
            lemma_lowered_block_balance(prog, *condition, env, next, at, s, n);
            if run(prog, s, n).error is Some {
                return ;
            }
            if exists|k: nat|
                k <= n && #[trigger] block_done_at(prog, s, k, at + cc.len(), s.stack, s.regs.len() as int)
                    && run(prog, s, n) == run(prog, run(prog, s, k), (n - k) as nat) {
                let k1 = choose|k: nat|
                    k <= n && #[trigger] block_done_at(prog, s, k, at + cc.len(), s.stack, s.regs.len() as int)
                        && run(prog, s, n) == run(prog, run(prog, s, k), (n - k) as nat);
                let t1 = run(prog, s, k1);
                let vc_ = choose|v: i32| t1.stack == s.stack.push(v);
                let c = vc_;
                if n - k1 == 0 {
                    return ;
                }
                assert(prog[at + cc.len()] == code[cc.len() as int] && prog[at + cc.len() + 1] == code[
                    cc.len() + 1 as int
                ]);
                let t2 = step(prog, t1);
                lemma_run_step(prog, t1, (n - k1) as nat);
                assert(t1.stack.len() >= 1 && t1.stack.last() == c);
                assert(t1.stack.drop_last() =~= s.stack);
                assert(run(prog, s, (k1 + 1) as nat) == t2) by {
                    lemma_run_one(prog, t1);
        lemma_run_add(prog, s, k1, 1);
                }
                if c == 0 {
                    assert(t2.stack == s.stack && t2.ip == else_addr && t2.running && t2.error is None);
                    lemma_seg_sub(prog, at, code, cc.len() + 2 + ct.len() + 2 as int, code.len() as int);
                    assert(code.subrange(cc.len() + 2 + ct.len() + 2 as int, code.len() as int) =~= ce_);
                    lemma_lowered_block_balance(prog, *else_branch, env, n2, else_addr, t2, (n - k1
                        - 1) as nat);
                    if run(prog, t2, (n - k1 - 1) as nat).error is Some {
                        return ;
                    }
                if exists|k: nat|
                    k <= (n - k1 - 1) as nat && #[trigger] block_done_at(prog, t2, k, endp, t2.stack, t2.regs.len() as int)
                        && run(prog, t2, (n - k1 - 1) as nat) == run(prog, run(prog, t2, k), ((n - k1 - 1) as nat - k) as nat) {
                    let k2_ = choose|k: nat|
                        k <= (n - k1 - 1) as nat && #[trigger] block_done_at(prog, t2, k, endp, t2.stack, t2.regs.len() as int)
                            && run(prog, t2, (n - k1 - 1) as nat) == run(prog, run(prog, t2, k), ((n - k1 - 1) as nat - k) as nat);
                    let t3_ = run(prog, t2, k2_);
                    let ve_ = choose|v: i32| t3_.stack == t2.stack.push(v);
                    assert(run(prog, s, (k1 + 1 + k2_) as nat) == t3_) by {
                        lemma_run_add(prog, s, (k1 + 1) as nat, k2_);
                    }
                    lemma_block_done(
                        prog,
                        s,
                        n,
                        (k1 + 1 + k2_) as nat,
                        endp,
                        s.stack,
                        s.regs.len() as int,
                        ve_,
                    );
                }
                } else {
                    assert(t2.stack == s.stack && t2.ip == at + cc.len() + 2 && t2.running && t2.error
                        is None);
                    lemma_seg_sub(prog, at, code, cc.len() + 2 as int, cc.len() + 2 + ct.len() as int);
                    assert(code.subrange(cc.len() + 2 as int, cc.len() + 2 + ct.len() as int) =~= ct);
                    lemma_lowered_block_balance(prog, *then_branch, env, n1, at + cc.len() + 2, t2, (n - k1
                        - 1) as nat);
                    if run(prog, t2, (n - k1 - 1) as nat).error is Some {
                        return ;
                    }
                if exists|k: nat|
                    k <= (n - k1 - 1) as nat && #[trigger] block_done_at(prog, t2, k, at + cc.len() + 2 + ct.len(), t2.stack, t2.regs.len() as int)
                        && run(prog, t2, (n - k1 - 1) as nat) == run(prog, run(prog, t2, k), ((n - k1 - 1) as nat - k) as nat) {
                    let k2_ = choose|k: nat|
                        k <= (n - k1 - 1) as nat && #[trigger] block_done_at(prog, t2, k, at + cc.len() + 2 + ct.len(), t2.stack, t2.regs.len() as int)
                            && run(prog, t2, (n - k1 - 1) as nat) == run(prog, run(prog, t2, k), ((n - k1 - 1) as nat - k) as nat);
                    let t3_ = run(prog, t2, k2_);
                    let vt_ = choose|v: i32| t3_.stack == t2.stack.push(v);
                    assert(run(prog, s, (k1 + 1 + k2_) as nat) == t3_) by {
                        lemma_run_add(prog, s, (k1 + 1) as nat, k2_);
                    }
                    if n - k1 - 1 - k2_ == 0 {
                        return ;
                    }
                    assert(prog[at + cc.len() + 2 + ct.len()] == code[cc.len() + 2 + ct.len() as int]);
                    assert(prog[at + cc.len() + 2 + ct.len() + 1] == code[cc.len() + 2 + ct.len() + 1 as int]);
                    let t4 = step(prog, t3_);
                    lemma_run_step(prog, t3_, (n - k1 - 1 - k2_) as nat);
                    assert(t4.stack == s.stack.push(vt_) && t4.ip == endp && t4.running && t4.error is None);
                    assert(run(prog, s, (k1 + 1 + k2_ + 1) as nat) == t4) by {
                        lemma_run_one(prog, t3_);
            lemma_run_add(prog, s, (k1 + 1 + k2_) as nat, 1);
                    }
                    lemma_block_done(
                        prog,
                        s,
                        n,
                        (k1 + 1 + k2_ + 1) as nat,
                        endp,
                        s.stack,
                        s.regs.len() as int,
                        vt_,
                    );
                }
                }
            }

        },
        _ => {},
    }
}

/// One or more iterations of a lowered `while` loop, entered at the loop
/// head with the loop's current value `x` on top of `base`.
#[verifier::rlimit(100)]
#[verifier::spinoff_prover]
proof fn lemma_while_balance(
    prog: Seq<i32>,
    e: ExprV,
    env: Map<Seq<char>, usize>,
    next: int,
    at: int,
    base: Seq<i32>,
    regsn: int,
    t: MachineState,
    x: i32,
    m: nat,
)
    requires
        e is While,
        lower(e, env, next, at) is Ok,
        seg_at(prog, at, lower(e, env, next, at)->Ok_0.0),
        t.running,
        t.error is None,
        t.ip == at + 2,
        t.stack == base.push(x),
        t.regs.len() == regsn,
        regsn == USER_REGISTERS,
    ensures
        block_result(prog, t, m, at + lower(e, env, next, at)->Ok_0.0.len(), base, regsn),
    decreases e, m, 0int,
{
    let code = lower(e, env, next, at)->Ok_0.0;
    let endp = at + code.len();
    if m == 0 {
        return ;
    }
    match e {
        ExprV::While { condition, body } => {
            let cc = lower(*condition, env, next, at + 2)->Ok_0.0;
            let n1 = lower(*condition, env, next, at + 2)->Ok_0.1;
            let cb = lower(*body, env, n1, at + 2 + cc.len() + 3)->Ok_0.0;
            let loop_end = at + 2 + cc.len() + 3 + cb.len() + 2;
            assert(loop_end <= i32::MAX);
            assert(code =~= seq![opcode_of(Instruction::PSH), 0i32] + cc + seq![
                opcode_of(Instruction::JMZ),
                loop_end as i32,
                opcode_of(Instruction::POP),
            ] + cb + seq![opcode_of(Instruction::JMP), (at + 2) as i32]);
            assert(endp == loop_end);
            lemma_seg_sub(prog, at, code, 2, 2 + cc.len() as int);
            assert(code.subrange(2, 2 + cc.len() as int) =~= cc);
            lemma_lowered_block_balance(prog, *condition, env, next, at + 2, t, m);
            if run(prog, t, m).error is Some {
                return ;
            }
            if exists|k: nat|
                k <= m && #[trigger] block_done_at(prog, t, k, at + 2 + cc.len(), t.stack, regsn)
                    && run(prog, t, m) == run(prog, run(prog, t, k), (m - k) as nat) {
                let k1 = choose|k: nat|
                    k <= m && #[trigger] block_done_at(prog, t, k, at + 2 + cc.len(), t.stack, regsn)
                        && run(prog, t, m) == run(prog, run(prog, t, k), (m - k) as nat);
                let tc_ = run(prog, t, k1);
                let vc_ = choose|v: i32| tc_.stack == t.stack.push(v);
                let c = vc_;
                if m - k1 == 0 {
                    return ;
                }
                assert(prog[at + 2 + cc.len()] == code[2 + cc.len() as int] && prog[at + 2
                    + cc.len() + 1] == code[2 + cc.len() + 1 as int] && prog[at + 2 + cc.len() + 2]
                    == code[2 + cc.len() + 2 as int]);
                let tc2 = step(prog, tc_);
                lemma_run_step(prog, tc_, (m - k1) as nat);
                assert(tc_.stack.len() >= 1 && tc_.stack.last() == c);
                assert(tc_.stack.drop_last() =~= t.stack);
                assert(run(prog, t, (k1 + 1) as nat) == tc2) by {
                    lemma_run_one(prog, tc_);
        lemma_run_add(prog, t, k1, 1);
                }
                if c == 0 {
                    assert(tc2.stack == base.push(x) && tc2.ip == endp && tc2.running && tc2.error is None);
                    lemma_block_done(prog, t, m, (k1 + 1) as nat, endp, base, regsn, x);
                } else {
                    assert(tc2.stack == t.stack && tc2.ip == at + 2 + cc.len() + 2 && tc2.running
                        && tc2.error is None);
                    if m - k1 - 1 == 0 {
                        return ;
                    }
                    let tc3 = step(prog, tc2);
                    lemma_run_step(prog, tc2, (m - k1 - 1) as nat);
                    assert(tc3.stack =~= base) by {
                        assert(t.stack.drop_last() =~= base);
                    }
                    assert(tc3.ip == at + 2 + cc.len() + 3 && tc3.running && tc3.error is None);
                    assert(run(prog, t, (k1 + 2) as nat) == tc3) by {
                        lemma_run_one(prog, tc2);
            lemma_run_add(prog, t, (k1 + 1) as nat, 1);
                    }
                    lemma_seg_sub(prog, at, code, 2 + cc.len() + 3 as int, 2 + cc.len() + 3 + cb.len() as int);
                    assert(code.subrange(2 + cc.len() + 3 as int, 2 + cc.len() + 3 + cb.len() as int) =~= cb);
                    lemma_lowered_block_balance(prog, *body, env, n1, at + 2 + cc.len() + 3, tc3, (m - k1
                        - 2) as nat);
                    if run(prog, tc3, (m - k1 - 2) as nat).error is Some {
                        return ;
                    }
                if exists|k: nat|
                    k <= (m - k1 - 2) as nat && #[trigger] block_done_at(prog, tc3, k, at + 2 + cc.len() + 3 + cb.len(), base, regsn)
                        && run(prog, tc3, (m - k1 - 2) as nat) == run(prog, run(prog, tc3, k), ((m - k1 - 2) as nat - k) as nat) {
                    let kb_ = choose|k: nat|
                        k <= (m - k1 - 2) as nat && #[trigger] block_done_at(prog, tc3, k, at + 2 + cc.len() + 3 + cb.len(), base, regsn)
                            && run(prog, tc3, (m - k1 - 2) as nat) == run(prog, run(prog, tc3, k), ((m - k1 - 2) as nat - k) as nat);
                    let tb_ = run(prog, tc3, kb_);
                    let vb_ = choose|v: i32| tb_.stack == base.push(v);
                assert(run(prog, t, (k1 + 2 + kb_) as nat) == tb_) by {
                    lemma_run_add(prog, t, (k1 + 2) as nat, kb_);
                }
                if m - k1 - 2 - kb_ == 0 {
                    return ;
                }
                assert(prog[at + 2 + cc.len() + 3 + cb.len()] == code[2 + cc.len() + 3 + cb.len() as int]);
                assert(prog[at + 2 + cc.len() + 3 + cb.len() + 1] == code[2 + cc.len() + 3
                    + cb.len() + 1 as int]);
                let tl = step(prog, tb_);
                lemma_run_step(prog, tb_, (m - k1 - 2 - kb_) as nat);
                assert(tl.stack == base.push(vb_) && tl.ip == at + 2 && tl.running && tl.error is None);
                assert(run(prog, t, (k1 + 3 + kb_) as nat) == tl) by {
                    lemma_run_one(prog, tb_);
        lemma_run_add(prog, t, (k1 + 2 + kb_) as nat, 1);
                }
                lemma_while_balance(prog, e, env, next, at, base, regsn, tl, vb_, (m - k1 - 3
                    - kb_) as nat);
                if run(prog, tl, (m - k1 - 3 - kb_) as nat).error is Some {
                    return ;
                }
                if exists|k: nat|
                    k <= (m - k1 - 3 - kb_) as nat && #[trigger] block_done_at(prog, tl, k, endp, base, regsn)
                        && run(prog, tl, (m - k1 - 3 - kb_) as nat) == run(prog, run(prog, tl, k), ((m - k1 - 3 - kb_) as nat - k) as nat) {
                    let kf_ = choose|k: nat|
                        k <= (m - k1 - 3 - kb_) as nat && #[trigger] block_done_at(prog, tl, k, endp, base, regsn)
                            && run(prog, tl, (m - k1 - 3 - kb_) as nat) == run(prog, run(prog, tl, k), ((m - k1 - 3 - kb_) as nat - k) as nat);
                    let tf_ = run(prog, tl, kf_);
                    let vf_ = choose|v: i32| tf_.stack == base.push(v);
                    assert(run(prog, t, (k1 + 3 + kb_ + kf_) as nat) == tf_) by {
                        lemma_run_add(prog, t, (k1 + 3 + kb_) as nat, kf_);
                    }
                    lemma_block_done(
                        prog,
                        t,
                        m,
                        (k1 + 3 + kb_ + kf_) as nat,
                        endp,
                        base,
                        regsn,
                        vf_,
                    );
                }
                assert(run(prog, tl, (m - k1 - 3 - kb_) as nat).running && run(
                    prog,
                    tl,
                    (m - k1 - 3 - kb_) as nat,
                ).error is None || block_result(prog, t, m, endp, base, regsn));
                }
                }
            }

        },
        _ => {},
    }
}

/// The bytecode of a whole compiled program: the lowered expression followed
/// by `HLT`.
pub open spec fn compiled_program(e: ExprV) -> Seq<i32> {
    lower(e, Map::<Seq<char>, usize>::empty(), 0, 0)->Ok_0.0.push(opcode_of(Instruction::HLT))
}

/// Stack balance: whenever the compiled program of a well-typed expression
/// halts without error, it halts at its final `HLT` with exactly one value
/// on the operand stack — the program's result.
#[verifier::rlimit(100)]
#[verifier::spinoff_prover]
pub proof fn theorem_stack_balance(e: ExprV, n: nat)
    requires
        lower(e, Map::<Seq<char>, usize>::empty(), 0, 0) is Ok,
        !run(compiled_program(e), machine_init(), n).running,
        run(compiled_program(e), machine_init(), n).error is None,
    ensures
        run(compiled_program(e), machine_init(), n).stack.len() == 1,
        machine_outcome(run(compiled_program(e), machine_init(), n)) == Ok::<
            Option<i32>,
            RuntimeError,
        >(Some(run(compiled_program(e), machine_init(), n).stack[0])),
{
    let code = lower(e, Map::<Seq<char>, usize>::empty(), 0, 0)->Ok_0.0;
    let prog = compiled_program(e);
    let s0 = machine_init();
    assert(prog.subrange(0, code.len() as int) =~= code);
    assert(s0.regs.len() == USER_REGISTERS);
    lemma_lowered_block_balance(prog, e, Map::<Seq<char>, usize>::empty(), 0, 0, s0, n);
    if run(prog, s0, n).error is Some {
        assert(false);
    }
    if run(prog, s0, n).running {
        assert(false);
    }
    if exists|k: nat|
        k <= n && #[trigger] block_done_at(prog, s0, k, code.len() as int, s0.stack, s0.regs.len() as int)
            && run(prog, s0, n) == run(prog, run(prog, s0, k), (n - k) as nat) {
        let k = choose|k: nat|
            k <= n && #[trigger] block_done_at(
                prog,
                s0,
                k,
                code.len() as int,
                s0.stack,
                s0.regs.len() as int,
            ) && run(prog, s0, n) == run(prog, run(prog, s0, k), (n - k) as nat);
        let t = run(prog, s0, k);
        let v = choose|vv: i32| t.stack == s0.stack.push(vv);
        if n - k == 0 {
            assert(run(prog, s0, n) == t);
            assert(false);
        }
        assert(prog[code.len() as int] == opcode_of(Instruction::HLT));
        let tf = step(prog, t);
        lemma_run_step(prog, t, (n - k) as nat);
        assert(!tf.running && tf.error is None && tf.stack == t.stack);
        lemma_run_stopped(prog, tf, (n - k - 1) as nat);
        assert(run(prog, s0, n) == tf);
        assert(tf.stack =~= seq![v]);
        assert(tf.stack[0] == v);
    } else {
        assert(false);
    }
}

} // verus!

//! The compiler: expression trees to bytecode, by post-order lowering. Each
//! sub-expression leaves exactly one value on the operand stack; scoped
//! bindings live in registers handed out by a monotone allocator. The
//! lowering is fixed by the spec-level [`lower`]; the executable [`Compiler`]
//! is proved to emit exactly that bytecode.

use vstd::prelude::*;
use crate::parser::{Expr, ExprV, BinaryOp};
use crate::vm::{Instruction, opcode_of, opcode, USER_REGISTERS};

verus! {

/// The ways an expression can fail to compile.
#[derive(Clone, Copy, Debug, PartialEq, Eq, Structural)]
pub enum CompileError {
    /// A variable was referenced outside the `define` body that binds it.
    UndefinedVariable,
    /// More bindings were live at once than the machine has registers.
    RegisterExhaustion,
    /// A jump target fell outside the address range of the bytecode format.
    ProgramTooLarge,
}

/// The machine instruction computing a binary operator.
pub open spec fn binop_instruction(op: BinaryOp) -> Instruction {
    match op {
        BinaryOp::Add => Instruction::ADD,
        BinaryOp::Sub => Instruction::SUB,
        BinaryOp::Mul => Instruction::MUL,
        BinaryOp::Div => Instruction::DIV,
        BinaryOp::Mod => Instruction::MOD,
        BinaryOp::Expn => Instruction::EXP,
        BinaryOp::FloorDiv => Instruction::FLRDIV,
        BinaryOp::Equal => Instruction::EQ,
        BinaryOp::NotEqual => Instruction::NEQ,
        BinaryOp::Less => Instruction::LSS,
        BinaryOp::Greater => Instruction::GTR,
        BinaryOp::LessEq => Instruction::LEQ,
        BinaryOp::GreaterEq => Instruction::GEQ,
    }
}

/// Executable counterpart of [`binop_instruction`].
fn binop_instruction_exec(op: BinaryOp) -> (r: Instruction)
    ensures
        r == binop_instruction(op),
{
    match op {
        BinaryOp::Add => Instruction::ADD,
        BinaryOp::Sub => Instruction::SUB,
        BinaryOp::Mul => Instruction::MUL,
        BinaryOp::Div => Instruction::DIV,
        BinaryOp::Mod => Instruction::MOD,
        BinaryOp::Expn => Instruction::EXP,
        BinaryOp::FloorDiv => Instruction::FLRDIV,
        BinaryOp::Equal => Instruction::EQ,
        BinaryOp::NotEqual => Instruction::NEQ,
        BinaryOp::Less => Instruction::LSS,
        BinaryOp::Greater => Instruction::GTR,
        BinaryOp::LessEq => Instruction::LEQ,
        BinaryOp::GreaterEq => Instruction::GEQ,
    }
}

/// The binding environment as a mathematical map: the innermost binding of
/// each name wins.
pub open spec fn as_map(entries: Seq<(String, usize)>) -> Map<Seq<char>, usize>
    decreases entries.len(),
{
    if entries.len() == 0 {
        Map::empty()
    } else {
        as_map(entries.drop_last()).insert(entries.last().0@, entries.last().1)
    }
}

/// A name is bound exactly when some entry carries it.
proof fn lemma_as_map_contains(entries: Seq<(String, usize)>, k: Seq<char>)
    ensures
        as_map(entries).contains_key(k) <==> exists|i: int|
            0 <= i < entries.len() && (#[trigger] entries[i]).0@ == k,
    decreases entries.len(),
{
    if entries.len() > 0 {
        lemma_as_map_contains(entries.drop_last(), k);
        if entries.last().0@ == k {
            assert(entries[entries.len() - 1].0@ == k);
        } else {
            if as_map(entries).contains_key(k) {
                let i = choose|i: int|
                    0 <= i < entries.drop_last().len() && (#[trigger] entries.drop_last()[i]).0@
                        == k;
                assert(entries[i].0@ == k);
            }
            if exists|i: int| 0 <= i < entries.len() && (#[trigger] entries[i]).0@ == k {
                let i = choose|i: int| 0 <= i < entries.len() && (#[trigger] entries[i]).0@ == k;
                assert(entries.drop_last()[i].0@ == k);
            }
        }
    }
}

/// The bound value of a name is the value of its last entry.
proof fn lemma_as_map_value(entries: Seq<(String, usize)>, i: int)
    requires
        0 <= i < entries.len(),
        forall|j: int| i < j < entries.len() ==> (#[trigger] entries[j]).0@ != entries[i].0@,
    ensures
        as_map(entries).contains_key(entries[i].0@),
        as_map(entries)[entries[i].0@] == entries[i].1,
    decreases entries.len(),
{
    if i == entries.len() - 1 {
    } else {
        assert(entries.drop_last()[i] == entries[i]);
        assert(forall|j: int|
            i < j < entries.drop_last().len() ==> (#[trigger] entries.drop_last()[j]).0@
                != entries.drop_last()[i].0@);
        lemma_as_map_value(entries.drop_last(), i);
    }
}

/// The bytecode an expression lowers to, given the enclosing bindings `env`,
/// the next free register `next`, and the address `at` the code will stand
/// at; or the error the compiler reports. The resulting next free register is
/// returned with the code. This is the reference meaning of the lowering:
/// post-order emission, registers reused on rebinding, branch and loop
/// targets as absolute addresses.
pub open spec fn lower(e: ExprV, env: Map<Seq<char>, usize>, next: int, at: int) -> Result<
    (Seq<i32>, int),
    CompileError,
>
    decreases e,
{
    match e {
        ExprV::Number(n) => Ok((seq![opcode_of(Instruction::PSH), n], next)),
        ExprV::Variable(x) => if env.contains_key(x) {
            Ok((seq![opcode_of(Instruction::GET), env[x] as i32], next))
        } else {
            Err(CompileError::UndefinedVariable)
        },
        ExprV::Unary { op, expr } => match lower(*expr, env, next, at + 2) {
            Err(ce) => Err(ce),
            Ok((c, n1)) => Ok(
                (
                    seq![opcode_of(Instruction::PSH), 0i32] + c + seq![
                        opcode_of(Instruction::SUB),
                    ],
                    n1,
                ),
            ),
        },
        ExprV::Binary { left, op, right } => match lower(*left, env, next, at) {
            Err(ce) => Err(ce),
            Ok((cl, n1)) => match lower(*right, env, n1, at + cl.len()) {
                Err(ce) => Err(ce),
                Ok((cr, n2)) => Ok(
                    (cl + cr + seq![opcode_of(binop_instruction(op))], n2),
                ),
            },
        },
        ExprV::Define { name, value, body } => match lower(*value, env, next, at) {
            Err(ce) => Err(ce),
            Ok((cv, n1)) => {
                if env.contains_key(name) {
                    // a rebinding reuses the existing register and stays bound
                    let reg = env[name];
                    match lower(*body, env, n1, at + cv.len() + 2) {
                        Err(ce) => Err(ce),
                        Ok((cb, n2)) => Ok(
                            (
                                cv + seq![opcode_of(Instruction::SET), reg as i32] + cb,
                                n2,
                            ),
                        ),
                    }
                } else if n1 >= USER_REGISTERS {
                    Err(CompileError::RegisterExhaustion)
                } else {
                    // a fresh binding allocates the next register and goes out
                    // of scope after the body
                    match lower(*body, env.insert(name, n1 as usize), n1 + 1, at + cv.len() + 2) {
                        Err(ce) => Err(ce),
                        Ok((cb, n2)) => Ok(
                            (
                                cv + seq![opcode_of(Instruction::SET), n1 as i32] + cb,
                                n2,
                            ),
                        ),
                    }
                }
            },
        },
        ExprV::If { condition, then_branch, else_branch } => match lower(
            *condition,
            env,
            next,
            at,
        ) {
            Err(ce) => Err(ce),
            Ok((cc, n1)) => match lower(*then_branch, env, n1, at + cc.len() + 2) {
                Err(ce) => Err(ce),
                Ok((ct, n2)) => {
                    let else_addr = at + cc.len() + 2 + ct.len() + 2;
                    match lower(*else_branch, env, n2, else_addr) {
                        Err(ce) => Err(ce),
                        Ok((ce_, n3)) => {
                            let end_addr = else_addr + ce_.len();
                            if end_addr > i32::MAX {
                                Err(CompileError::ProgramTooLarge)
                            } else {
                                Ok(
                                    (
                                        cc + seq![
                                            opcode_of(Instruction::JMZ),
                                            else_addr as i32,
                                        ] + ct + seq![
                                            opcode_of(Instruction::JMP),
                                            end_addr as i32,
                                        ] + ce_,
                                        n3,
                                    ),
                                )
                            }
                        },
                    }
                },
            },
        },
        ExprV::While { condition, body } => {
            let loop_start = at + 2;
            match lower(*condition, env, next, loop_start) {
                Err(ce) => Err(ce),
                Ok((cc, n1)) => match lower(*body, env, n1, loop_start + cc.len() + 3) {
                    Err(ce) => Err(ce),
                    Ok((cb, n2)) => {
                        let loop_end = loop_start + cc.len() + 3 + cb.len() + 2;
                        if loop_end > i32::MAX {
                            Err(CompileError::ProgramTooLarge)
                        } else {
                            Ok(
                                (
                                    seq![opcode_of(Instruction::PSH), 0i32] + cc + seq![
                                        opcode_of(Instruction::JMZ),
                                        loop_end as i32,
                                        opcode_of(Instruction::POP),
                                    ] + cb + seq![
                                        opcode_of(Instruction::JMP),
                                        loop_start as i32,
                                    ],
                                    n2,
                                ),
                            )
                        }
                    },
                },
            }
        },
    }
}

/// The compiler: a binding environment from names to registers, and the next
/// free register, handed out monotonically.
pub struct Compiler {
    var_map: Vec<(String, usize)>,
    next_register: usize,
}

impl Compiler {
    /// The current bindings, innermost last.
    pub closed spec fn entries(&self) -> Seq<(String, usize)> {
        self.var_map@
    }

    /// The current binding environment.
    pub open spec fn env(&self) -> Map<Seq<char>, usize> {
        as_map(self.entries())
    }

    /// The next register the allocator would hand out.
    pub closed spec fn next_reg(&self) -> int {
        self.next_register as int
    }

    /// All handed-out registers are user registers.
    pub closed spec fn wf(&self) -> bool {
        &&& self.next_register <= USER_REGISTERS
        &&& forall|i: int|
            0 <= i < self.var_map@.len() ==> (#[trigger] self.var_map@[i]).1 < USER_REGISTERS
    }

    /// A compiler with no bindings and all registers free.
    pub fn new() -> (c: Compiler)
        ensures
            c.entries() == Seq::<(String, usize)>::empty(),
            c.env() == Map::<Seq<char>, usize>::empty(),
            c.next_reg() == 0,
            c.wf(),
    {
        let c = Compiler { var_map: Vec::new(), next_register: 0 };
        proof {
            assert(c.env() =~= Map::<Seq<char>, usize>::empty());
        }
        c
    }

    /// The register currently bound to `name`, if any.
    fn lookup(&self, name: &String) -> (r: Option<usize>)
        requires
            self.wf(),
        ensures
            match r {
                Some(reg) => self.env().contains_key(name@) && self.env()[name@] == reg && reg
                    < USER_REGISTERS,
                None => !self.env().contains_key(name@),
            },
    {
        let ghost entries = self.var_map@;
        let mut i: usize = self.var_map.len();
        while i > 0
            invariant
                i <= entries.len(),
                entries == self.var_map@,
                self.wf(),
                forall|j: int| i <= j < entries.len() ==> (#[trigger] entries[j]).0@ != name@,
            decreases i,
        {
            i = i - 1;
            if self.var_map[i].0 == *name {
                proof {
                    lemma_as_map_value(entries, i as int);
                }
                return Some(self.var_map[i].1);
            }
        }
        proof {
            lemma_as_map_contains(entries, name@);
        }
        None
    }

    /// Lower `expr` and append its bytecode to `out`. On success the
    /// emitted code and the new allocator state are exactly what [`lower`]
    /// prescribes for the current environment and the address `out` ends at;
    /// on failure the error is the one [`lower`] reports, and the bindings
    /// are unchanged either way.
    #[verifier::rlimit(100)]
    #[verifier::spinoff_prover]
    pub fn compile_expression(&mut self, expr: &Expr, out: &mut Vec<i32>) -> (r: Result<
        (),
        CompileError,
    >)
        requires
            old(self).wf(),
        ensures
            final(self).wf(),
            final(self).entries() == old(self).entries(),
            match lower(expr@, old(self).env(), old(self).next_reg(), old(out)@.len() as int) {
                Ok((code, nx)) => r is Ok && final(out)@ == old(out)@ + code
                    && final(self).next_reg() == nx,
                Err(ce) => r == Err::<(), CompileError>(ce),
            },
        decreases expr, 1int,
    {
        let ghost env0 = self.env();
        let ghost next0 = self.next_reg();
        let ghost at0 = out@.len() as int;
        match expr {
            Expr::Number(n) => {
                out.push(opcode(Instruction::PSH));
                out.push(*n);
                proof {
                    assert(out@ =~= old(out)@ + seq![
                        opcode_of(Instruction::PSH),
                        *n,
                    ]);
                }
                Ok(())
            },
            Expr::Variable(x) => {
                match self.lookup(x) {
                    Some(reg) => {
                        out.push(opcode(Instruction::GET));
                        out.push(reg as i32);
                        proof {
                            assert(out@ =~= old(out)@ + seq![
                                opcode_of(Instruction::GET),
                                env0[x@] as i32,
                            ]);
                        }
                        Ok(())
                    },
                    None => Err(CompileError::UndefinedVariable),
                }
            },
            Expr::Unary { op, expr: inner } => {
                out.push(opcode(Instruction::PSH));
                out.push(0);
                match self.compile_expression(inner, out) {
                    Err(ce) => Err(ce),
                    Ok(()) => {
                        out.push(opcode(Instruction::SUB));
                        proof {
                            let sub = lower((**inner)@, env0, next0, at0 + 2);
                            assert(out@ =~= old(out)@ + (seq![
                                opcode_of(Instruction::PSH),
                                0i32,
                            ] + sub->Ok_0.0 + seq![opcode_of(Instruction::SUB)]));
                        }
                        Ok(())
                    },
                }
            },
            Expr::Binary { left, op, right } => {
                match self.compile_expression(left, out) {
                    Err(ce) => Err(ce),
                    Ok(()) => {
                        match self.compile_expression(right, out) {
                            Err(ce) => Err(ce),
                            Ok(()) => {
                                out.push(binop_opcode(*op));
                                proof {
                                    let l = lower((**left)@, env0, next0, at0);
                                    let ri = lower(
                                        (**right)@,
                                        env0,
                                        l->Ok_0.1,
                                        at0 + l->Ok_0.0.len(),
                                    );
                                    assert(out@ =~= old(out)@ + (l->Ok_0.0 + ri->Ok_0.0 + seq![
                                        opcode_of(binop_instruction(*op)),
                                    ]));
                                }
                                Ok(())
                            },
                        }
                    },
                }
            },
            Expr::Define { .. } => self.compile_define(expr, out),
            Expr::If { .. } => self.compile_if(expr, out),
            Expr::While { .. } => self.compile_while(expr, out),
        }
    }

    /// The `define` case of [`Compiler::compile_expression`].
    #[verifier::rlimit(100)]
    #[verifier::spinoff_prover]
    fn compile_define(&mut self, expr: &Expr, out: &mut Vec<i32>) -> (r: Result<(), CompileError>)
        requires
            old(self).wf(),
            expr@ is Define,
        ensures
            final(self).wf(),
            final(self).entries() == old(self).entries(),
            match lower(expr@, old(self).env(), old(self).next_reg(), old(out)@.len() as int) {
                Ok((code, nx)) => r is Ok && final(out)@ == old(out)@ + code
                    && final(self).next_reg() == nx,
                Err(ce) => r == Err::<(), CompileError>(ce),
            },
        decreases expr, 0int,
    {
        let ghost env0 = self.env();
        let ghost next0 = self.next_reg();
        let ghost at0 = out@.len() as int;
        match expr {
            Expr::Define { name, value, body } => {

                match self.compile_expression(value, out) {
                    Err(ce) => Err(ce),
                    Ok(()) => {
                        let ghost n1 = self.next_reg();
                        let ghost cv = lower((**value)@, env0, next0, at0)->Ok_0.0;
                        match self.lookup(name) {
                            Some(reg) => {
                                out.push(opcode(Instruction::SET));
                                out.push(reg as i32);
                                match self.compile_expression(body, out) {
                                    Err(ce) => Err(ce),
                                    Ok(()) => {
                                        proof {
                                            let b = lower(
                                                (**body)@,
                                                env0,
                                                n1,
                                                at0 + cv.len() + 2,
                                            );
                                            assert(out@ =~= old(out)@ + (cv + seq![
                                                opcode_of(Instruction::SET),
                                                env0[name@] as i32,
                                            ] + b->Ok_0.0));
                                        }
                                        Ok(())
                                    },
                                }
                            },
                            None => {
                                if self.next_register >= USER_REGISTERS {
                                    return Err(CompileError::RegisterExhaustion);
                                }
                                let reg = self.next_register;
                                self.next_register = self.next_register + 1;
                                self.var_map.push((name.clone(), reg));
                                proof {
                                    assert(self.var_map@.drop_last() =~= old(self).entries());
                                    assert(self.env() == env0.insert(name@, reg));
                                }
                                out.push(opcode(Instruction::SET));
                                out.push(reg as i32);
                                let res = self.compile_expression(body, out);
                                let ghost entries_after = self.entries();
                                let _ = self.var_map.pop();
                                proof {
                                    assert(entries_after == old(self).entries().push(
                                        (*name, reg),
                                    ));
                                    assert(self.var_map@ =~= old(self).entries());
                                }
                                match res {
                                    Err(ce) => Err(ce),
                                    Ok(()) => {
                                        proof {
                                            let b = lower(
                                                (**body)@,
                                                env0.insert(name@, reg),
                                                n1 + 1,
                                                at0 + cv.len() + 2,
                                            );
                                            assert(out@ =~= old(out)@ + (cv + seq![
                                                opcode_of(Instruction::SET),
                                                n1 as i32,
                                            ] + b->Ok_0.0));
                                        }
                                        Ok(())
                                    },
                                }
                            },
                        }
                    },
                }
            
            },
            _ => {
                proof {
                    assert(false);
                }
                Err(CompileError::UndefinedVariable)
            },
        }
    }

    /// The `if` case of [`Compiler::compile_expression`].
    #[verifier::rlimit(100)]
    #[verifier::spinoff_prover]
    fn compile_if(&mut self, expr: &Expr, out: &mut Vec<i32>) -> (r: Result<(), CompileError>)
        requires
            old(self).wf(),
            expr@ is If,
        ensures
            final(self).wf(),
            final(self).entries() == old(self).entries(),
            match lower(expr@, old(self).env(), old(self).next_reg(), old(out)@.len() as int) {
                Ok((code, nx)) => r is Ok && final(out)@ == old(out)@ + code
                    && final(self).next_reg() == nx,
                Err(ce) => r == Err::<(), CompileError>(ce),
            },
        decreases expr, 0int,
    {
        let ghost env0 = self.env();
        let ghost next0 = self.next_reg();
        let ghost at0 = out@.len() as int;
        match expr {
            Expr::If { condition, then_branch, else_branch } => {

                match self.compile_expression(condition, out) {
                    Err(ce) => Err(ce),
                    Ok(()) => {
                        let ghost n1 = self.next_reg();
                        let ghost cc = lower((**condition)@, env0, next0, at0)->Ok_0.0;
                        let jz_pos = out.len();
                        out.push(opcode(Instruction::JMZ));
                        out.push(0);
                        match self.compile_expression(then_branch, out) {
                            Err(ce) => Err(ce),
                            Ok(()) => {
                                let ghost n2 = self.next_reg();
                                let ghost ct = lower(
                                    (**then_branch)@,
                                    env0,
                                    n1,
                                    at0 + cc.len() + 2,
                                )->Ok_0.0;
                                let jmp_pos = out.len();
                                out.push(opcode(Instruction::JMP));
                                out.push(0);
                                let else_addr = out.len();
                                match self.compile_expression(else_branch, out) {
                                    Err(ce) => Err(ce),
                                    Ok(()) => {
                                        let end_addr = out.len();
                                        if end_addr > (i32::MAX as usize) {
                                            return Err(CompileError::ProgramTooLarge);
                                        }
                                        out[jz_pos + 1] = else_addr as i32;
                                        out[jmp_pos + 1] = end_addr as i32;
                                        proof {
                                            let ce_ = lower(
                                                (**else_branch)@,
                                                env0,
                                                n2,
                                                else_addr as int,
                                            )->Ok_0.0;
                                            assert(out@ =~= old(out)@ + (cc + seq![
                                                opcode_of(Instruction::JMZ),
                                                else_addr as i32,
                                            ] + ct + seq![
                                                opcode_of(Instruction::JMP),
                                                end_addr as i32,
                                            ] + ce_));
                                        }
                                        Ok(())
                                    },
                                }
                            },
                        }
                    },
                }
            
            },
            _ => {
                proof {
                    assert(false);
                }
                Err(CompileError::UndefinedVariable)
            },
        }
    }

    /// The `while` case of [`Compiler::compile_expression`].
    #[verifier::rlimit(100)]
    #[verifier::spinoff_prover]
    fn compile_while(&mut self, expr: &Expr, out: &mut Vec<i32>) -> (r: Result<(), CompileError>)
        requires
            old(self).wf(),
            expr@ is While,
        ensures
            final(self).wf(),
            final(self).entries() == old(self).entries(),
            match lower(expr@, old(self).env(), old(self).next_reg(), old(out)@.len() as int) {
                Ok((code, nx)) => r is Ok && final(out)@ == old(out)@ + code
                    && final(self).next_reg() == nx,
                Err(ce) => r == Err::<(), CompileError>(ce),
            },
        decreases expr, 0int,
    {
        let ghost env0 = self.env();
        let ghost next0 = self.next_reg();
        let ghost at0 = out@.len() as int;
        match expr {
            Expr::While { condition, body } => {

                out.push(opcode(Instruction::PSH));
                out.push(0);
                let loop_start = out.len();
                match self.compile_expression(condition, out) {
                    Err(ce) => Err(ce),
                    Ok(()) => {
                        let ghost n1 = self.next_reg();
                        let ghost cc = lower(
                            (**condition)@,
                            env0,
                            next0,
                            loop_start as int,
                        )->Ok_0.0;
                        let jmz_pos = out.len();
                        out.push(opcode(Instruction::JMZ));
                        out.push(0);
                        out.push(opcode(Instruction::POP));
                        match self.compile_expression(body, out) {
                            Err(ce) => Err(ce),
                            Ok(()) => {
                                if out.len() > (i32::MAX as usize) - 2 {
                                    return Err(CompileError::ProgramTooLarge);
                                }
                                let loop_end = out.len() + 2;
                                out.push(opcode(Instruction::JMP));
                                out.push(loop_start as i32);
                                out[jmz_pos + 1] = loop_end as i32;
                                proof {
                                    let cb = lower(
                                        (**body)@,
                                        env0,
                                        n1,
                                        loop_start as int + cc.len() + 3,
                                    )->Ok_0.0;
                                    assert(out@ =~= old(out)@ + (seq![
                                        opcode_of(Instruction::PSH),
                                        0i32,
                                    ] + cc + seq![
                                        opcode_of(Instruction::JMZ),
                                        loop_end as i32,
                                        opcode_of(Instruction::POP),
                                    ] + cb + seq![
                                        opcode_of(Instruction::JMP),
                                        loop_start as i32,
                                    ]));
                                }
                                Ok(())
                            },
                        }
                    },
                }
            
            },
            _ => {
                proof {
                    assert(false);
                }
                Err(CompileError::UndefinedVariable)
            },
        }
    }
}

/// The variables an expression reads from its enclosing scope: every
/// variable reference not enclosed by a `define` of that name.
pub open spec fn free_vars(e: ExprV) -> Set<Seq<char>>
    decreases e,
{
    match e {
        ExprV::Number(n) => Set::empty(),
        ExprV::Variable(x) => set![x],
        ExprV::Unary { op, expr } => free_vars(*expr),
        ExprV::Binary { left, op, right } => free_vars(*left) + free_vars(*right),
        ExprV::Define { name, value, body } => free_vars(*value) + free_vars(*body).remove(name),
        ExprV::If { condition, then_branch, else_branch } => free_vars(*condition) + free_vars(
            *then_branch,
        ) + free_vars(*else_branch),
        ExprV::While { condition, body } => free_vars(*condition) + free_vars(*body),
    }
}

/// An expression only lowers in an environment that binds all its free
/// variables.
pub proof fn lemma_lower_binds_free_vars(
    e: ExprV,
    env: Map<Seq<char>, usize>,
    next: int,
    at: int,
)
    requires
        lower(e, env, next, at) is Ok,
    ensures
        free_vars(e).subset_of(env.dom()),
    decreases e,
{
    match e {
        ExprV::Number(n) => {},
        ExprV::Variable(x) => {},
        ExprV::Unary { op, expr } => {
            lemma_lower_binds_free_vars(*expr, env, next, at + 2);
        },
        ExprV::Binary { left, op, right } => {
            lemma_lower_binds_free_vars(*left, env, next, at);
            let l = lower(*left, env, next, at)->Ok_0;
            lemma_lower_binds_free_vars(*right, env, l.1, at + l.0.len());
        },
        ExprV::Define { name, value, body } => {
            lemma_lower_binds_free_vars(*value, env, next, at);
            let v = lower(*value, env, next, at)->Ok_0;
            if env.contains_key(name) {
                lemma_lower_binds_free_vars(*body, env, v.1, at + v.0.len() + 2);
            } else {
                lemma_lower_binds_free_vars(
                    *body,
                    env.insert(name, v.1 as usize),
                    v.1 + 1,
                    at + v.0.len() + 2,
                );
                assert(free_vars(*body).remove(name).subset_of(env.dom()));
            }
        },
        ExprV::If { condition, then_branch, else_branch } => {
            lemma_lower_binds_free_vars(*condition, env, next, at);
            let c = lower(*condition, env, next, at)->Ok_0;
            lemma_lower_binds_free_vars(*then_branch, env, c.1, at + c.0.len() + 2);
            let t = lower(*then_branch, env, c.1, at + c.0.len() + 2)->Ok_0;
            lemma_lower_binds_free_vars(
                *else_branch,
                env,
                t.1,
                at + c.0.len() + 2 + t.0.len() + 2,
            );
        },
        ExprV::While { condition, body } => {
            lemma_lower_binds_free_vars(*condition, env, next, at + 2);
            let c = lower(*condition, env, next, at + 2)->Ok_0;
            lemma_lower_binds_free_vars(*body, env, c.1, at + 2 + c.0.len() + 3);
        },
    }
}

/// Scope hygiene: an expression that references a variable outside the
/// `define` body that would bind it does not compile.
pub proof fn theorem_scope_hygiene(e: ExprV, x: Seq<char>)
    requires
        free_vars(e).contains(x),
    ensures
        lower(e, Map::<Seq<char>, usize>::empty(), 0, 0) is Err,
{
    if lower(e, Map::<Seq<char>, usize>::empty(), 0, 0) is Ok {
        lemma_lower_binds_free_vars(e, Map::<Seq<char>, usize>::empty(), 0, 0);
        assert(Map::<Seq<char>, usize>::empty().dom().contains(x));
    }
}

/// Executable opcode of a binary operator's instruction.
fn binop_opcode(op: BinaryOp) -> (r: i32)
    ensures
        r == opcode_of(binop_instruction(op)),
{
    opcode(binop_instruction_exec(op))
}

/// Compile a whole expression to a runnable program: its lowered bytecode
/// followed by `HLT`; fails exactly when [`lower`] reports an error for the
/// empty environment.
pub fn compile(expr: &Expr) -> (r: Result<Vec<i32>, CompileError>)
    ensures
        match lower(expr@, Map::<Seq<char>, usize>::empty(), 0, 0) {
            Ok((code, nx)) => r matches Ok(p) && p@ == code.push(opcode_of(Instruction::HLT)),
            Err(ce) => r == Err::<Vec<i32>, CompileError>(ce),
        },
{
    let mut compiler = Compiler::new();
    let mut program: Vec<i32> = Vec::new();
    match compiler.compile_expression(expr, &mut program) {
        Ok(()) => {
            program.push(opcode(Instruction::HLT));
            proof {
                let code = lower(expr@, Map::<Seq<char>, usize>::empty(), 0, 0)->Ok_0.0;
                assert(program@ =~= code.push(opcode_of(Instruction::HLT)));
            }
            Ok(program)
        },
        Err(ce) => Err(ce),
    }
}

} // verus!

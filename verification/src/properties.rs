//! Laws that span the pipeline: operator precedence and associativity, as
//! they play out from the grammar through the lowering to the machine.

use vstd::prelude::*;
use crate::lexer::TokenV;
use crate::parser::{
    ExprV, BinaryOp, ParseError, sp_parse, sp_expr, sp_comparison, sp_cmp_rest, sp_additive,
    sp_add_rest, sp_term, sp_term_rest, sp_exponent, sp_exp_rest, sp_unary, sp_primary,
};
use crate::compiler::lower;
use crate::vm::{
    Instruction, opcode_of, fits_i32, machine_init, machine_outcome, run, step, MachineState,
    RuntimeError,
};

verus! {

/// The tree `a + (b * c)`.
pub open spec fn add_mul_tree(a: i32, b: i32, c: i32) -> ExprV {
    ExprV::Binary {
        left: Box::new(ExprV::Number(a)),
        op: BinaryOp::Add,
        right: Box::new(
            ExprV::Binary {
                left: Box::new(ExprV::Number(b)),
                op: BinaryOp::Mul,
                right: Box::new(ExprV::Number(c)),
            },
        ),
    }
}

/// The tree `(a ** b) ** c`.
pub open spec fn pow_pow_tree(a: i32, b: i32, c: i32) -> ExprV {
    ExprV::Binary {
        left: Box::new(
            ExprV::Binary {
                left: Box::new(ExprV::Number(a)),
                op: BinaryOp::Expn,
                right: Box::new(ExprV::Number(b)),
            },
        ),
        op: BinaryOp::Expn,
        right: Box::new(ExprV::Number(c)),
    }
}

/// Precedence: `a + b * c` parses as `a + (b * c)`, for all integers a, b,
/// c.
pub proof fn theorem_add_mul_precedence(a: i32, b: i32, c: i32)
    ensures
        sp_parse(
            seq![
                TokenV::Number(a),
                TokenV::Plus,
                TokenV::Number(b),
                TokenV::Star,
                TokenV::Number(c),
            ],
        ) == Ok::<ExprV, ParseError>(add_mul_tree(a, b, c)),
{
    let toks = seq![
        TokenV::Number(a),
        TokenV::Plus,
        TokenV::Number(b),
        TokenV::Star,
        TokenV::Number(c),
    ];
    reveal(sp_parse);
    reveal(sp_expr);
    reveal(sp_comparison);
    reveal(sp_cmp_rest);
    reveal(sp_additive);
    reveal_with_fuel(sp_add_rest, 3);
    reveal_with_fuel(sp_term, 3);
    reveal_with_fuel(sp_term_rest, 4);
    reveal_with_fuel(sp_exponent, 4);
    reveal_with_fuel(sp_exp_rest, 4);
    reveal_with_fuel(sp_unary, 4);
    reveal_with_fuel(sp_primary, 4);
    let na = ExprV::Number(a);
    let nb = ExprV::Number(b);
    let nc = ExprV::Number(c);
    assert(sp_unary(toks, 0) == Ok::<(ExprV, int), ParseError>((na, 1)));
    assert(sp_exponent(toks, 0) == Ok::<(ExprV, int), ParseError>((na, 1)));
    assert(sp_term(toks, 0) == Ok::<(ExprV, int), ParseError>((na, 1)));
    assert(sp_unary(toks, 2) == Ok::<(ExprV, int), ParseError>((nb, 3)));
    assert(sp_exponent(toks, 2) == Ok::<(ExprV, int), ParseError>((nb, 3)));
    assert(sp_unary(toks, 4) == Ok::<(ExprV, int), ParseError>((nc, 5)));
    assert(sp_exponent(toks, 4) == Ok::<(ExprV, int), ParseError>((nc, 5)));
    let bc = ExprV::Binary { left: Box::new(nb), op: BinaryOp::Mul, right: Box::new(nc) };
    assert(sp_term_rest(toks, 5, bc) == Ok::<(ExprV, int), ParseError>((bc, 5)));
    assert(sp_term_rest(toks, 3, nb) == Ok::<(ExprV, int), ParseError>((bc, 5)));
    assert(sp_term(toks, 2) == Ok::<(ExprV, int), ParseError>((bc, 5)));
    assert(sp_add_rest(toks, 5, add_mul_tree(a, b, c)) == Ok::<(ExprV, int), ParseError>(
        (add_mul_tree(a, b, c), 5),
    ));
    assert(sp_add_rest(toks, 1, na) == Ok::<(ExprV, int), ParseError>((add_mul_tree(a, b, c), 5)));
    assert(sp_additive(toks, 0) == Ok::<(ExprV, int), ParseError>((add_mul_tree(a, b, c), 5)));
    assert(sp_cmp_rest(toks, 5, add_mul_tree(a, b, c)) == Ok::<(ExprV, int), ParseError>(
        (add_mul_tree(a, b, c), 5),
    ));
    assert(sp_comparison(toks, 0) == Ok::<(ExprV, int), ParseError>((add_mul_tree(a, b, c), 5)));
    assert(sp_expr(toks, 0) == Ok::<(ExprV, int), ParseError>((add_mul_tree(a, b, c), 5)));
}

/// Associativity: `a ** b ** c` parses as `(a ** b) ** c`, left to right,
/// for all integers a, b, c.
pub proof fn theorem_pow_left_associative(a: i32, b: i32, c: i32)
    ensures
        sp_parse(
            seq![
                TokenV::Number(a),
                TokenV::StarStar,
                TokenV::Number(b),
                TokenV::StarStar,
                TokenV::Number(c),
            ],
        ) == Ok::<ExprV, ParseError>(pow_pow_tree(a, b, c)),
{
    let toks = seq![
        TokenV::Number(a),
        TokenV::StarStar,
        TokenV::Number(b),
        TokenV::StarStar,
        TokenV::Number(c),
    ];
    reveal(sp_parse);
    reveal(sp_expr);
    reveal(sp_comparison);
    reveal(sp_cmp_rest);
    reveal(sp_additive);
    reveal(sp_add_rest);
    reveal(sp_term);
    reveal(sp_term_rest);
    reveal(sp_exponent);
    reveal_with_fuel(sp_exp_rest, 4);
    reveal_with_fuel(sp_unary, 4);
    reveal_with_fuel(sp_primary, 4);
    let na = ExprV::Number(a);
    let nb = ExprV::Number(b);
    let nc = ExprV::Number(c);
    let ab = ExprV::Binary { left: Box::new(na), op: BinaryOp::Expn, right: Box::new(nb) };
    assert(sp_unary(toks, 0) == Ok::<(ExprV, int), ParseError>((na, 1)));
    assert(sp_unary(toks, 2) == Ok::<(ExprV, int), ParseError>((nb, 3)));
    assert(sp_unary(toks, 4) == Ok::<(ExprV, int), ParseError>((nc, 5)));
    assert(sp_exp_rest(toks, 5, pow_pow_tree(a, b, c)) == Ok::<(ExprV, int), ParseError>(
        (pow_pow_tree(a, b, c), 5),
    ));
    assert(sp_exp_rest(toks, 3, ab) == Ok::<(ExprV, int), ParseError>((pow_pow_tree(a, b, c), 5)));
    assert(sp_exp_rest(toks, 1, na) == Ok::<(ExprV, int), ParseError>((pow_pow_tree(a, b, c), 5)));
    assert(sp_exponent(toks, 0) == Ok::<(ExprV, int), ParseError>((pow_pow_tree(a, b, c), 5)));
    assert(sp_term(toks, 0) == Ok::<(ExprV, int), ParseError>((pow_pow_tree(a, b, c), 5)));
    assert(sp_additive(toks, 0) == Ok::<(ExprV, int), ParseError>((pow_pow_tree(a, b, c), 5)));
    assert(sp_comparison(toks, 0) == Ok::<(ExprV, int), ParseError>((pow_pow_tree(a, b, c), 5)));
    assert(sp_expr(toks, 0) == Ok::<(ExprV, int), ParseError>((pow_pow_tree(a, b, c), 5)));
}

/// Precedence, through the machine: the compiled `a + (b * c)` halts with
/// exactly `a + b * c` on the stack whenever neither the product nor the sum
/// overflows.
pub proof fn theorem_add_mul_evaluates(a: i32, b: i32, c: i32)
    requires
        fits_i32(b as int * c as int),
        fits_i32(a as int + b as int * c as int),
    ensures
        lower(add_mul_tree(a, b, c), Map::<Seq<char>, usize>::empty(), 0, 0) matches Ok((code, nx))
            && ({
            let prog = code.push(opcode_of(Instruction::HLT));
            let fin = run(prog, machine_init(), 7);
            &&& !fin.running
            &&& machine_outcome(fin) == Ok::<Option<i32>, RuntimeError>(
                Some((a as int + b as int * c as int) as i32),
            )
        }),
{
    let e = add_mul_tree(a, b, c);
    let r = lower(e, Map::<Seq<char>, usize>::empty(), 0, 0);
    assert(lower(ExprV::Number(a), Map::<Seq<char>, usize>::empty(), 0, 0) == Ok::<
        (Seq<i32>, int),
        crate::compiler::CompileError,
    >((seq![0i32, a], 0)));
    assert(lower(ExprV::Number(b), Map::<Seq<char>, usize>::empty(), 0, 2) == Ok::<
        (Seq<i32>, int),
        crate::compiler::CompileError,
    >((seq![0i32, b], 0)));
    assert(lower(ExprV::Number(c), Map::<Seq<char>, usize>::empty(), 0, 4) == Ok::<
        (Seq<i32>, int),
        crate::compiler::CompileError,
    >((seq![0i32, c], 0)));
    let mul = ExprV::Binary {
        left: Box::new(ExprV::Number(b)),
        op: BinaryOp::Mul,
        right: Box::new(ExprV::Number(c)),
    };
    assert(lower(mul, Map::<Seq<char>, usize>::empty(), 0, 2) matches Ok((mc, mn)) && mc =~= seq![
        0i32,
        b,
        0i32,
        c,
        4i32,
    ] && mn == 0);
    let code = r->Ok_0.0;
    assert(code =~= seq![0i32, a, 0i32, b, 0i32, c, 4i32, 2i32]);
    let prog = code.push(opcode_of(Instruction::HLT));
    assert(prog =~= seq![0i32, a, 0i32, b, 0i32, c, 4i32, 2i32, 7i32]);
    let s0 = machine_init();
    let s1 = step(prog, s0);
    assert(s1.stack =~= seq![a] && s1.ip == 2 && s1.running && s1.error is None && s1.regs
        == s0.regs);
    let s2 = step(prog, s1);
    assert(s2.stack =~= seq![a, b] && s2.ip == 4 && s2.running && s2.error is None && s2.regs
        == s0.regs);
    let s3 = step(prog, s2);
    assert(s3.stack =~= seq![a, b, c] && s3.ip == 6 && s3.running && s3.error is None && s3.regs
        == s0.regs);
    let s4 = step(prog, s3);
    let bc = (b as int * c as int) as i32;
    assert(s3.stack.drop_last().drop_last() =~= seq![a]);
    assert(s4.stack =~= seq![a, bc] && s4.ip == 7 && s4.running && s4.error is None && s4.regs
        == s0.regs);
    let s5 = step(prog, s4);
    let total = (a as int + b as int * c as int) as i32;
    assert(s4.stack.drop_last().drop_last() =~= Seq::<i32>::empty());
    assert(s5.stack =~= seq![total] && s5.ip == 8 && s5.running && s5.error is None);
    let s6 = step(prog, s5);
    assert(!s6.running && s6.error is None && s6.stack =~= seq![total]);
    assert(run(prog, s0, 7) == run(prog, s6, 1)) by {
        reveal_with_fuel(run, 8);
    }
    assert(run(prog, s0, 7) == s6);
    assert(machine_outcome(s6) == Ok::<Option<i32>, RuntimeError>(Some(total)));
}

} // verus!

//! The parser: tokens to expression trees, by recursive descent with the
//! usual precedence climbing. The grammar is fixed by the spec-level parsing
//! functions ([`sp_parse`] and the family below it); the executable
//! [`Parser`] is proved to build exactly the tree they describe.

use vstd::prelude::*;
use crate::lexer::{Token, TokenV, toks_view};

verus! {

/// The unary operators of the language.
#[derive(Clone, Copy, Debug, PartialEq, Eq, Structural)]
pub enum UnaryOp {
    Neg,
}

/// The binary operators of the language.
#[derive(Clone, Copy, Debug, PartialEq, Eq, Structural)]
pub enum BinaryOp {
    Add,
    Sub,
    Mul,
    Div,
    Mod,
    Expn,
    FloorDiv,
    Equal,
    NotEqual,
    Less,
    Greater,
    LessEq,
    GreaterEq,
}

/// The expression tree. Every construct of the language, including `if` and
/// `while`, is an expression with a single integer value.
#[derive(Debug)]
pub enum Expr {
    Number(i32),
    Variable(String),
    Define { name: String, value: Box<Expr>, body: Box<Expr> },
    Unary { op: UnaryOp, expr: Box<Expr> },
    Binary { left: Box<Expr>, op: BinaryOp, right: Box<Expr> },
    If { condition: Box<Expr>, then_branch: Box<Expr>, else_branch: Box<Expr> },
    While { condition: Box<Expr>, body: Box<Expr> },
}

/// The mathematical value of an expression tree: variable names become
/// character sequences.
pub enum ExprV {
    Number(i32),
    Variable(Seq<char>),
    Define { name: Seq<char>, value: Box<ExprV>, body: Box<ExprV> },
    Unary { op: UnaryOp, expr: Box<ExprV> },
    Binary { left: Box<ExprV>, op: BinaryOp, right: Box<ExprV> },
    If { condition: Box<ExprV>, then_branch: Box<ExprV>, else_branch: Box<ExprV> },
    While { condition: Box<ExprV>, body: Box<ExprV> },
}

impl View for Expr {
    type V = ExprV;

    open spec fn view(&self) -> ExprV
        decreases self,
    {
        match self {
            Expr::Number(n) => ExprV::Number(*n),
            Expr::Variable(x) => ExprV::Variable(x@),
            Expr::Define { name, value, body } => ExprV::Define {
                name: name@,
                value: Box::new((**value).view()),
                body: Box::new((**body).view()),
            },
            Expr::Unary { op, expr } => ExprV::Unary {
                op: *op,
                expr: Box::new((**expr).view()),
            },
            Expr::Binary { left, op, right } => ExprV::Binary {
                left: Box::new((**left).view()),
                op: *op,
                right: Box::new((**right).view()),
            },
            Expr::If { condition, then_branch, else_branch } => ExprV::If {
                condition: Box::new((**condition).view()),
                then_branch: Box::new((**then_branch).view()),
                else_branch: Box::new((**else_branch).view()),
            },
            Expr::While { condition, body } => ExprV::While {
                condition: Box::new((**condition).view()),
                body: Box::new((**body).view()),
            },
        }
    }
}

/// The ways a token sequence can fail to parse.
#[derive(Clone, Copy, Debug, PartialEq, Eq, Structural)]
pub enum ParseError {
    /// A specific token (a parenthesis, or the name after `define (`) was
    /// required and something else, or the end of input, was found.
    ExpectedToken,
    /// A token that no primary expression can start with.
    UnexpectedToken,
    /// The input ended where an expression was required.
    UnexpectedEndOfInput,
    /// Tokens remained after the top-level expression.
    TrailingTokens,
}

/// The comparison operators, lowest precedence among the binary operators.
pub open spec fn is_cmp_token(t: TokenV) -> bool {
    match t {
        TokenV::Equal
        | TokenV::NotEqual
        | TokenV::Less
        | TokenV::Greater
        | TokenV::LessEq
        | TokenV::GreaterEq => true,
        _ => false,
    }
}

/// The operator a comparison token stands for.
pub open spec fn cmp_op_of(t: TokenV) -> BinaryOp {
    match t {
        TokenV::Equal => BinaryOp::Equal,
        TokenV::NotEqual => BinaryOp::NotEqual,
        TokenV::Less => BinaryOp::Less,
        TokenV::Greater => BinaryOp::Greater,
        TokenV::LessEq => BinaryOp::LessEq,
        _ => BinaryOp::GreaterEq,
    }
}

/// The additive operators.
pub open spec fn is_add_token(t: TokenV) -> bool {
    t is Plus || t is Minus
}

/// The operator an additive token stands for.
pub open spec fn add_op_of(t: TokenV) -> BinaryOp {
    if t is Plus {
        BinaryOp::Add
    } else {
        BinaryOp::Sub
    }
}

/// The exponentiation operator, as a one-element operator class.
pub open spec fn is_pow_token(t: TokenV) -> bool {
    t is StarStar
}

/// The operator the exponentiation token stands for.
pub open spec fn pow_op_of(t: TokenV) -> BinaryOp {
    BinaryOp::Expn
}

/// The multiplicative operators.
pub open spec fn is_term_token(t: TokenV) -> bool {
    match t {
        TokenV::Star | TokenV::Slash | TokenV::Percent | TokenV::SlashSlash => true,
        _ => false,
    }
}

/// The operator a multiplicative token stands for.
pub open spec fn term_op_of(t: TokenV) -> BinaryOp {
    match t {
        TokenV::Star => BinaryOp::Mul,
        TokenV::Slash => BinaryOp::Div,
        TokenV::Percent => BinaryOp::Mod,
        _ => BinaryOp::FloorDiv,
    }
}

/// Clamp a continuation position into `(pos, len]`, so that every recursive
/// descent step provably consumes input. The parsing functions only reach it
/// with positions that are already in range, where it is the identity.
pub open spec fn next_pos(len: int, pos: int, q: int) -> int {
    if pos < q <= len {
        q
    } else if pos + 1 <= len {
        pos + 1
    } else {
        len
    }
}

/// Parse an expression: a `define`, `if` or `while` form, or a comparison
/// chain.
#[verifier::opaque]
pub open spec fn sp_expr(toks: Seq<TokenV>, pos: int) -> Result<(ExprV, int), ParseError>
    decreases toks.len() - pos, 12int,
{
    if !(0 <= pos <= toks.len()) {
        // an out-of-range position parses to an error; this keeps the function total
        Err(ParseError::UnexpectedEndOfInput)
    } else {
        if pos < toks.len() && toks[pos] is Define {
            sp_define(toks, pos)
        } else if pos < toks.len() && toks[pos] is If {
            sp_if(toks, pos)
        } else if pos < toks.len() && toks[pos] is While {
            sp_while(toks, pos)
        } else {
            sp_comparison(toks, pos)
        }
    }
}

/// Parse `define ( NAME value body )`, starting at the `define` token.
#[verifier::opaque]
pub open spec fn sp_define(toks: Seq<TokenV>, pos: int) -> Result<(ExprV, int), ParseError>
    decreases toks.len() - pos, 11int,
{
    if !(0 <= pos <= toks.len()) {
        // an out-of-range position parses to an error; this keeps the function total
        Err(ParseError::UnexpectedEndOfInput)
    } else {
        if !(pos + 1 < toks.len() && toks[pos + 1] is LPara) {
            Err(ParseError::ExpectedToken)
        } else if !(pos + 2 < toks.len() && toks[pos + 2] is Ident) {
            Err(ParseError::ExpectedToken)
        } else {
            let name = toks[pos + 2]->Ident_0;
            match sp_expr(toks, pos + 3) {
                Err(e) => Err(e),
                Ok((value, p1)) => match sp_expr(toks, next_pos(toks.len() as int, pos, p1)) {
                    Err(e) => Err(e),
                    Ok((body, p2)) => if p2 < toks.len() && toks[p2] is RPara {
                        Ok(
                            (
                                ExprV::Define {
                                    name,
                                    value: Box::new(value),
                                    body: Box::new(body),
                                },
                                p2 + 1,
                            ),
                        )
                    } else {
                        Err(ParseError::ExpectedToken)
                    },
                },
            }
        }
    }
}

/// Parse `if ( condition then else )`, starting at the `if` token.
#[verifier::opaque]
pub open spec fn sp_if(toks: Seq<TokenV>, pos: int) -> Result<(ExprV, int), ParseError>
    decreases toks.len() - pos, 11int,
{
    if !(0 <= pos <= toks.len()) {
        // an out-of-range position parses to an error; this keeps the function total
        Err(ParseError::UnexpectedEndOfInput)
    } else {
        if !(pos + 1 < toks.len() && toks[pos + 1] is LPara) {
            Err(ParseError::ExpectedToken)
        } else {
            match sp_expr(toks, pos + 2) {
                Err(e) => Err(e),
                Ok((condition, p1)) => match sp_expr(toks, next_pos(toks.len() as int, pos, p1)) {
                    Err(e) => Err(e),
                    Ok((then_branch, p2)) => match sp_expr(
                        toks,
                        next_pos(toks.len() as int, pos, p2),
                    ) {
                        Err(e) => Err(e),
                        Ok((else_branch, p3)) => if p3 < toks.len() && toks[p3] is RPara {
                            Ok(
                                (
                                    ExprV::If {
                                        condition: Box::new(condition),
                                        then_branch: Box::new(then_branch),
                                        else_branch: Box::new(else_branch),
                                    },
                                    p3 + 1,
                                ),
                            )
                        } else {
                            Err(ParseError::ExpectedToken)
                        },
                    },
                },
            }
        }
    }
}

/// Parse `while ( condition body )`, starting at the `while` token.
#[verifier::opaque]
pub open spec fn sp_while(toks: Seq<TokenV>, pos: int) -> Result<(ExprV, int), ParseError>
    decreases toks.len() - pos, 11int,
{
    if !(0 <= pos <= toks.len()) {
        // an out-of-range position parses to an error; this keeps the function total
        Err(ParseError::UnexpectedEndOfInput)
    } else {
        if !(pos + 1 < toks.len() && toks[pos + 1] is LPara) {
            Err(ParseError::ExpectedToken)
        } else {
            match sp_expr(toks, pos + 2) {
                Err(e) => Err(e),
                Ok((condition, p1)) => match sp_expr(toks, next_pos(toks.len() as int, pos, p1)) {
                    Err(e) => Err(e),
                    Ok((body, p2)) => if p2 < toks.len() && toks[p2] is RPara {
                        Ok(
                            (
                                ExprV::While { condition: Box::new(condition), body: Box::new(body) },
                                p2 + 1,
                            ),
                        )
                    } else {
                        Err(ParseError::ExpectedToken)
                    },
                },
            }
        }
    }
}

/// Parse a left-associative chain of comparisons over additive expressions.
#[verifier::opaque]
pub open spec fn sp_comparison(toks: Seq<TokenV>, pos: int) -> Result<(ExprV, int), ParseError>
    decreases toks.len() - pos, 10int,
{
    if !(0 <= pos <= toks.len()) {
        // an out-of-range position parses to an error; this keeps the function total
        Err(ParseError::UnexpectedEndOfInput)
    } else {
        match sp_additive(toks, pos) {
            Err(e) => Err(e),
            Ok((left, p1)) => sp_cmp_rest(toks, next_pos(toks.len() as int, pos, p1), left),
        }
    }
}

/// Extend `left` with further `OP additive` steps, left-associatively.
#[verifier::opaque]
pub open spec fn sp_cmp_rest(toks: Seq<TokenV>, pos: int, left: ExprV) -> Result<
    (ExprV, int),
    ParseError,
>
    decreases toks.len() - pos, 9int,
{
    if !(0 <= pos <= toks.len()) {
        // an out-of-range position parses to an error; this keeps the function total
        Err(ParseError::UnexpectedEndOfInput)
    } else {
        if pos < toks.len() && is_cmp_token(toks[pos]) {
            match sp_additive(toks, pos + 1) {
                Err(e) => Err(e),
                Ok((right, p2)) => sp_cmp_rest(
                    toks,
                    next_pos(toks.len() as int, pos, p2),
                    ExprV::Binary {
                        left: Box::new(left),
                        op: cmp_op_of(toks[pos]),
                        right: Box::new(right),
                    },
                ),
            }
        } else {
            Ok((left, pos))
        }
    }
}

/// Parse a left-associative chain of `+` and `-` over terms.
#[verifier::opaque]
pub open spec fn sp_additive(toks: Seq<TokenV>, pos: int) -> Result<(ExprV, int), ParseError>
    decreases toks.len() - pos, 8int,
{
    if !(0 <= pos <= toks.len()) {
        // an out-of-range position parses to an error; this keeps the function total
        Err(ParseError::UnexpectedEndOfInput)
    } else {
        match sp_term(toks, pos) {
            Err(e) => Err(e),
            Ok((left, p1)) => sp_add_rest(toks, next_pos(toks.len() as int, pos, p1), left),
        }
    }
}

/// Extend `left` with further `+`/`-` steps, left-associatively.
#[verifier::opaque]
pub open spec fn sp_add_rest(toks: Seq<TokenV>, pos: int, left: ExprV) -> Result<
    (ExprV, int),
    ParseError,
>
    decreases toks.len() - pos, 7int,
{
    if !(0 <= pos <= toks.len()) {
        // an out-of-range position parses to an error; this keeps the function total
        Err(ParseError::UnexpectedEndOfInput)
    } else {
        if pos < toks.len() && is_add_token(toks[pos]) {
            match sp_term(toks, pos + 1) {
                Err(e) => Err(e),
                Ok((right, p2)) => sp_add_rest(
                    toks,
                    next_pos(toks.len() as int, pos, p2),
                    ExprV::Binary {
                        left: Box::new(left),
                        op: add_op_of(toks[pos]),
                        right: Box::new(right),
                    },
                ),
            }
        } else {
            Ok((left, pos))
        }
    }
}

/// Parse a left-associative chain of `*`, `/`, `%`, `//` over exponent
/// expressions.
#[verifier::opaque]
pub open spec fn sp_term(toks: Seq<TokenV>, pos: int) -> Result<(ExprV, int), ParseError>
    decreases toks.len() - pos, 6int,
{
    if !(0 <= pos <= toks.len()) {
        // an out-of-range position parses to an error; this keeps the function total
        Err(ParseError::UnexpectedEndOfInput)
    } else {
        match sp_exponent(toks, pos) {
            Err(e) => Err(e),
            Ok((left, p1)) => sp_term_rest(toks, next_pos(toks.len() as int, pos, p1), left),
        }
    }
}

/// Extend `left` with further `*`/`/`/`%`/`//` steps, left-associatively.
#[verifier::opaque]
pub open spec fn sp_term_rest(toks: Seq<TokenV>, pos: int, left: ExprV) -> Result<
    (ExprV, int),
    ParseError,
>
    decreases toks.len() - pos, 5int,
{
    if !(0 <= pos <= toks.len()) {
        // an out-of-range position parses to an error; this keeps the function total
        Err(ParseError::UnexpectedEndOfInput)
    } else {
        if pos < toks.len() && is_term_token(toks[pos]) {
            match sp_exponent(toks, pos + 1) {
                Err(e) => Err(e),
                Ok((right, p2)) => sp_term_rest(
                    toks,
                    next_pos(toks.len() as int, pos, p2),
                    ExprV::Binary {
                        left: Box::new(left),
                        op: term_op_of(toks[pos]),
                        right: Box::new(right),
                    },
                ),
            }
        } else {
            Ok((left, pos))
        }
    }
}

/// Parse a left-associative chain of `**` over unary expressions.
#[verifier::opaque]
pub open spec fn sp_exponent(toks: Seq<TokenV>, pos: int) -> Result<(ExprV, int), ParseError>
    decreases toks.len() - pos, 4int,
{
    if !(0 <= pos <= toks.len()) {
        // an out-of-range position parses to an error; this keeps the function total
        Err(ParseError::UnexpectedEndOfInput)
    } else {
        match sp_unary(toks, pos) {
            Err(e) => Err(e),
            Ok((left, p1)) => sp_exp_rest(toks, next_pos(toks.len() as int, pos, p1), left),
        }
    }
}

/// Extend `left` with further `**` steps, left-associatively.
#[verifier::opaque]
pub open spec fn sp_exp_rest(toks: Seq<TokenV>, pos: int, left: ExprV) -> Result<
    (ExprV, int),
    ParseError,
>
    decreases toks.len() - pos, 3int,
{
    if !(0 <= pos <= toks.len()) {
        // an out-of-range position parses to an error; this keeps the function total
        Err(ParseError::UnexpectedEndOfInput)
    } else {
        if pos < toks.len() && is_pow_token(toks[pos]) {
            match sp_unary(toks, pos + 1) {
                Err(e) => Err(e),
                Ok((right, p2)) => sp_exp_rest(
                    toks,
                    next_pos(toks.len() as int, pos, p2),
                    ExprV::Binary {
                        left: Box::new(left),
                        op: pow_op_of(toks[pos]),
                        right: Box::new(right),
                    },
                ),
            }
        } else {
            Ok((left, pos))
        }
    }
}

/// Parse a chain of unary minus signs followed by a primary expression.
#[verifier::opaque]
pub open spec fn sp_unary(toks: Seq<TokenV>, pos: int) -> Result<(ExprV, int), ParseError>
    decreases toks.len() - pos, 2int,
{
    if !(0 <= pos <= toks.len()) {
        // an out-of-range position parses to an error; this keeps the function total
        Err(ParseError::UnexpectedEndOfInput)
    } else {
        if pos < toks.len() && toks[pos] is Minus {
            match sp_unary(toks, pos + 1) {
                Err(e) => Err(e),
                Ok((inner, p1)) => Ok(
                    (ExprV::Unary { op: UnaryOp::Neg, expr: Box::new(inner) }, p1),
                ),
            }
        } else {
            sp_primary(toks, pos)
        }
    }
}

/// Parse a primary expression: a literal, a variable, or a parenthesized
/// expression.
#[verifier::opaque]
pub open spec fn sp_primary(toks: Seq<TokenV>, pos: int) -> Result<(ExprV, int), ParseError>
    decreases toks.len() - pos, 1int,
{
    if !(0 <= pos <= toks.len()) {
        // an out-of-range position parses to an error; this keeps the function total
        Err(ParseError::UnexpectedEndOfInput)
    } else {
        if pos >= toks.len() {
            Err(ParseError::UnexpectedEndOfInput)
        } else {
            match toks[pos] {
                TokenV::Number(n) => Ok((ExprV::Number(n), pos + 1)),
                TokenV::Ident(x) => Ok((ExprV::Variable(x), pos + 1)),
                TokenV::LPara => match sp_expr(toks, pos + 1) {
                    Err(e) => Err(e),
                    Ok((inner, p1)) => if p1 < toks.len() && toks[p1] is RPara {
                        Ok((inner, p1 + 1))
                    } else {
                        Err(ParseError::ExpectedToken)
                    },
                },
                _ => Err(ParseError::UnexpectedToken),
            }
        }
    }
}

/// Parse a whole token sequence as one expression; tokens left over after it
/// are an error.
#[verifier::opaque]
pub open spec fn sp_parse(toks: Seq<TokenV>) -> Result<ExprV, ParseError> {
    match sp_expr(toks, 0) {
        Err(e) => Err(e),
        Ok((e, p)) => if p == toks.len() {
            Ok(e)
        } else {
            Err(ParseError::TrailingTokens)
        },
    }
}



/// One unfolding of [`sp_comparison`].
#[verifier::rlimit(100)]
#[verifier::spinoff_prover]
proof fn lemma_comparison_unfold(toks: Seq<TokenV>, pos: int)
    requires
        0 <= pos <= toks.len(),
    ensures
        sp_comparison(toks, pos) == (match sp_additive(toks, pos) {
            Err(e) => Err::<(ExprV, int), ParseError>(e),
            Ok((left, p1)) => sp_cmp_rest(toks, next_pos(toks.len() as int, pos, p1), left),
        }),
{
    reveal(sp_comparison);
    match sp_additive(toks, pos) {
        Err(e) => {
            assert(sp_comparison(toks, pos) == Err::<(ExprV, int), ParseError>(e));
        },
        Ok((left, p1)) => {
            assert(sp_comparison(toks, pos) == sp_cmp_rest(toks, next_pos(toks.len() as int, pos, p1), left));
        },
    }
}

/// A chain with no operator at `pos` ends, yielding its left operand.
#[verifier::rlimit(100)]
#[verifier::spinoff_prover]
proof fn lemma_comparison_rest_stop(toks: Seq<TokenV>, pos: int, left: ExprV)
    requires
        0 <= pos <= toks.len(),
        !(pos < toks.len() && is_cmp_token(toks[pos])),
    ensures
        sp_cmp_rest(toks, pos, left) == Ok::<(ExprV, int), ParseError>((left, pos)),
{
    reveal(sp_cmp_rest);
}

/// A chain with an operator at `pos` takes one more operand and continues.
#[verifier::rlimit(100)]
#[verifier::spinoff_prover]
proof fn lemma_comparison_rest_step(toks: Seq<TokenV>, pos: int, left: ExprV)
    requires
        0 <= pos < toks.len(),
        is_cmp_token(toks[pos]),
    ensures
        sp_cmp_rest(toks, pos, left) == (match sp_additive(toks, pos + 1) {
            Err(e) => Err::<(ExprV, int), ParseError>(e),
            Ok((right, p2)) => sp_cmp_rest(
                toks,
                next_pos(toks.len() as int, pos, p2),
                ExprV::Binary {
                    left: Box::new(left),
                    op: cmp_op_of(toks[pos]),
                    right: Box::new(right),
                },
            ),
        }),
{
    reveal(sp_cmp_rest);
    match sp_additive(toks, pos + 1) {
        Err(e) => {
            assert(sp_cmp_rest(toks, pos, left) == Err::<(ExprV, int), ParseError>(e));
        },
        Ok((right, p2)) => {
            assert(sp_cmp_rest(toks, pos, left) == sp_cmp_rest(
                toks,
                next_pos(toks.len() as int, pos, p2),
                ExprV::Binary {
                    left: Box::new(left),
                    op: cmp_op_of(toks[pos]),
                    right: Box::new(right),
                },
            ));
        },
    }
}

/// One unfolding of [`sp_additive`].
#[verifier::rlimit(100)]
#[verifier::spinoff_prover]
proof fn lemma_additive_unfold(toks: Seq<TokenV>, pos: int)
    requires
        0 <= pos <= toks.len(),
    ensures
        sp_additive(toks, pos) == (match sp_term(toks, pos) {
            Err(e) => Err::<(ExprV, int), ParseError>(e),
            Ok((left, p1)) => sp_add_rest(toks, next_pos(toks.len() as int, pos, p1), left),
        }),
{
    reveal(sp_additive);
    match sp_term(toks, pos) {
        Err(e) => {
            assert(sp_additive(toks, pos) == Err::<(ExprV, int), ParseError>(e));
        },
        Ok((left, p1)) => {
            assert(sp_additive(toks, pos) == sp_add_rest(toks, next_pos(toks.len() as int, pos, p1), left));
        },
    }
}

/// A chain with no operator at `pos` ends, yielding its left operand.
#[verifier::rlimit(100)]
#[verifier::spinoff_prover]
proof fn lemma_additive_rest_stop(toks: Seq<TokenV>, pos: int, left: ExprV)
    requires
        0 <= pos <= toks.len(),
        !(pos < toks.len() && is_add_token(toks[pos])),
    ensures
        sp_add_rest(toks, pos, left) == Ok::<(ExprV, int), ParseError>((left, pos)),
{
    reveal(sp_add_rest);
}

/// A chain with an operator at `pos` takes one more operand and continues.
#[verifier::rlimit(100)]
#[verifier::spinoff_prover]
proof fn lemma_additive_rest_step(toks: Seq<TokenV>, pos: int, left: ExprV)
    requires
        0 <= pos < toks.len(),
        is_add_token(toks[pos]),
    ensures
        sp_add_rest(toks, pos, left) == (match sp_term(toks, pos + 1) {
            Err(e) => Err::<(ExprV, int), ParseError>(e),
            Ok((right, p2)) => sp_add_rest(
                toks,
                next_pos(toks.len() as int, pos, p2),
                ExprV::Binary {
                    left: Box::new(left),
                    op: add_op_of(toks[pos]),
                    right: Box::new(right),
                },
            ),
        }),
{
    reveal(sp_add_rest);
    match sp_term(toks, pos + 1) {
        Err(e) => {
            assert(sp_add_rest(toks, pos, left) == Err::<(ExprV, int), ParseError>(e));
        },
        Ok((right, p2)) => {
            assert(sp_add_rest(toks, pos, left) == sp_add_rest(
                toks,
                next_pos(toks.len() as int, pos, p2),
                ExprV::Binary {
                    left: Box::new(left),
                    op: add_op_of(toks[pos]),
                    right: Box::new(right),
                },
            ));
        },
    }
}

/// One unfolding of [`sp_term`].
#[verifier::rlimit(100)]
#[verifier::spinoff_prover]
proof fn lemma_term_unfold(toks: Seq<TokenV>, pos: int)
    requires
        0 <= pos <= toks.len(),
    ensures
        sp_term(toks, pos) == (match sp_exponent(toks, pos) {
            Err(e) => Err::<(ExprV, int), ParseError>(e),
            Ok((left, p1)) => sp_term_rest(toks, next_pos(toks.len() as int, pos, p1), left),
        }),
{
    reveal(sp_term);
    match sp_exponent(toks, pos) {
        Err(e) => {
            assert(sp_term(toks, pos) == Err::<(ExprV, int), ParseError>(e));
        },
        Ok((left, p1)) => {
            assert(sp_term(toks, pos) == sp_term_rest(toks, next_pos(toks.len() as int, pos, p1), left));
        },
    }
}

/// A chain with no operator at `pos` ends, yielding its left operand.
#[verifier::rlimit(100)]
#[verifier::spinoff_prover]
proof fn lemma_term_rest_stop(toks: Seq<TokenV>, pos: int, left: ExprV)
    requires
        0 <= pos <= toks.len(),
        !(pos < toks.len() && is_term_token(toks[pos])),
    ensures
        sp_term_rest(toks, pos, left) == Ok::<(ExprV, int), ParseError>((left, pos)),
{
    reveal(sp_term_rest);
}

/// A chain with an operator at `pos` takes one more operand and continues.
#[verifier::rlimit(100)]
#[verifier::spinoff_prover]
proof fn lemma_term_rest_step(toks: Seq<TokenV>, pos: int, left: ExprV)
    requires
        0 <= pos < toks.len(),
        is_term_token(toks[pos]),
    ensures
        sp_term_rest(toks, pos, left) == (match sp_exponent(toks, pos + 1) {
            Err(e) => Err::<(ExprV, int), ParseError>(e),
            Ok((right, p2)) => sp_term_rest(
                toks,
                next_pos(toks.len() as int, pos, p2),
                ExprV::Binary {
                    left: Box::new(left),
                    op: term_op_of(toks[pos]),
                    right: Box::new(right),
                },
            ),
        }),
{
    reveal(sp_term_rest);
    match sp_exponent(toks, pos + 1) {
        Err(e) => {
            assert(sp_term_rest(toks, pos, left) == Err::<(ExprV, int), ParseError>(e));
        },
        Ok((right, p2)) => {
            assert(sp_term_rest(toks, pos, left) == sp_term_rest(
                toks,
                next_pos(toks.len() as int, pos, p2),
                ExprV::Binary {
                    left: Box::new(left),
                    op: term_op_of(toks[pos]),
                    right: Box::new(right),
                },
            ));
        },
    }
}

/// One unfolding of [`sp_exponent`].
#[verifier::rlimit(100)]
#[verifier::spinoff_prover]
proof fn lemma_exponent_unfold(toks: Seq<TokenV>, pos: int)
    requires
        0 <= pos <= toks.len(),
    ensures
        sp_exponent(toks, pos) == (match sp_unary(toks, pos) {
            Err(e) => Err::<(ExprV, int), ParseError>(e),
            Ok((left, p1)) => sp_exp_rest(toks, next_pos(toks.len() as int, pos, p1), left),
        }),
{
    reveal(sp_exponent);
    match sp_unary(toks, pos) {
        Err(e) => {
            assert(sp_exponent(toks, pos) == Err::<(ExprV, int), ParseError>(e));
        },
        Ok((left, p1)) => {
            assert(sp_exponent(toks, pos) == sp_exp_rest(toks, next_pos(toks.len() as int, pos, p1), left));
        },
    }
}

/// A chain with no operator at `pos` ends, yielding its left operand.
#[verifier::rlimit(100)]
#[verifier::spinoff_prover]
proof fn lemma_exponent_rest_stop(toks: Seq<TokenV>, pos: int, left: ExprV)
    requires
        0 <= pos <= toks.len(),
        !(pos < toks.len() && is_pow_token(toks[pos])),
    ensures
        sp_exp_rest(toks, pos, left) == Ok::<(ExprV, int), ParseError>((left, pos)),
{
    reveal(sp_exp_rest);
}

/// A chain with an operator at `pos` takes one more operand and continues.
#[verifier::rlimit(100)]
#[verifier::spinoff_prover]
proof fn lemma_exponent_rest_step(toks: Seq<TokenV>, pos: int, left: ExprV)
    requires
        0 <= pos < toks.len(),
        is_pow_token(toks[pos]),
    ensures
        sp_exp_rest(toks, pos, left) == (match sp_unary(toks, pos + 1) {
            Err(e) => Err::<(ExprV, int), ParseError>(e),
            Ok((right, p2)) => sp_exp_rest(
                toks,
                next_pos(toks.len() as int, pos, p2),
                ExprV::Binary {
                    left: Box::new(left),
                    op: pow_op_of(toks[pos]),
                    right: Box::new(right),
                },
            ),
        }),
{
    reveal(sp_exp_rest);
    match sp_unary(toks, pos + 1) {
        Err(e) => {
            assert(sp_exp_rest(toks, pos, left) == Err::<(ExprV, int), ParseError>(e));
        },
        Ok((right, p2)) => {
            assert(sp_exp_rest(toks, pos, left) == sp_exp_rest(
                toks,
                next_pos(toks.len() as int, pos, p2),
                ExprV::Binary {
                    left: Box::new(left),
                    op: pow_op_of(toks[pos]),
                    right: Box::new(right),
                },
            ));
        },
    }
}

/// The parser walks a token sequence once, left to right.
pub struct Parser {
    tokens: Vec<Token>,
    pos: usize,
}

impl Parser {
    /// The token values being parsed.
    pub closed spec fn toks(&self) -> Seq<TokenV> {
        toks_view(self.tokens@)
    }

    /// The current position, as an index into [`Parser::toks`].
    pub closed spec fn at(&self) -> int {
        self.pos as int
    }

    /// The position is inside the token sequence (or just past it).
    pub open spec fn wf(&self) -> bool {
        0 <= self.at() <= self.toks().len() <= usize::MAX
    }

    /// A parser at the start of `tokens`.
    pub fn new(tokens: Vec<Token>) -> (p: Parser)
        ensures
            p.toks() == toks_view(tokens@),
            p.at() == 0,
            p.wf(),
    {
        let n = tokens.len();
        Parser { tokens, pos: 0 }
    }

    /// Parse the whole token sequence as one expression; leftover tokens are
    /// reported as `TrailingTokens`. On a fresh parser this is exactly
    /// [`sp_parse`] of the tokens.
    #[verifier::rlimit(100)]
    #[verifier::spinoff_prover]
    pub fn parse(&mut self) -> (r: Result<Expr, ParseError>)
        requires
            old(self).wf(),
        ensures
            final(self).toks() == old(self).toks(),
            final(self).wf(),
            match sp_expr(old(self).toks(), old(self).at()) {
                Ok((ev, p)) => if p == old(self).toks().len() {
                    r matches Ok(e) && e@ == ev
                } else {
                    r == Err::<Expr, ParseError>(ParseError::TrailingTokens)
                },
                Err(pe) => r == Err::<Expr, ParseError>(pe),
            },
            old(self).at() == 0 ==> match sp_parse(old(self).toks()) {
                Ok(ev) => r matches Ok(e) && e@ == ev,
                Err(pe) => r == Err::<Expr, ParseError>(pe),
            },
    {
        proof {
            broadcast use crate::lexer::lemma_toks_view_index, crate::lexer::lemma_toks_view_len;
            reveal(sp_parse);
            reveal(sp_expr);
        }

        match self.parse_expr() {
            Err(pe) => Err(pe),
            Ok(e) => {
                if self.pos < self.tokens.len() {
                    return Err(ParseError::TrailingTokens);
                }
                Ok(e)
            },
        }
    }

    /// Parse one expression: a `define`, `if` or `while` form, or a
    /// comparison chain; follows [`sp_expr`].
    #[verifier::rlimit(100)]
    #[verifier::spinoff_prover]
    pub fn parse_expr(&mut self) -> (r: Result<Expr, ParseError>)
        requires
            old(self).wf(),
        ensures
            final(self).toks() == old(self).toks(),
            final(self).wf(),
            match sp_expr(old(self).toks(), old(self).at()) {
                Ok((ev, p)) => r matches Ok(e) && e@ == ev && final(self).at() == p && old(
                    self,
                ).at() < p,
                Err(pe) => r == Err::<Expr, ParseError>(pe),
            },
        decreases self.toks().len() - self.at(), 12int,
    {
        proof {
            broadcast use crate::lexer::lemma_toks_view_index, crate::lexer::lemma_toks_view_len;
            reveal(sp_expr);
        }

        let mut tag: u8 = 0;
        if self.pos < self.tokens.len() {
            tag = match &self.tokens[self.pos] {
                Token::Define => 1,
                Token::If => 2,
                Token::While => 3,
                _ => 0,
            };
        }
        if tag == 1 {
            self.parse_let()
        } else if tag == 2 {
            self.parse_if()
        } else if tag == 3 {
            self.parse_while()
        } else {
            self.parse_comparison()
        }
    }

    /// Parse `define ( NAME value body )`; follows [`sp_define`].
    #[verifier::rlimit(100)]
    #[verifier::spinoff_prover]
    pub fn parse_let(&mut self) -> (r: Result<Expr, ParseError>)
        requires
            old(self).wf(),
        ensures
            final(self).toks() == old(self).toks(),
            final(self).wf(),
            match sp_define(old(self).toks(), old(self).at()) {
                Ok((ev, p)) => r matches Ok(e) && e@ == ev && final(self).at() == p && old(
                    self,
                ).at() < p,
                Err(pe) => r == Err::<Expr, ParseError>(pe),
            },
        decreases self.toks().len() - self.at(), 11int,
    {
        proof {
            broadcast use crate::lexer::lemma_toks_view_index, crate::lexer::lemma_toks_view_len;
            reveal(sp_define);
        }

        let ghost toks = self.toks();
        let ghost at0 = self.at();
        let len = self.tokens.len();
        if self.pos >= len || self.pos + 1 >= len {
            return Err(ParseError::ExpectedToken);
        }
        let ok_lpara = match &self.tokens[self.pos + 1] {
            Token::LPara => true,
            _ => false,
        };
        if !ok_lpara {
            return Err(ParseError::ExpectedToken);
        }
        if self.pos + 2 >= len {
            return Err(ParseError::ExpectedToken);
        }
        let name: String = match &self.tokens[self.pos + 2] {
            Token::Ident(s) => s.clone(),
            _ => {
                return Err(ParseError::ExpectedToken);
            },
        };
        self.pos = self.pos + 3;
        let value = match self.parse_expr() {
            Ok(e) => e,
            Err(pe) => {
                return Err(pe);
            },
        };
        proof {
            assert(next_pos(toks.len() as int, at0, self.at()) == self.at());
        }
        let body = match self.parse_expr() {
            Ok(e) => e,
            Err(pe) => {
                return Err(pe);
            },
        };
        if self.pos >= len {
            return Err(ParseError::ExpectedToken);
        }
        let ok_rpara = match &self.tokens[self.pos] {
            Token::RPara => true,
            _ => false,
        };
        if !ok_rpara {
            return Err(ParseError::ExpectedToken);
        }
        self.pos = self.pos + 1;
        Ok(Expr::Define { name, value: Box::new(value), body: Box::new(body) })
    }

    /// Parse `if ( condition then else )`; follows [`sp_if`].
    #[verifier::rlimit(100)]
    #[verifier::spinoff_prover]
    fn parse_if(&mut self) -> (r: Result<Expr, ParseError>)
        requires
            old(self).wf(),
        ensures
            final(self).toks() == old(self).toks(),
            final(self).wf(),
            match sp_if(old(self).toks(), old(self).at()) {
                Ok((ev, p)) => r matches Ok(e) && e@ == ev && final(self).at() == p && old(
                    self,
                ).at() < p,
                Err(pe) => r == Err::<Expr, ParseError>(pe),
            },
        decreases self.toks().len() - self.at(), 11int,
    {
        proof {
            broadcast use crate::lexer::lemma_toks_view_index, crate::lexer::lemma_toks_view_len;
            reveal(sp_if);
        }

        let ghost toks = self.toks();
        let ghost at0 = self.at();
        let len = self.tokens.len();
        if self.pos >= len || self.pos + 1 >= len {
            return Err(ParseError::ExpectedToken);
        }
        let ok_lpara = match &self.tokens[self.pos + 1] {
            Token::LPara => true,
            _ => false,
        };
        if !ok_lpara {
            return Err(ParseError::ExpectedToken);
        }
        self.pos = self.pos + 2;
        let condition = match self.parse_expr() {
            Ok(e) => e,
            Err(pe) => {
                return Err(pe);
            },
        };
        proof {
            assert(next_pos(toks.len() as int, at0, self.at()) == self.at());
        }
        let then_branch = match self.parse_expr() {
            Ok(e) => e,
            Err(pe) => {
                return Err(pe);
            },
        };
        proof {
            assert(next_pos(toks.len() as int, at0, self.at()) == self.at());
        }
        let else_branch = match self.parse_expr() {
            Ok(e) => e,
            Err(pe) => {
                return Err(pe);
            },
        };
        if self.pos >= len {
            return Err(ParseError::ExpectedToken);
        }
        let ok_rpara = match &self.tokens[self.pos] {
            Token::RPara => true,
            _ => false,
        };
        if !ok_rpara {
            return Err(ParseError::ExpectedToken);
        }
        self.pos = self.pos + 1;
        Ok(
            Expr::If {
                condition: Box::new(condition),
                then_branch: Box::new(then_branch),
                else_branch: Box::new(else_branch),
            },
        )
    }

    /// Parse `while ( condition body )`; follows [`sp_while`].
    #[verifier::rlimit(100)]
    #[verifier::spinoff_prover]
    fn parse_while(&mut self) -> (r: Result<Expr, ParseError>)
        requires
            old(self).wf(),
        ensures
            final(self).toks() == old(self).toks(),
            final(self).wf(),
            match sp_while(old(self).toks(), old(self).at()) {
                Ok((ev, p)) => r matches Ok(e) && e@ == ev && final(self).at() == p && old(
                    self,
                ).at() < p,
                Err(pe) => r == Err::<Expr, ParseError>(pe),
            },
        decreases self.toks().len() - self.at(), 11int,
    {
        proof {
            broadcast use crate::lexer::lemma_toks_view_index, crate::lexer::lemma_toks_view_len;
            reveal(sp_while);
        }

        let ghost toks = self.toks();
        let ghost at0 = self.at();
        let len = self.tokens.len();
        if self.pos >= len || self.pos + 1 >= len {
            return Err(ParseError::ExpectedToken);
        }
        let ok_lpara = match &self.tokens[self.pos + 1] {
            Token::LPara => true,
            _ => false,
        };
        if !ok_lpara {
            return Err(ParseError::ExpectedToken);
        }
        self.pos = self.pos + 2;
        let condition = match self.parse_expr() {
            Ok(e) => e,
            Err(pe) => {
                return Err(pe);
            },
        };
        proof {
            assert(next_pos(toks.len() as int, at0, self.at()) == self.at());
        }
        let body = match self.parse_expr() {
            Ok(e) => e,
            Err(pe) => {
                return Err(pe);
            },
        };
        if self.pos >= len {
            return Err(ParseError::ExpectedToken);
        }
        let ok_rpara = match &self.tokens[self.pos] {
            Token::RPara => true,
            _ => false,
        };
        if !ok_rpara {
            return Err(ParseError::ExpectedToken);
        }
        self.pos = self.pos + 1;
        Ok(Expr::While { condition: Box::new(condition), body: Box::new(body) })
    }

    /// Parse a comparison chain; follows [`sp_comparison`].
    #[verifier::rlimit(100)]
    #[verifier::spinoff_prover]
    fn parse_comparison(&mut self) -> (r: Result<Expr, ParseError>)
        requires
            old(self).wf(),
        ensures
            final(self).toks() == old(self).toks(),
            final(self).wf(),
            match sp_comparison(old(self).toks(), old(self).at()) {
                Ok((ev, p)) => r matches Ok(e) && e@ == ev && final(self).at() == p && old(
                    self,
                ).at() < p,
                Err(pe) => r == Err::<Expr, ParseError>(pe),
            },
        decreases self.toks().len() - self.at(), 10int,
    {
        let ghost toks = self.toks();
        let ghost at0 = self.at();
        proof {
            lemma_comparison_unfold(toks, at0);
        }
        match self.parse_additive() {
            Ok(left) => {
                proof {
                    assert(next_pos(toks.len() as int, at0, self.at()) == self.at());
                }
                self.parse_cmp_rest(left)
            },
            Err(pe) => Err(pe),
        }
    }

    /// Extend `left` with further operator steps at this precedence level;
    /// follows [`sp_cmp_rest`].
    #[verifier::rlimit(100)]
    #[verifier::spinoff_prover]
    fn parse_cmp_rest(&mut self, left: Expr) -> (r: Result<Expr, ParseError>)
        requires
            old(self).wf(),
        ensures
            final(self).toks() == old(self).toks(),
            final(self).wf(),
            match sp_cmp_rest(old(self).toks(), old(self).at(), left@) {
                Ok((ev, p)) => r matches Ok(e) && e@ == ev && final(self).at() == p && old(
                    self,
                ).at() <= p,
                Err(pe) => r == Err::<Expr, ParseError>(pe),
            },
        decreases self.toks().len() - self.at(), 9int,
    {
        let ghost toks = self.toks();
        let ghost at0 = self.at();
        if self.pos >= self.tokens.len() {
            proof {
                broadcast use crate::lexer::lemma_toks_view_len;
                lemma_comparison_rest_stop(toks, at0, left@);
            }
            return Ok(left);
        }
        let found: Option<BinaryOp> = match &self.tokens[self.pos] {
            Token::Equal => Some(BinaryOp::Equal),
            Token::NotEqual => Some(BinaryOp::NotEqual),
            Token::Less => Some(BinaryOp::Less),
            Token::Greater => Some(BinaryOp::Greater),
            Token::LessEq => Some(BinaryOp::LessEq),
            Token::GreaterEq => Some(BinaryOp::GreaterEq),
            _ => None,
        };
        let op: BinaryOp = match found {
            None => {
                proof {
                    broadcast use crate::lexer::lemma_toks_view_index;
                    assert(!is_cmp_token(toks[at0]));
                    lemma_comparison_rest_stop(toks, at0, left@);
                }
                return Ok(left);
            },
            Some(op) => op,
        };
        proof {
            broadcast use crate::lexer::lemma_toks_view_index, crate::lexer::lemma_toks_view_len;
            assert(is_cmp_token(toks[at0]) && cmp_op_of(toks[at0]) == op);
            lemma_comparison_rest_step(toks, at0, left@);
        }
        let ghost lv = left@;
        self.pos = self.pos + 1;
        match self.parse_additive() {
            Ok(right) => {
                let bigger = Expr::Binary { left: Box::new(left), op, right: Box::new(right) };
                proof {
                    assert(next_pos(toks.len() as int, at0, self.at()) == self.at());
                    assert(bigger@ == (ExprV::Binary {
                        left: Box::new(lv),
                        op: op,
                        right: Box::new(right@),
                    }));
                }
                self.parse_cmp_rest(bigger)
            },
            Err(pe) => Err(pe),
        }
    }

    /// Parse an additive chain; follows [`sp_additive`].
    #[verifier::rlimit(100)]
    #[verifier::spinoff_prover]
    fn parse_additive(&mut self) -> (r: Result<Expr, ParseError>)
        requires
            old(self).wf(),
        ensures
            final(self).toks() == old(self).toks(),
            final(self).wf(),
            match sp_additive(old(self).toks(), old(self).at()) {
                Ok((ev, p)) => r matches Ok(e) && e@ == ev && final(self).at() == p && old(
                    self,
                ).at() < p,
                Err(pe) => r == Err::<Expr, ParseError>(pe),
            },
        decreases self.toks().len() - self.at(), 8int,
    {
        let ghost toks = self.toks();
        let ghost at0 = self.at();
        proof {
            lemma_additive_unfold(toks, at0);
        }
        match self.parse_term() {
            Ok(left) => {
                proof {
                    assert(next_pos(toks.len() as int, at0, self.at()) == self.at());
                }
                self.parse_add_rest(left)
            },
            Err(pe) => Err(pe),
        }
    }

    /// Extend `left` with further operator steps at this precedence level;
    /// follows [`sp_add_rest`].
    #[verifier::rlimit(100)]
    #[verifier::spinoff_prover]
    fn parse_add_rest(&mut self, left: Expr) -> (r: Result<Expr, ParseError>)
        requires
            old(self).wf(),
        ensures
            final(self).toks() == old(self).toks(),
            final(self).wf(),
            match sp_add_rest(old(self).toks(), old(self).at(), left@) {
                Ok((ev, p)) => r matches Ok(e) && e@ == ev && final(self).at() == p && old(
                    self,
                ).at() <= p,
                Err(pe) => r == Err::<Expr, ParseError>(pe),
            },
        decreases self.toks().len() - self.at(), 7int,
    {
        let ghost toks = self.toks();
        let ghost at0 = self.at();
        if self.pos >= self.tokens.len() {
            proof {
                broadcast use crate::lexer::lemma_toks_view_len;
                lemma_additive_rest_stop(toks, at0, left@);
            }
            return Ok(left);
        }
        let found: Option<BinaryOp> = match &self.tokens[self.pos] {
            Token::Plus => Some(BinaryOp::Add),
            Token::Minus => Some(BinaryOp::Sub),
            _ => None,
        };
        let op: BinaryOp = match found {
            None => {
                proof {
                    broadcast use crate::lexer::lemma_toks_view_index;
                    assert(!is_add_token(toks[at0]));
                    lemma_additive_rest_stop(toks, at0, left@);
                }
                return Ok(left);
            },
            Some(op) => op,
        };
        proof {
            broadcast use crate::lexer::lemma_toks_view_index, crate::lexer::lemma_toks_view_len;
            assert(is_add_token(toks[at0]) && add_op_of(toks[at0]) == op);
            lemma_additive_rest_step(toks, at0, left@);
        }
        let ghost lv = left@;
        self.pos = self.pos + 1;
        match self.parse_term() {
            Ok(right) => {
                let bigger = Expr::Binary { left: Box::new(left), op, right: Box::new(right) };
                proof {
                    assert(next_pos(toks.len() as int, at0, self.at()) == self.at());
                    assert(bigger@ == (ExprV::Binary {
                        left: Box::new(lv),
                        op: op,
                        right: Box::new(right@),
                    }));
                }
                self.parse_add_rest(bigger)
            },
            Err(pe) => Err(pe),
        }
    }

    /// Parse a multiplicative chain; follows [`sp_term`].
    #[verifier::rlimit(100)]
    #[verifier::spinoff_prover]
    fn parse_term(&mut self) -> (r: Result<Expr, ParseError>)
        requires
            old(self).wf(),
        ensures
            final(self).toks() == old(self).toks(),
            final(self).wf(),
            match sp_term(old(self).toks(), old(self).at()) {
                Ok((ev, p)) => r matches Ok(e) && e@ == ev && final(self).at() == p && old(
                    self,
                ).at() < p,
                Err(pe) => r == Err::<Expr, ParseError>(pe),
            },
        decreases self.toks().len() - self.at(), 6int,
    {
        let ghost toks = self.toks();
        let ghost at0 = self.at();
        proof {
            lemma_term_unfold(toks, at0);
        }
        match self.parse_exponent() {
            Ok(left) => {
                proof {
                    assert(next_pos(toks.len() as int, at0, self.at()) == self.at());
                }
                self.parse_term_rest(left)
            },
            Err(pe) => Err(pe),
        }
    }

    /// Extend `left` with further operator steps at this precedence level;
    /// follows [`sp_term_rest`].
    #[verifier::rlimit(100)]
    #[verifier::spinoff_prover]
    fn parse_term_rest(&mut self, left: Expr) -> (r: Result<Expr, ParseError>)
        requires
            old(self).wf(),
        ensures
            final(self).toks() == old(self).toks(),
            final(self).wf(),
            match sp_term_rest(old(self).toks(), old(self).at(), left@) {
                Ok((ev, p)) => r matches Ok(e) && e@ == ev && final(self).at() == p && old(
                    self,
                ).at() <= p,
                Err(pe) => r == Err::<Expr, ParseError>(pe),
            },
        decreases self.toks().len() - self.at(), 5int,
    {
        let ghost toks = self.toks();
        let ghost at0 = self.at();
        if self.pos >= self.tokens.len() {
            proof {
                broadcast use crate::lexer::lemma_toks_view_len;
                lemma_term_rest_stop(toks, at0, left@);
            }
            return Ok(left);
        }
        let found: Option<BinaryOp> = match &self.tokens[self.pos] {
            Token::Star => Some(BinaryOp::Mul),
            Token::Slash => Some(BinaryOp::Div),
            Token::Percent => Some(BinaryOp::Mod),
            Token::SlashSlash => Some(BinaryOp::FloorDiv),
            _ => None,
        };
        let op: BinaryOp = match found {
            None => {
                proof {
                    broadcast use crate::lexer::lemma_toks_view_index;
                    assert(!is_term_token(toks[at0]));
                    lemma_term_rest_stop(toks, at0, left@);
                }
                return Ok(left);
            },
            Some(op) => op,
        };
        proof {
            broadcast use crate::lexer::lemma_toks_view_index, crate::lexer::lemma_toks_view_len;
            assert(is_term_token(toks[at0]) && term_op_of(toks[at0]) == op);
            lemma_term_rest_step(toks, at0, left@);
        }
        let ghost lv = left@;
        self.pos = self.pos + 1;
        match self.parse_exponent() {
            Ok(right) => {
                let bigger = Expr::Binary { left: Box::new(left), op, right: Box::new(right) };
                proof {
                    assert(next_pos(toks.len() as int, at0, self.at()) == self.at());
                    assert(bigger@ == (ExprV::Binary {
                        left: Box::new(lv),
                        op: op,
                        right: Box::new(right@),
                    }));
                }
                self.parse_term_rest(bigger)
            },
            Err(pe) => Err(pe),
        }
    }

    /// Parse an exponentiation chain, left-associative; follows [`sp_exponent`].
    #[verifier::rlimit(100)]
    #[verifier::spinoff_prover]
    fn parse_exponent(&mut self) -> (r: Result<Expr, ParseError>)
        requires
            old(self).wf(),
        ensures
            final(self).toks() == old(self).toks(),
            final(self).wf(),
            match sp_exponent(old(self).toks(), old(self).at()) {
                Ok((ev, p)) => r matches Ok(e) && e@ == ev && final(self).at() == p && old(
                    self,
                ).at() < p,
                Err(pe) => r == Err::<Expr, ParseError>(pe),
            },
        decreases self.toks().len() - self.at(), 4int,
    {
        let ghost toks = self.toks();
        let ghost at0 = self.at();
        proof {
            lemma_exponent_unfold(toks, at0);
        }
        match self.parse_unary() {
            Ok(left) => {
                proof {
                    assert(next_pos(toks.len() as int, at0, self.at()) == self.at());
                }
                self.parse_exp_rest(left)
            },
            Err(pe) => Err(pe),
        }
    }

    /// Extend `left` with further operator steps at this precedence level;
    /// follows [`sp_exp_rest`].
    #[verifier::rlimit(100)]
    #[verifier::spinoff_prover]
    fn parse_exp_rest(&mut self, left: Expr) -> (r: Result<Expr, ParseError>)
        requires
            old(self).wf(),
        ensures
            final(self).toks() == old(self).toks(),
            final(self).wf(),
            match sp_exp_rest(old(self).toks(), old(self).at(), left@) {
                Ok((ev, p)) => r matches Ok(e) && e@ == ev && final(self).at() == p && old(
                    self,
                ).at() <= p,
                Err(pe) => r == Err::<Expr, ParseError>(pe),
            },
        decreases self.toks().len() - self.at(), 3int,
    {
        let ghost toks = self.toks();
        let ghost at0 = self.at();
        if self.pos >= self.tokens.len() {
            proof {
                broadcast use crate::lexer::lemma_toks_view_len;
                lemma_exponent_rest_stop(toks, at0, left@);
            }
            return Ok(left);
        }
        let found: Option<BinaryOp> = match &self.tokens[self.pos] {
            Token::StarStar => Some(BinaryOp::Expn),
            _ => None,
        };
        let op: BinaryOp = match found {
            None => {
                proof {
                    broadcast use crate::lexer::lemma_toks_view_index;
                    assert(!is_pow_token(toks[at0]));
                    lemma_exponent_rest_stop(toks, at0, left@);
                }
                return Ok(left);
            },
            Some(op) => op,
        };
        proof {
            broadcast use crate::lexer::lemma_toks_view_index, crate::lexer::lemma_toks_view_len;
            assert(is_pow_token(toks[at0]) && pow_op_of(toks[at0]) == op);
            lemma_exponent_rest_step(toks, at0, left@);
        }
        let ghost lv = left@;
        self.pos = self.pos + 1;
        match self.parse_unary() {
            Ok(right) => {
                let bigger = Expr::Binary { left: Box::new(left), op, right: Box::new(right) };
                proof {
                    assert(next_pos(toks.len() as int, at0, self.at()) == self.at());
                    assert(bigger@ == (ExprV::Binary {
                        left: Box::new(lv),
                        op: op,
                        right: Box::new(right@),
                    }));
                }
                self.parse_exp_rest(bigger)
            },
            Err(pe) => Err(pe),
        }
    }

    /// Parse a chain of unary minus signs and a primary expression; follows
    /// [`sp_unary`].
    #[verifier::rlimit(100)]
    #[verifier::spinoff_prover]
    fn parse_unary(&mut self) -> (r: Result<Expr, ParseError>)
        requires
            old(self).wf(),
        ensures
            final(self).toks() == old(self).toks(),
            final(self).wf(),
            match sp_unary(old(self).toks(), old(self).at()) {
                Ok((ev, p)) => r matches Ok(e) && e@ == ev && final(self).at() == p && old(
                    self,
                ).at() < p,
                Err(pe) => r == Err::<Expr, ParseError>(pe),
            },
        decreases self.toks().len() - self.at(), 2int,
    {
        proof {
            broadcast use crate::lexer::lemma_toks_view_index, crate::lexer::lemma_toks_view_len;
            reveal(sp_unary);
        }

        if self.pos < self.tokens.len() {
            let is_minus = match &self.tokens[self.pos] {
                Token::Minus => true,
                _ => false,
            };
            if is_minus {
                self.pos = self.pos + 1;
                return match self.parse_unary() {
                    Ok(inner) => Ok(Expr::Unary { op: UnaryOp::Neg, expr: Box::new(inner) }),
                    Err(pe) => Err(pe),
                };
            }
        }
        self.parse_primary()
    }

    /// Parse a primary expression: a literal, a variable, or a parenthesized
    /// expression; follows [`sp_primary`].
    #[verifier::rlimit(100)]
    #[verifier::spinoff_prover]
    fn parse_primary(&mut self) -> (r: Result<Expr, ParseError>)
        requires
            old(self).wf(),
        ensures
            final(self).toks() == old(self).toks(),
            final(self).wf(),
            match sp_primary(old(self).toks(), old(self).at()) {
                Ok((ev, p)) => r matches Ok(e) && e@ == ev && final(self).at() == p && old(
                    self,
                ).at() < p,
                Err(pe) => r == Err::<Expr, ParseError>(pe),
            },
        decreases self.toks().len() - self.at(), 1int,
    {
        proof {
            broadcast use crate::lexer::lemma_toks_view_index, crate::lexer::lemma_toks_view_len;
            reveal(sp_primary);
        }

        let ghost toks = self.toks();
        let ghost at0 = self.at();
        if self.pos >= self.tokens.len() {
            return Err(ParseError::UnexpectedEndOfInput);
        }
        let mut tag: u8 = 0;
        let mut number: i32 = 0;
        let mut name: String = String::new();
        match &self.tokens[self.pos] {
            Token::Number(n) => {
                tag = 1;
                number = *n;
            },
            Token::Ident(x) => {
                tag = 2;
                name = x.clone();
            },
            Token::LPara => {
                tag = 3;
            },
            _ => {
                tag = 0;
            },
        }
        if tag == 1 {
            self.pos = self.pos + 1;
            Ok(Expr::Number(number))
        } else if tag == 2 {
            self.pos = self.pos + 1;
            Ok(Expr::Variable(name))
        } else if tag == 3 {
            self.pos = self.pos + 1;
            let inner = match self.parse_expr() {
                Ok(e) => e,
                Err(pe) => {
                    return Err(pe);
                },
            };
            if self.pos >= self.tokens.len() {
                return Err(ParseError::ExpectedToken);
            }
            let ok_rpara = match &self.tokens[self.pos] {
                Token::RPara => true,
                _ => false,
            };
            if !ok_rpara {
                return Err(ParseError::ExpectedToken);
            }
            self.pos = self.pos + 1;
            Ok(inner)
        } else {
            Err(ParseError::UnexpectedToken)
        }
    }
}


} // verus!

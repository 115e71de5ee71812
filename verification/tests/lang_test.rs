use expression_solver::compiler::{compile, CompileError};
use expression_solver::lexer::{Lexer, LexError};
use expression_solver::parser::{Parser, ParseError};
use expression_solver::utils::string_to_instruction;
use expression_solver::vm::{run_program, Instruction, RuntimeError};

fn run_expression(input: &str) -> Result<i32, String> {
    let mut lexer = Lexer::new(input);
    let tokens = lexer.tokenize().map_err(|e| format!("Lexer error: {:?}", e))?;

    let mut parser = Parser::new(tokens);
    let ast = parser.parse().map_err(|e| format!("Parser error: {:?}", e))?;

    let bytecode = compile(&ast).map_err(|e| format!("Compiler error: {:?}", e))?;

    let result = run_program(bytecode, 1_000_000)
        .ok_or_else(|| "VM ran out of steps".to_string())?
        .map_err(|_| "VM error".to_string())?;

    result.ok_or_else(|| "No result on stack".to_string())
}

fn lex_error(input: &str) -> LexError {
    Lexer::new(input).tokenize().unwrap_err()
}

fn parse_error(input: &str) -> ParseError {
    let tokens = Lexer::new(input).tokenize().unwrap();
    Parser::new(tokens).parse().unwrap_err()
}

fn lowering_error(input: &str) -> CompileError {
    let tokens = Lexer::new(input).tokenize().unwrap();
    let ast = Parser::new(tokens).parse().unwrap();
    compile(&ast).unwrap_err()
}

fn runtime_error(input: &str) -> RuntimeError {
    let tokens = Lexer::new(input).tokenize().unwrap();
    let ast = Parser::new(tokens).parse().unwrap();
    let bytecode = compile(&ast).unwrap();
    run_program(bytecode, 1_000_000).unwrap().unwrap_err()
}

#[test]
fn test_basic_arithmetic() {
    assert_eq!(run_expression("5 + 3").unwrap(), 8);
    assert_eq!(run_expression("10 - 4").unwrap(), 6);
    assert_eq!(run_expression("6 * 7").unwrap(), 42);
    assert_eq!(run_expression("20 / 4").unwrap(), 5);
    assert_eq!(run_expression("(5 + 3) * 2").unwrap(), 16);
}

#[test]
fn test_modulus() {
    assert_eq!(run_expression("10 % 3").unwrap(), 1);
    assert_eq!(run_expression("15 % 5").unwrap(), 0);
    assert_eq!(run_expression("7 % 2").unwrap(), 1);
}

#[test]
fn test_exponentiation() {
    assert_eq!(run_expression("2 ** 3").unwrap(), 8);
    assert_eq!(run_expression("5 ** 2").unwrap(), 25);
    assert_eq!(run_expression("3 ** 4").unwrap(), 81);
}

#[test]
fn test_floor_division() {
    assert_eq!(run_expression("7 // 2").unwrap(), 3);
    assert_eq!(run_expression("10 // 3").unwrap(), 3);
    assert_eq!(run_expression("20 // 6").unwrap(), 3);
}

#[test]
fn test_comparisons() {
    assert_eq!(run_expression("5 == 5").unwrap(), 1);
    assert_eq!(run_expression("5 == 3").unwrap(), 0);
    assert_eq!(run_expression("5 > 3").unwrap(), 1);
    assert_eq!(run_expression("3 < 5").unwrap(), 1);
    assert_eq!(run_expression("5 >= 5").unwrap(), 1);
    assert_eq!(run_expression("5 <= 3").unwrap(), 0);
}

#[test]
fn test_variables() {
    assert_eq!(run_expression("define (x 10 define (y 5 x + y))").unwrap(), 15);
    assert_eq!(run_expression("define (x 5 x * 2)").unwrap(), 10);
}

#[test]
fn test_if_statement() {
    assert_eq!(run_expression("if (5 > 3 100 200)").unwrap(), 100);
    assert_eq!(run_expression("if (3 > 5 100 200)").unwrap(), 200);
    assert_eq!(run_expression("define (x 10 if (x < 5 (x * 2) (x + 5)))").unwrap(), 15);
}

#[test]
fn test_while_loop() {
    let expr = "define (x 5 define (sum 0 define (dummy while (x > 0 define (sum (sum + x) define (x (x - 1) sum))) sum)))";
    assert_eq!(run_expression(expr).unwrap(), 15); // 5+4+3+2+1
}

#[test]
fn test_factorial_program() {
    let input = "define (n 5 define (acc 1 define (d while (n > 0 define (acc (acc * n) define (n (n - 1) acc))) acc)))";
    let result = run_expression(input).unwrap();
    assert_eq!(result, 120);
}

#[test]
fn test_odd_even_program() {
    let input = "define (n 7 if ((n % 2) == 1 1 0))";
    let result = run_expression(input).unwrap();
    assert_eq!(result, 1); // 7 is odd, returns 1

    let even_test = "define (n 8 if ((n % 2) == 1 1 0))";
    assert_eq!(run_expression(even_test).unwrap(), 0); // 8 is even
}

#[test]
fn test_fibonacci_program() {
    let input = "define (a 1 define (b 1 define (i 7 while (i > 2 define (t (a + b) define (a b define (b t define (i (i - 1) b))))))))";
    let result = run_expression(input).unwrap();
    assert_eq!(result, 13); // 7th fibonacci: 1,1,2,3,5,8,13
}

#[test]
fn test_division_by_zero() {
    assert_eq!(runtime_error("10 / 0"), RuntimeError::DivisionByZero);
    assert_eq!(runtime_error("10 % 0"), RuntimeError::ModulusByZero);
    assert_eq!(runtime_error("10 // 0"), RuntimeError::DivisionByZero);
}

#[test]
fn test_checked_arithmetic_overflow() {
    assert_eq!(runtime_error("2147483647 + 1"), RuntimeError::IntegerOverflow);
    assert_eq!(runtime_error("0 - 2147483647 - 2"), RuntimeError::IntegerOverflow);
    assert_eq!(runtime_error("65536 * 65536"), RuntimeError::IntegerOverflow);
    assert_eq!(runtime_error("2 ** 31"), RuntimeError::IntegerOverflow);
}

#[test]
fn test_negative_exponent() {
    assert_eq!(runtime_error("2 ** -1"), RuntimeError::NegativeExponent);
}

#[test]
fn test_unary_minus() {
    assert_eq!(run_expression("-5 + 10").unwrap(), 5);
    assert_eq!(run_expression("--5").unwrap(), 5);
    assert_eq!(run_expression("-(2 + 3)").unwrap(), -5);
}

#[test]
fn test_floor_division_rounds_down() {
    assert_eq!(run_expression("-7 // 2").unwrap(), -4);
    assert_eq!(run_expression("7 // -2").unwrap(), -4);
    assert_eq!(run_expression("-7 // -2").unwrap(), 3);
}

#[test]
fn test_precedence() {
    assert_eq!(run_expression("2 + 3 * 4").unwrap(), 14);
    assert_eq!(run_expression("2 * 3 + 4").unwrap(), 10);
    assert_eq!(run_expression("2 ** 3 ** 2").unwrap(), 64); // left-associative
    assert_eq!(run_expression("1 + 2 < 4").unwrap(), 1);
}

#[test]
fn test_single_digit_literals() {
    assert_eq!(run_expression("9").unwrap(), 9);
    assert_eq!(run_expression("0").unwrap(), 0);
}

#[test]
fn test_lex_errors() {
    assert_eq!(lex_error("5 = 5"), LexError::LoneEquals);
    assert_eq!(lex_error("5 ! 5"), LexError::LoneBang);
    assert_eq!(lex_error("5 @ 5"), LexError::InvalidCharacter('@'));
    assert_eq!(lex_error("2147483648"), LexError::NumberTooLarge);
}

#[test]
fn test_parse_errors() {
    assert_eq!(parse_error("5 5"), ParseError::TrailingTokens);
    assert_eq!(parse_error("(5 + 3"), ParseError::ExpectedToken);
    assert_eq!(parse_error("5 +"), ParseError::UnexpectedEndOfInput);
    assert_eq!(parse_error("define (5 1 1)"), ParseError::ExpectedToken);
    assert_eq!(parse_error("if 5 1 2"), ParseError::ExpectedToken);
    assert_eq!(parse_error(")"), ParseError::UnexpectedToken);
}

#[test]
fn test_undefined_variable() {
    assert_eq!(lowering_error("x + 1"), CompileError::UndefinedVariable);
    assert_eq!(lowering_error("define (x x 1)"), CompileError::UndefinedVariable);
    assert_eq!(lowering_error("(define (x 1 2)) + x"), CompileError::UndefinedVariable);
}

#[test]
fn test_register_exhaustion() {
    // 15 simultaneously live bindings exceed the 14 user registers
    let mut src = String::new();
    let names = [
        "a", "b", "c", "d", "e", "f", "g", "h", "i", "j", "k", "l", "m", "n", "o",
    ];
    for name in names.iter() {
        src.push_str(&format!("define ({} 1 ", name));
    }
    src.push_str("1");
    for _ in names.iter() {
        src.push_str(")");
    }
    assert_eq!(lowering_error(&src), CompileError::RegisterExhaustion);
}

#[test]
fn test_while_zero_iterations() {
    assert_eq!(run_expression("while (0 1)").unwrap(), 0);
}

#[test]
fn test_scope_is_lexical() {
    // the inner binding of y ends with its body; x stays visible
    assert_eq!(
        run_expression("define (x 1 (define (y 2 x + y)) + x)").unwrap(),
        4
    );
}

#[test]
fn test_string_to_instruction() {
    assert_eq!(string_to_instruction("PSH"), Instruction::PSH);
    assert_eq!(string_to_instruction("POP"), Instruction::POP);
    assert_eq!(string_to_instruction("ADD"), Instruction::ADD);
    assert_eq!(string_to_instruction("SUB"), Instruction::SUB);
    assert_eq!(string_to_instruction("MUL"), Instruction::MUL);
    assert_eq!(string_to_instruction("DIV"), Instruction::DIV);
    assert_eq!(string_to_instruction("SET"), Instruction::SET);
    assert_eq!(string_to_instruction("HLT"), Instruction::HLT);
    assert_eq!(string_to_instruction("NOP"), Instruction::UNK);
}

#[test]
fn test_run_program_directly() {
    // PSH 42; HLT
    assert_eq!(run_program(vec![0, 42, 7], 10), Some(Ok(Some(42))));
    // HLT with nothing on the stack
    assert_eq!(run_program(vec![7], 10), Some(Ok(None)));
    // ADD on an empty stack underflows
    assert_eq!(run_program(vec![2, 7], 10), Some(Err(RuntimeError::StackUnderflow)));
    // an empty program has no instruction to fetch
    assert_eq!(run_program(vec![], 10), Some(Err(RuntimeError::IpOutOfBounds)));
    // an unknown opcode is rejected
    assert_eq!(run_program(vec![20, 7], 10), Some(Err(RuntimeError::InvalidInstruction)));
    // a tight loop exhausts the step budget
    assert_eq!(run_program(vec![16, 0], 10), None);
}

#[test]
fn test_compiled_bytecode_shape() {
    let tokens = Lexer::new("5 + 3").tokenize().unwrap();
    let ast = Parser::new(tokens).parse().unwrap();
    let bytecode = compile(&ast).unwrap();
    // PSH 5; PSH 3; ADD; HLT
    assert_eq!(bytecode, vec![0, 5, 0, 3, 2, 7]);
}

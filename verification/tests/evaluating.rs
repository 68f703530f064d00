use custom_interpreter::interpreter::EvalError;
use custom_interpreter::interpreter::Interpreter;
use custom_interpreter::lexer::Lexer;
use custom_interpreter::parser::Expr;
use custom_interpreter::parser::Op;
use custom_interpreter::parser::Parser;

fn parse_text(text: &str) -> Expr {
    let mut parser = Parser::new(Lexer::new(text));
    parser.parse().unwrap()
}

fn eval_fresh(text: &str) -> Result<i64, EvalError> {
    let mut interpreter = Interpreter::new();
    interpreter.interpret(parse_text(text))
}

#[test]
fn precedence_multiplication_binds_tighter() {
    assert_eq!(eval_fresh("2 + 3 * 4"), Ok(14));
}

#[test]
fn subtraction_is_left_associative() {
    assert_eq!(eval_fresh("10 - 3 - 2"), Ok(5));
}

#[test]
fn parentheses_override_precedence() {
    assert_eq!(eval_fresh("(2 + 3) * 4"), Ok(20));
}

#[test]
fn assignment_round_trip() {
    let mut interpreter = Interpreter::new();
    assert_eq!(interpreter.interpret(parse_text("assume x eq 5")), Ok(5));
    assert_eq!(interpreter.interpret(parse_text("x + 1")), Ok(6));
}

#[test]
fn undefined_variable_fails() {
    assert_eq!(eval_fresh("y + 1"), Err(EvalError::UndefinedVariable));
}

#[test]
fn runtime_division_by_zero_fails() {
    let mut interpreter = Interpreter::new();
    assert_eq!(interpreter.interpret(parse_text("assume x eq 0")), Ok(0));
    assert_eq!(
        interpreter.interpret(parse_text("4 / x")),
        Err(EvalError::DivisionByZero)
    );
}

#[test]
fn division_truncates_toward_zero() {
    assert_eq!(eval_fresh("7 / 2"), Ok(3));
    assert_eq!(eval_fresh("(0 - 7) / 2"), Ok(-3));
    assert_eq!(eval_fresh("7 / (0 - 2)"), Ok(-3));
    assert_eq!(eval_fresh("(0 - 7) / (0 - 2)"), Ok(3));
}

#[test]
fn addition_overflow_is_reported() {
    assert_eq!(
        eval_fresh("9223372036854775807 + 1"),
        Err(EvalError::Overflow)
    );
}

#[test]
fn subtraction_overflow_is_reported() {
    assert_eq!(
        eval_fresh("0 - 9223372036854775807 - 2"),
        Err(EvalError::Overflow)
    );
}

#[test]
fn multiplication_overflow_is_reported() {
    assert_eq!(
        eval_fresh("9223372036854775807 * 2"),
        Err(EvalError::Overflow)
    );
}

#[test]
fn smallest_value_divided_by_minus_one_overflows() {
    let mut interpreter = Interpreter::new();
    let tree = Expr::BinaryOp(
        Box::new(Expr::Number(i64::MIN)),
        Op::By,
        Box::new(Expr::Number(-1)),
    );
    assert_eq!(interpreter.interpret(tree), Err(EvalError::Overflow));
}

#[test]
fn assign_primitive_binds_value() {
    let mut interpreter = Interpreter::new();
    interpreter.assign("x".to_string(), 7);
    assert_eq!(interpreter.interpret(parse_text("x")), Ok(7));
}

#[test]
fn later_assignment_overwrites() {
    let mut interpreter = Interpreter::new();
    assert_eq!(interpreter.interpret(parse_text("assume x eq 1")), Ok(1));
    assert_eq!(interpreter.interpret(parse_text("assume x eq 2")), Ok(2));
    assert_eq!(interpreter.interpret(parse_text("x")), Ok(2));
}

#[test]
fn assignment_kept_when_later_step_fails() {
    let mut interpreter = Interpreter::new();
    let tree = Expr::BinaryOp(
        Box::new(Expr::Assign("x".to_string(), Box::new(Expr::Number(3)))),
        Op::Plus,
        Box::new(Expr::Variable("y".to_string())),
    );
    assert_eq!(interpreter.interpret(tree), Err(EvalError::UndefinedVariable));
    assert_eq!(interpreter.interpret(parse_text("x")), Ok(3));
}

#[test]
fn single_number_evaluates_to_itself() {
    assert_eq!(eval_fresh("42"), Ok(42));
}

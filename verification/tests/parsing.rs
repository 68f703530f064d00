use custom_interpreter::lexer::Lexer;
use custom_interpreter::parser::Expr;
use custom_interpreter::parser::Op;
use custom_interpreter::parser::ParseError;
use custom_interpreter::parser::Parser;

fn parse_text(text: &str) -> Result<Expr, ParseError> {
    let mut parser = Parser::new(Lexer::new(text));
    parser.parse()
}

#[test]
fn parse_precedence_tree() {
    let tree = parse_text("2 + 3 * 4").unwrap();
    let expected = Expr::BinaryOp(
        Box::new(Expr::Number(2)),
        Op::Plus,
        Box::new(Expr::BinaryOp(
            Box::new(Expr::Number(3)),
            Op::Into,
            Box::new(Expr::Number(4)),
        )),
    );
    assert_eq!(tree, expected);
}

#[test]
fn parse_parens_tree() {
    let tree = parse_text("(2 + 3) * 4").unwrap();
    let expected = Expr::BinaryOp(
        Box::new(Expr::BinaryOp(
            Box::new(Expr::Number(2)),
            Op::Plus,
            Box::new(Expr::Number(3)),
        )),
        Op::Into,
        Box::new(Expr::Number(4)),
    );
    assert_eq!(tree, expected);
}

#[test]
fn parse_left_associative_tree() {
    let tree = parse_text("10 - 3 - 2").unwrap();
    let expected = Expr::BinaryOp(
        Box::new(Expr::BinaryOp(
            Box::new(Expr::Number(10)),
            Op::Minus,
            Box::new(Expr::Number(3)),
        )),
        Op::Minus,
        Box::new(Expr::Number(2)),
    );
    assert_eq!(tree, expected);
}

#[test]
fn parse_assignment_tree() {
    let tree = parse_text("assume x eq 5").unwrap();
    let expected = Expr::Assign("x".to_string(), Box::new(Expr::Number(5)));
    assert_eq!(tree, expected);
}

#[test]
fn parse_twice_yields_equal_trees() {
    let first = parse_text("2 + 3 * (4 - 1)").unwrap();
    let second = parse_text("2 + 3 * (4 - 1)").unwrap();
    assert_eq!(first, second);
}

#[test]
fn parse_division_by_literal_zero_fails() {
    assert_eq!(parse_text("4 / 0"), Err(ParseError::DivisionByZero));
}

#[test]
fn parse_missing_identifier_after_keyword() {
    assert_eq!(parse_text("assume 5"), Err(ParseError::ExpectedIdentifier));
}

#[test]
fn parse_missing_eq_after_identifier() {
    assert_eq!(parse_text("assume x 5"), Err(ParseError::ExpectedEq));
}

#[test]
fn parse_missing_operand() {
    assert_eq!(parse_text("2 +"), Err(ParseError::ExpectedFactor));
}

#[test]
fn parse_empty_text_fails() {
    assert_eq!(parse_text(""), Err(ParseError::ExpectedFactor));
}

#[test]
fn parse_leading_minus_fails() {
    assert_eq!(parse_text("-5"), Err(ParseError::ExpectedFactor));
}

#[test]
fn parse_unmatched_paren() {
    assert_eq!(parse_text("(2 + 3"), Err(ParseError::UnmatchedParen));
}

#[test]
fn parse_rejects_invalid_token() {
    assert_eq!(parse_text("2 + @"), Err(ParseError::ExpectedFactor));
    assert_eq!(parse_text("2 + 99999999999999999999"), Err(ParseError::ExpectedFactor));
}

#[test]
fn parse_leaves_trailing_tokens() {
    assert_eq!(parse_text("2 3"), Ok(Expr::Number(2)));
}

#[test]
fn parse_variable_reference() {
    assert_eq!(parse_text("banana"), Ok(Expr::Variable("banana".to_string())));
}

use custom_interpreter::lexer::Lexer;
use custom_interpreter::lexer::Token;

fn tokens_of(text: &str) -> Vec<Token> {
    let mut lexer = Lexer::new(text);
    let mut out = Vec::new();
    loop {
        let t = lexer.next_token();
        let done = t == Token::EndOfFile;
        out.push(t);
        if done {
            return out;
        }
    }
}

#[test]
fn scan_digit_run_yields_number() {
    let mut lexer = Lexer::new("123");
    assert_eq!(lexer.next_token(), Token::Number(123));
    assert_eq!(lexer.next_token(), Token::EndOfFile);
    assert_eq!(lexer.next_token(), Token::EndOfFile);
}

#[test]
fn scan_keyword_prefixed_word_is_identifier() {
    assert_eq!(
        tokens_of("assumer"),
        vec![Token::Identifier("assumer".to_string()), Token::EndOfFile]
    );
    assert_eq!(
        tokens_of("apple"),
        vec![Token::Identifier("apple".to_string()), Token::EndOfFile]
    );
    assert_eq!(
        tokens_of("eqx"),
        vec![Token::Identifier("eqx".to_string()), Token::EndOfFile]
    );
}

#[test]
fn scan_keywords_and_identifier() {
    assert_eq!(
        tokens_of("assume x eq 5"),
        vec![
            Token::Assume,
            Token::Identifier("x".to_string()),
            Token::Eq,
            Token::Number(5),
            Token::EndOfFile
        ]
    );
}

#[test]
fn scan_symbols() {
    assert_eq!(
        tokens_of("+ - * / ( )"),
        vec![
            Token::Plus,
            Token::Minus,
            Token::Into,
            Token::By,
            Token::LParen,
            Token::RParen,
            Token::EndOfFile
        ]
    );
}

#[test]
fn scan_skips_whitespace() {
    assert_eq!(tokens_of(" \t\r\n 7 "), vec![Token::Number(7), Token::EndOfFile]);
}

#[test]
fn scan_largest_literal_fits() {
    assert_eq!(
        tokens_of("9223372036854775807"),
        vec![Token::Number(i64::MAX), Token::EndOfFile]
    );
}

#[test]
fn scan_overflowing_literal_is_invalid() {
    assert_eq!(
        tokens_of("9223372036854775808"),
        vec![Token::Invalid, Token::EndOfFile]
    );
    assert_eq!(
        tokens_of("99999999999999999999 7"),
        vec![Token::Invalid, Token::Number(7), Token::EndOfFile]
    );
}

#[test]
fn scan_unrecognized_character_is_invalid() {
    assert_eq!(tokens_of("@"), vec![Token::Invalid, Token::EndOfFile]);
}

#[test]
fn scan_underscore_starts_identifier() {
    assert_eq!(
        tokens_of("_a1"),
        vec![Token::Identifier("_a1".to_string()), Token::EndOfFile]
    );
}

#[test]
fn scan_number_stops_at_letter() {
    assert_eq!(
        tokens_of("12ab"),
        vec![
            Token::Number(12),
            Token::Identifier("ab".to_string()),
            Token::EndOfFile
        ]
    );
}

#[test]
fn scan_empty_text_is_end_of_input() {
    assert_eq!(tokens_of(""), vec![Token::EndOfFile]);
}

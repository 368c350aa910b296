use forth::errors::LexerError;
use forth::lexer::Lexer;
use forth::token::{OperatorKind, Token};

#[test]
fn test_number_token() {
    let lexer = Lexer::new();
    let tokens = lexer.tokenize("42").unwrap();
    assert_eq!(tokens, vec![Token::Number(42)]);
}

#[test]
fn test_operator_tokens() {
    let lexer = Lexer::new();
    let tokens = lexer.tokenize("+ - / *").unwrap();
    assert_eq!(
        tokens,
        vec![
            Token::Operator(OperatorKind::Add),
            Token::Operator(OperatorKind::Subtract),
            Token::Operator(OperatorKind::Divide),
            Token::Operator(OperatorKind::Multiply),
        ]
    );
}

#[test]
fn test_operator_number_tokens() {
    let lexer = Lexer::new();
    let tokens = lexer.tokenize("+ 42").unwrap();
    assert_eq!(
        tokens,
        vec![Token::Operator(OperatorKind::Add), Token::Number(42),]
    );
}

#[test]
fn test_period() {
    let lexer = Lexer::new();
    let tokens = lexer.tokenize(".").unwrap();
    assert_eq!(tokens, vec![Token::Period]);
}

#[test]
fn test_word() {
    let dup = "dup";
    let lexer = Lexer::new();
    let tokens = lexer.tokenize("dup").unwrap();
    assert_eq!(tokens, vec![Token::Word(dup.to_string())]);
}

#[test]
fn test_multiple_word() {
    let lexer = Lexer::new();
    let tokens = lexer.tokenize("dup swap").unwrap();
    assert_eq!(
        tokens,
        vec![
            Token::Word("dup".to_string()),
            Token::Word("swap".to_string())
        ]
    );
}

#[test]
fn test_function_defition() {
    let lexer = Lexer::new();
    let tokens = lexer.tokenize(": foo  100 + ;").unwrap();
    assert_eq!(
        tokens,
        vec![
            Token::Colon,
            Token::Word("foo".to_string()),
            Token::Number(100),
            Token::Operator(OperatorKind::Add),
            Token::Semicolon,
        ]
    );
}

#[test]
fn blank_line_yields_no_tokens() {
    let lexer = Lexer::new();
    assert_eq!(lexer.tokenize("").unwrap(), Vec::<Token>::new());
    assert_eq!(lexer.tokenize("   \t  ").unwrap(), Vec::<Token>::new());
}

#[test]
fn invalid_substring_is_reported() {
    let lexer = Lexer::new();
    assert_eq!(
        LexerError::InvalidToken("$".to_string()),
        lexer.tokenize("1 $ 2").unwrap_err()
    );
    assert_eq!(
        LexerError::InvalidToken("a-b".to_string()),
        lexer.tokenize("a-b").unwrap_err()
    );
}

#[test]
fn negative_and_signed_numbers() {
    let lexer = Lexer::new();
    assert_eq!(lexer.tokenize("-42").unwrap(), vec![Token::Number(-42)]);
    assert_eq!(lexer.tokenize("+42").unwrap(), vec![Token::Number(42)]);
    assert_eq!(lexer.tokenize("-0").unwrap(), vec![Token::Number(0)]);
}

#[test]
fn extreme_numbers_parse_and_overflow_becomes_word() {
    let lexer = Lexer::new();
    assert_eq!(
        lexer.tokenize("-9223372036854775808").unwrap(),
        vec![Token::Number(isize::MIN)]
    );
    assert_eq!(
        lexer.tokenize("9223372036854775807").unwrap(),
        vec![Token::Number(isize::MAX)]
    );
    // a digit string one past the range is no Number; being alphanumeric,
    // it classifies as a Word
    assert_eq!(
        lexer.tokenize("9223372036854775808").unwrap(),
        vec![Token::Word("9223372036854775808".to_string())]
    );
    // with a sign it is not alphanumeric either
    assert_eq!(
        LexerError::InvalidToken("-9223372036854775809".to_string()),
        lexer.tokenize("-9223372036854775809").unwrap_err()
    );
}

#[test]
fn mixed_alphanumeric_is_a_word() {
    let lexer = Lexer::new();
    assert_eq!(
        lexer.tokenize("abc123").unwrap(),
        vec![Token::Word("abc123".to_string())]
    );
}

#[test]
fn lexer_error_message_echoes_substring() {
    assert_eq!(
        "invalid token: %",
        LexerError::InvalidToken("%".to_string()).message()
    );
    assert_eq!("unexpected end of input", LexerError::UnexpectedEof.message());
}

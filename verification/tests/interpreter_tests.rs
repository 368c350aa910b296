//! End-to-end scenarios: lexer and evaluator together, and token rendering.

use forth::errors::EvalError;
use forth::eval::Evaluator;
use forth::lexer::Lexer;
use forth::token::{OperatorKind, Token};

fn run_line(evaluator: &mut Evaluator, line: &str) -> Result<Option<Token>, EvalError> {
    let lexer = Lexer::new();
    let tokens = lexer.tokenize(line).unwrap();
    evaluator.eval_all(&tokens)
}

#[test]
fn empty_line_yields_nothing() {
    let mut evaluator = Evaluator::new();
    assert_eq!(None, run_line(&mut evaluator, "").unwrap());
}

#[test]
fn two_times_two_is_four() {
    let mut evaluator = Evaluator::new();
    assert_eq!(
        Some(Token::Number(4)),
        run_line(&mut evaluator, "2 2 * .").unwrap()
    );
}

#[test]
fn one_divided_by_two_truncates_to_zero() {
    let mut evaluator = Evaluator::new();
    assert_eq!(
        Some(Token::Number(0)),
        run_line(&mut evaluator, "1 2 / .").unwrap()
    );
}

#[test]
fn one_two_minus_is_minus_one() {
    let mut evaluator = Evaluator::new();
    assert_eq!(
        Some(Token::Number(-1)),
        run_line(&mut evaluator, "1 2 - .").unwrap()
    );
}

#[test]
fn definition_replays_any_number_of_times() {
    let mut evaluator = Evaluator::new();
    assert_eq!(
        Some(Token::Number(1400)),
        run_line(&mut evaluator, ": foo 100 + ; 1000 foo foo foo foo .").unwrap()
    );
}

#[test]
fn definitions_persist_across_lines() {
    let mut evaluator = Evaluator::new();
    assert_eq!(None, run_line(&mut evaluator, ": inc 1 + ;").unwrap());
    assert_eq!(
        Some(Token::Number(6)),
        run_line(&mut evaluator, "5 inc .").unwrap()
    );
    assert_eq!(
        Some(Token::Number(8)),
        run_line(&mut evaluator, "7 inc .").unwrap()
    );
}

#[test]
fn bare_period_underflows() {
    let mut evaluator = Evaluator::new();
    assert_eq!(
        EvalError::StackUnderflow,
        run_line(&mut evaluator, ".").unwrap_err()
    );
}

#[test]
fn last_period_wins_on_a_line() {
    let mut evaluator = Evaluator::new();
    assert_eq!(
        Some(Token::Number(1)),
        run_line(&mut evaluator, "1 2 . .").unwrap()
    );
}

#[test]
fn result_survives_trailing_tokens() {
    let mut evaluator = Evaluator::new();
    assert_eq!(
        Some(Token::Number(2)),
        run_line(&mut evaluator, "1 2 . 3").unwrap()
    );
}

#[test]
fn number_rendering_round_trips() {
    let lexer = Lexer::new();
    for v in [0isize, 7, -1, 42, -9999, isize::MAX, isize::MIN] {
        let text = Token::Number(v).render();
        let tokens = lexer.tokenize(&text).unwrap();
        assert_eq!(tokens, vec![Token::Number(v)]);
        let mut evaluator = Evaluator::new();
        let mut program = tokens;
        program.push(Token::Period);
        assert_eq!(
            Some(Token::Number(v)),
            evaluator.eval_all(&program).unwrap()
        );
    }
}

#[test]
fn token_renderings() {
    assert_eq!("42", Token::Number(42).render());
    assert_eq!("-42", Token::Number(-42).render());
    assert_eq!("+", Token::Operator(OperatorKind::Add).render());
    assert_eq!("-", Token::Operator(OperatorKind::Subtract).render());
    assert_eq!("/", Token::Operator(OperatorKind::Divide).render());
    assert_eq!("*", Token::Operator(OperatorKind::Multiply).render());
    assert_eq!(".", Token::Period.render());
    assert_eq!(":", Token::Colon.render());
    assert_eq!(";", Token::Semicolon.render());
    assert_eq!("dup", Token::Word("dup".to_string()).render());
}

#[test]
fn rendered_operator_round_trips() {
    let lexer = Lexer::new();
    let text = Token::Operator(OperatorKind::Multiply).render();
    assert_eq!(
        lexer.tokenize(&text).unwrap(),
        vec![Token::Operator(OperatorKind::Multiply)]
    );
}

#[test]
fn first_error_aborts_the_line() {
    let mut evaluator = Evaluator::new();
    // the failing word aborts evaluation; the numbers before it stay pushed
    assert_eq!(
        EvalError::NoDefinition,
        run_line(&mut evaluator, "1 2 nope 3").unwrap_err()
    );
    // the evaluator itself stays usable: the two numbers are still there
    assert_eq!(
        Some(Token::Number(3)),
        run_line(&mut evaluator, "+ .").unwrap()
    );
}

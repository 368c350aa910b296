use forth::errors::EvalError;
use forth::eval::Evaluator;
use forth::token::{OperatorKind, Token};

#[test]
fn add_two_numbers() {
    let mut evaluator = Evaluator::new();
    let tokens = vec![
        Token::Number(1),
        Token::Number(2),
        Token::Operator(OperatorKind::Add),
        Token::Period,
    ];

    assert_eq!(
        Token::Number(3),
        evaluator.eval_all(&tokens).unwrap().unwrap()
    );
}

#[test]
fn subtract_two_numbers() {
    let mut evaluator = Evaluator::new();
    let tokens = vec![
        Token::Number(1),
        Token::Number(2),
        Token::Operator(OperatorKind::Subtract),
        Token::Period,
    ];

    assert_eq!(
        Token::Number(-1),
        evaluator.eval_all(&tokens).unwrap().unwrap()
    );
}

#[test]
fn multiply_two_numbers() {
    let mut evaluator = Evaluator::new();
    let tokens = vec![
        Token::Number(2),
        Token::Number(2),
        Token::Operator(OperatorKind::Multiply),
        Token::Period,
    ];

    assert_eq!(
        Token::Number(4),
        evaluator.eval_all(&tokens).unwrap().unwrap()
    );
}

#[test]
fn divide_two_numbers() {
    let mut evaluator = Evaluator::new();
    let tokens = vec![
        Token::Number(1),
        Token::Number(2),
        Token::Operator(OperatorKind::Divide),
        Token::Period,
    ];

    assert_eq!(
        Token::Number(0),
        evaluator.eval_all(&tokens).unwrap().unwrap()
    );
}

#[test]
fn binary_operation_not_enough_operands_stack_underflow() {
    let mut evaluator = Evaluator::new();
    let add_tokens = vec![Token::Number(1), Token::Operator(OperatorKind::Divide)];
    let subtract_tokens = vec![Token::Number(1), Token::Operator(OperatorKind::Divide)];
    let multiply_tokens = vec![Token::Number(1), Token::Operator(OperatorKind::Divide)];
    let divide_tokens = vec![Token::Number(1), Token::Operator(OperatorKind::Divide)];

    assert_eq!(
        EvalError::StackUnderflow,
        evaluator.eval_all(&add_tokens).unwrap_err()
    );
    assert_eq!(
        EvalError::StackUnderflow,
        evaluator.eval_all(&subtract_tokens).unwrap_err()
    );
    assert_eq!(
        EvalError::StackUnderflow,
        evaluator.eval_all(&multiply_tokens).unwrap_err()
    );
    assert_eq!(
        EvalError::StackUnderflow,
        evaluator.eval_all(&divide_tokens).unwrap_err()
    );
}

#[test]
fn period_not_enough_operands_stack_underflow() {
    let mut evaluator = Evaluator::new();
    let tokens = vec![Token::Period];

    assert_eq!(
        EvalError::StackUnderflow,
        evaluator.eval_all(&tokens).unwrap_err()
    );
}

#[test]
fn dictionary_definition() {
    let mut evaluator = Evaluator::new();
    let tokens = vec![
        Token::Colon,
        Token::Word("foo".to_string()),
        Token::Number(100),
        Token::Operator(OperatorKind::Add),
        Token::Semicolon,
        Token::Number(1000),
        Token::Word("foo".to_string()),
        Token::Word("foo".to_string()),
        Token::Word("foo".to_string()),
        Token::Word("foo".to_string()),
        Token::Period,
    ];

    assert_eq!(
        Token::Number(1400),
        evaluator.eval_all(&tokens).unwrap().unwrap()
    );
}

#[test]
fn each_operator_underflows_with_one_operand() {
    for kind in [
        OperatorKind::Add,
        OperatorKind::Subtract,
        OperatorKind::Multiply,
        OperatorKind::Divide,
    ] {
        let mut evaluator = Evaluator::new();
        let tokens = vec![Token::Number(7), Token::Operator(kind)];
        assert_eq!(
            EvalError::StackUnderflow,
            evaluator.eval_all(&tokens).unwrap_err()
        );
    }
}

#[test]
fn colon_while_compiling_is_unexpected() {
    let mut evaluator = Evaluator::new();
    let tokens = vec![Token::Colon, Token::Colon];
    assert_eq!(
        EvalError::UnexpectedColon,
        evaluator.eval_all(&tokens).unwrap_err()
    );
}

#[test]
fn semicolon_while_interpreting_is_unexpected() {
    let mut evaluator = Evaluator::new();
    let tokens = vec![Token::Semicolon];
    assert_eq!(
        EvalError::UnexpectedSemicolon,
        evaluator.eval_all(&tokens).unwrap_err()
    );
}

#[test]
fn undefined_word_has_no_definition() {
    let mut evaluator = Evaluator::new();
    let tokens = vec![Token::Word("bar".to_string())];
    assert_eq!(
        EvalError::NoDefinition,
        evaluator.eval_all(&tokens).unwrap_err()
    );
}

#[test]
fn empty_definition_is_invalid() {
    let mut evaluator = Evaluator::new();
    let tokens = vec![Token::Colon, Token::Semicolon];
    assert_eq!(
        EvalError::InvalidDefinition,
        evaluator.eval_all(&tokens).unwrap_err()
    );
}

#[test]
fn definition_not_starting_with_word_is_invalid() {
    let mut evaluator = Evaluator::new();
    let tokens = vec![Token::Colon, Token::Number(5), Token::Semicolon];
    assert_eq!(
        EvalError::InvalidDefinition,
        evaluator.eval_all(&tokens).unwrap_err()
    );
}

#[test]
fn division_by_zero_is_reported() {
    let mut evaluator = Evaluator::new();
    let tokens = vec![
        Token::Number(1),
        Token::Number(0),
        Token::Operator(OperatorKind::Divide),
    ];
    assert_eq!(
        EvalError::DivisionByZero,
        evaluator.eval_all(&tokens).unwrap_err()
    );
}

#[test]
fn overflow_is_reported() {
    let mut evaluator = Evaluator::new();
    let tokens = vec![
        Token::Number(isize::MAX),
        Token::Number(1),
        Token::Operator(OperatorKind::Add),
    ];
    assert_eq!(
        EvalError::NumericOverflow,
        evaluator.eval_all(&tokens).unwrap_err()
    );
}

#[test]
fn division_truncates_toward_zero() {
    let mut evaluator = Evaluator::new();
    let tokens = vec![
        Token::Number(-7),
        Token::Number(2),
        Token::Operator(OperatorKind::Divide),
        Token::Period,
    ];
    assert_eq!(
        Token::Number(-3),
        evaluator.eval_all(&tokens).unwrap().unwrap()
    );
}

#[test]
fn definition_resolves_at_invocation_time() {
    let mut evaluator = Evaluator::new();
    let define_a = vec![
        Token::Colon,
        Token::Word("a".to_string()),
        Token::Word("b".to_string()),
        Token::Semicolon,
    ];
    assert_eq!(None, evaluator.eval_all(&define_a).unwrap());
    // invoking `a` fails while `b` is still undefined
    let invoke_a = vec![Token::Word("a".to_string())];
    assert_eq!(
        EvalError::NoDefinition,
        evaluator.eval_all(&invoke_a).unwrap_err()
    );
    // defining `b` afterwards makes `a` usable
    let define_b = vec![
        Token::Colon,
        Token::Word("b".to_string()),
        Token::Number(1),
        Token::Semicolon,
    ];
    assert_eq!(None, evaluator.eval_all(&define_b).unwrap());
    let run_a = vec![Token::Word("a".to_string()), Token::Period];
    assert_eq!(Token::Number(1), evaluator.eval_all(&run_a).unwrap().unwrap());
}

#[test]
fn redefinition_replaces_prior_definition() {
    let mut evaluator = Evaluator::new();
    let program = vec![
        Token::Colon,
        Token::Word("foo".to_string()),
        Token::Number(1),
        Token::Semicolon,
        Token::Colon,
        Token::Word("foo".to_string()),
        Token::Number(2),
        Token::Semicolon,
        Token::Word("foo".to_string()),
        Token::Period,
    ];
    assert_eq!(
        Token::Number(2),
        evaluator.eval_all(&program).unwrap().unwrap()
    );
}

#[test]
fn idempotent_across_fresh_evaluators() {
    let program = vec![
        Token::Number(3),
        Token::Number(4),
        Token::Operator(OperatorKind::Multiply),
        Token::Period,
    ];
    let mut first = Evaluator::new();
    let mut second = Evaluator::new();
    assert_eq!(
        first.eval_all(&program).unwrap().unwrap(),
        second.eval_all(&program).unwrap().unwrap()
    );

    let failing = vec![Token::Word("nope".to_string())];
    let mut third = Evaluator::new();
    let mut fourth = Evaluator::new();
    assert_eq!(
        third.eval_all(&failing).unwrap_err(),
        fourth.eval_all(&failing).unwrap_err()
    );
}

#[test]
fn eval_single_tokens_in_order() {
    let mut evaluator = Evaluator::new();
    assert_eq!(None, evaluator.eval(Token::Number(8)).unwrap());
    assert_eq!(None, evaluator.eval(Token::Number(5)).unwrap());
    assert_eq!(
        None,
        evaluator.eval(Token::Operator(OperatorKind::Subtract)).unwrap()
    );
    assert_eq!(Some(Token::Number(3)), evaluator.eval(Token::Period).unwrap());
}

#[test]
fn error_messages_match_kinds() {
    assert_eq!("stack underflow", EvalError::StackUnderflow.message());
    assert_eq!("unexpected colon", EvalError::UnexpectedColon.message());
    assert_eq!(
        "definition did not start with word",
        EvalError::InvalidDefinition.message()
    );
    assert_eq!("division by zero", EvalError::DivisionByZero.message());
}

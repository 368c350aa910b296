//! The laws of the interpreter, stated over the small-step semantics and
//! proved once for all inputs.

use vstd::prelude::*;

use crate::errors::EvalError;
use crate::lexer::{is_space, lemma_word_len, spec_tokenize};
use crate::numeral::{int_to_text, is_digit, lemma_int_to_text_val, parses_as_isize};
use crate::semantics::{
    apply_op, conf, evals_to, initial_state, lemma_evals_to, lemma_run_deterministic, op_defined,
    run, step, Config, Mode, RunResult, StateView, StepResult,
};
use crate::token::{spec_render, OperatorKind, TokenView};

verus! {

/// Pushing two numbers, applying an operator and popping with a Period
/// yields exactly the defined arithmetic result `apply_op(k, b, a)` (with
/// `b` the more recently pushed operand), and leaves the state as it was.
/// The inputs on which the arithmetic itself is undefined, a zero divisor
/// or a result outside `isize`, are excluded: those fail instead.
pub proof fn lemma_binary_operation(s: StateView, a: isize, b: isize, k: OperatorKind)
    requires
        s.mode is Interpret,
        op_defined(k, b as int, a as int),
    ensures
        evals_to(
            conf(
                s,
                seq![
                    TokenView::Number(a as int),
                    TokenView::Number(b as int),
                    TokenView::Operator(k),
                    TokenView::Period,
                ],
                None,
            ),
            s,
            Ok(Some(TokenView::Number(apply_op(k, b as int, a as int)))),
        ),
{
    let p = seq![
        TokenView::Number(a as int),
        TokenView::Number(b as int),
        TokenView::Operator(k),
        TokenView::Period,
    ];
    let c0 = conf(s, p, None);
    let r = apply_op(k, b as int, a as int);
    let s1 = StateView { stack: s.stack.push(TokenView::Number(a as int)), ..s };
    let c1 = conf(s1, p.skip(1), None);
    assert(step(c0) == StepResult::Next(c1));
    let s2 = StateView { stack: s1.stack.push(TokenView::Number(b as int)), ..s };
    let c2 = conf(s2, p.skip(1).skip(1), None);
    assert(p.skip(1)[0] == p[1]);
    assert(step(c1) == StepResult::Next(c2));
    assert(s2.stack.len() == s.stack.len() + 2);
    assert(s2.stack[s2.stack.len() - 1] == TokenView::Number(b as int));
    assert(s2.stack[s2.stack.len() - 2] == TokenView::Number(a as int));
    assert(s2.stack.take(s2.stack.len() - 2) =~= s.stack);
    let s3 = StateView { stack: s.stack.push(TokenView::Number(r)), ..s };
    let c3 = conf(s3, p.skip(1).skip(1).skip(1), None);
    assert(p.skip(1).skip(1)[0] == p[2]);
    assert(step(c2) == StepResult::Next(c3));
    assert(p.skip(1).skip(1).skip(1)[0] == p[3]);
    assert(s3.stack.drop_last() =~= s.stack);
    assert(s3.stack.last() == TokenView::Number(r));
    let s4 = StateView { stack: s3.stack.drop_last(), ..s };
    let c4 = conf(s4, p.skip(1).skip(1).skip(1).skip(1), Some(TokenView::Number(r)));
    assert(step(c3) == StepResult::Next(c4));
    assert(p.skip(1).skip(1).skip(1).skip(1).len() == 0);
    assert(s4 =~= s);
    assert(step(c4) == StepResult::Stop(s, Some(TokenView::Number(r))));
    assert(run(c4, 1) == RunResult::Finished(s, Ok(Some(TokenView::Number(r)))));
    assert(run(c3, 2) == run(c4, 1));
    assert(run(c2, 3) == run(c3, 2));
    assert(run(c1, 4) == run(c2, 3));
    assert(run(c0, 5) == run(c1, 4));
    lemma_evals_to(c0, s, Ok(Some(TokenView::Number(r))), 5);
}

/// Any operator with fewer than two stack items fails with StackUnderflow,
/// regardless of which operator; the lone operand, if any, stays popped.
pub proof fn lemma_operator_underflow(s: StateView, k: OperatorKind)
    requires
        s.mode is Interpret,
        s.stack.len() < 2,
    ensures
        evals_to(
            conf(s, seq![TokenView::Operator(k)], None),
            StateView { stack: Seq::empty(), ..s },
            Err(EvalError::StackUnderflow),
        ),
{
    let c0 = conf(s, seq![TokenView::Operator(k)], None);
    let s1 = StateView { stack: Seq::empty(), ..s };
    assert(step(c0) == StepResult::Fail(s1, EvalError::StackUnderflow));
    assert(run(c0, 1) == RunResult::Finished(s1, Err(EvalError::StackUnderflow)));
    lemma_evals_to(c0, s1, Err(EvalError::StackUnderflow), 1);
}

/// A bare Period with an empty stack fails with StackUnderflow and changes
/// nothing.
pub proof fn lemma_period_underflow(s: StateView)
    requires
        s.mode is Interpret,
        s.stack.len() == 0,
    ensures
        evals_to(conf(s, seq![TokenView::Period], None), s, Err(EvalError::StackUnderflow)),
{
    let c0 = conf(s, seq![TokenView::Period], None);
    assert(step(c0) == StepResult::Fail(s, EvalError::StackUnderflow));
    assert(run(c0, 1) == RunResult::Finished(s, Err(EvalError::StackUnderflow)));
    lemma_evals_to(c0, s, Err(EvalError::StackUnderflow), 1);
}

/// Definitions are visible only after their closing Semicolon: while
/// compiling, no token but the closing Semicolon changes the dictionary.
pub proof fn lemma_definition_hidden_until_close(c: Config)
    requires
        c.state.mode is Compile,
        c.pending.len() > 0,
        !(c.pending[0] is Semicolon),
    ensures
        match step(c) {
            StepResult::Next(c2) => c2.state.dictionary == c.state.dictionary,
            StepResult::Fail(s, e) => s.dictionary == c.state.dictionary,
            StepResult::Stop(s, y) => false,
        },
{
}

/// A stored definition replays without being consumed: invoking a defined
/// word leaves the whole state, the dictionary included, unchanged and
/// prepends the stored body to the pending tokens, so a word can be
/// replayed any number of times.
pub proof fn lemma_word_replay(c: Config, w: Seq<char>)
    requires
        c.state.mode is Interpret,
        c.pending.len() > 0,
        c.pending[0] == TokenView::Word(w),
        c.state.dictionary.contains_key(w),
    ensures
        step(c) == StepResult::Next(
            conf(c.state, c.state.dictionary[w] + c.pending.skip(1), c.yielded),
        ),
{
}

/// A Colon while already compiling fails with UnexpectedColon and leaves
/// the state unchanged.
pub proof fn lemma_unexpected_colon(c: Config)
    requires
        c.state.mode is Compile,
        c.pending.len() > 0,
        c.pending[0] is Colon,
    ensures
        step(c) == StepResult::Fail(c.state, EvalError::UnexpectedColon),
{
}

/// A Semicolon while interpreting fails with UnexpectedSemicolon and leaves
/// the state unchanged.
pub proof fn lemma_unexpected_semicolon(c: Config)
    requires
        c.state.mode is Interpret,
        c.pending.len() > 0,
        c.pending[0] is Semicolon,
    ensures
        step(c) == StepResult::Fail(c.state, EvalError::UnexpectedSemicolon),
{
}

/// Invoking a word the dictionary does not hold fails with NoDefinition.
pub proof fn lemma_undefined_word(c: Config, w: Seq<char>)
    requires
        c.state.mode is Interpret,
        c.pending.len() > 0,
        c.pending[0] == TokenView::Word(w),
        !c.state.dictionary.contains_key(w),
    ensures
        step(c) == StepResult::Fail(c.state, EvalError::NoDefinition),
{
}

/// Closing a definition whose buffer is empty or does not start with a word
/// fails with InvalidDefinition; the buffer is cleared and the machine is
/// back in Interpret mode either way.
pub proof fn lemma_malformed_definition(c: Config)
    requires
        c.state.mode is Compile,
        c.pending.len() > 0,
        c.pending[0] is Semicolon,
        c.state.definition.len() == 0 || !(c.state.definition[0] is Word),
    ensures
        step(c) == StepResult::Fail(
            StateView { mode: Mode::Interpret, definition: Seq::empty(), ..c.state },
            EvalError::InvalidDefinition,
        ),
{
}

/// Evaluation has no hidden state: any two finished evaluations of the same
/// token sequence from the same initial state, in particular from freshly
/// constructed evaluators, agree on the final state and the outcome.
pub proof fn lemma_evaluation_idempotent(
    pending: Seq<TokenView>,
    s1: StateView,
    r1: Result<Option<TokenView>, EvalError>,
    s2: StateView,
    r2: Result<Option<TokenView>, EvalError>,
)
    requires
        evals_to(conf(initial_state(), pending, None), s1, r1),
        evals_to(conf(initial_state(), pending, None), s2, r2),
    ensures
        s1 == s2,
        r1 == r2,
{
    let c = conf(initial_state(), pending, None);
    let n1 = choose|n: nat| run(c, n) == RunResult::Finished(s1, r1);
    let n2 = choose|n: nat| run(c, n) == RunResult::Finished(s2, r2);
    lemma_run_deterministic(c, n1, n2);
}

/// Round trip: tokenizing the decimal rendering of a Number token yields
/// exactly that token again, and evaluating it pushes an equal value.
pub proof fn lemma_number_round_trip(v: isize, s: StateView)
    requires
        s.mode is Interpret,
    ensures
        spec_tokenize(spec_render(TokenView::Number(v as int))) == Ok::<Seq<TokenView>, Seq<char>>(
            seq![TokenView::Number(v as int)],
        ),
        evals_to(
            conf(s, seq![TokenView::Number(v as int)], None),
            StateView { stack: s.stack.push(TokenView::Number(v as int)), ..s },
            Ok(None),
        ),
{
    lemma_int_to_text_val(v as int);
    let text = int_to_text(v as int);
    assert(parses_as_isize(text));
    assert forall|j: int| 0 <= j < text.len() implies !is_space(text[j]) by {
        if j == 0 && (text[0] == '+' || text[0] == '-') {
            // a sign is not whitespace
        } else {
            if text[0] == '+' || text[0] == '-' {
                assert(text.skip(1)[j - 1] == text[j]);
            }
            assert(is_digit(text[j]));
        }
    }
    lemma_word_len(text, text.len() as nat);
    assert(text.take(text.len() as int) =~= text);
    assert(text.skip(text.len() as int).len() == 0);
    assert(spec_tokenize(text.skip(text.len() as int)) == Ok::<Seq<TokenView>, Seq<char>>(
        Seq::empty(),
    ));
    assert(seq![TokenView::Number(v as int)] + Seq::<TokenView>::empty() =~= seq![
        TokenView::Number(v as int),
    ]);
    let c0 = conf(s, seq![TokenView::Number(v as int)], None);
    let s1 = StateView { stack: s.stack.push(TokenView::Number(v as int)), ..s };
    let c1 = conf(s1, seq![TokenView::Number(v as int)].skip(1), None);
    assert(step(c0) == StepResult::Next(c1));
    assert(step(c1) == StepResult::Stop(s1, None));
    assert(run(c1, 1) == RunResult::Finished(s1, Ok(None)));
    assert(run(c0, 2) == run(c1, 1));
    lemma_evals_to(c0, s1, Ok(None), 2);
}

} // verus!

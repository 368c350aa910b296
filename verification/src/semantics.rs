//! The small-step semantics of the evaluator.
//!
//! A [`Config`] holds the machine state, the tokens still awaiting
//! evaluation, and the value most recently popped by a Period. [`step`]
//! performs one transition. Because a word whose body invokes itself
//! replays forever, [`run`] iterates `step` under a fuel bound: a
//! configuration terminates exactly when some fuel suffices to finish.

use vstd::prelude::*;

use crate::errors::EvalError;
use crate::token::{OperatorKind, TokenView};

verus! {

/// Whether tokens execute immediately (Interpret) or buffer into a pending
/// definition (Compile).
#[derive(PartialEq, Eq, Copy, Clone, Debug)]
pub enum Mode {
    Interpret,
    Compile,
}

/// The mathematical model of the evaluator's state.
#[verifier::ext_equal]
pub struct StateView {
    /// The operand stack; the last element is the top.
    pub stack: Seq<TokenView>,
    /// The current mode.
    pub mode: Mode,
    /// The tokens buffered for the definition being compiled.
    pub definition: Seq<TokenView>,
    /// The word dictionary: name to stored body.
    pub dictionary: Map<Seq<char>, Seq<TokenView>>,
}

/// The state of a freshly constructed evaluator.
pub open spec fn initial_state() -> StateView {
    StateView {
        stack: Seq::empty(),
        mode: Mode::Interpret,
        definition: Seq::empty(),
        dictionary: Map::empty(),
    }
}

/// A configuration of the machine.
#[verifier::ext_equal]
pub struct Config {
    pub state: StateView,
    /// The tokens still to be consumed, in order.
    pub pending: Seq<TokenView>,
    /// The value popped by the most recent Period, if any.
    pub yielded: Option<TokenView>,
}

pub open spec fn conf(state: StateView, pending: Seq<TokenView>, yielded: Option<TokenView>) -> Config {
    Config { state, pending, yielded }
}

/// What one transition produced: a next configuration, a normal stop, or an
/// error that aborts evaluation in the given state.
pub enum StepResult {
    Next(Config),
    Stop(StateView, Option<TokenView>),
    Fail(StateView, EvalError),
}

/// The outcome of running a configuration under a fuel bound.
pub enum RunResult {
    OutOfFuel,
    Finished(StateView, Result<Option<TokenView>, EvalError>),
}

/// Truncating integer division: the quotient rounded toward zero, as `/`
/// computes on machine integers.
pub open spec fn trunc_div(a: int, b: int) -> int {
    if a == 0 {
        0
    } else if a > 0 && b > 0 {
        a / b
    } else if a < 0 && b < 0 {
        (a * -1) / (b * -1)
    } else if a < 0 {
        ((a * -1) / b) * -1
    } else {
        (a / (b * -1)) * -1
    }
}

/// The defined arithmetic of a binary operator, where `v1` is the more
/// recently pushed operand and `v2` the one below it.
pub open spec fn apply_op(k: OperatorKind, v1: int, v2: int) -> int {
    match k {
        OperatorKind::Add => v1 + v2,
        OperatorKind::Subtract => v2 - v1,
        OperatorKind::Divide => trunc_div(v2, v1),
        OperatorKind::Multiply => v1 * v2,
    }
}

pub open spec fn in_isize_range(v: int) -> bool {
    isize::MIN <= v <= isize::MAX
}

/// Whether the operator's result is defined on machine integers: the
/// divisor is nonzero and the result fits in `isize`.
pub open spec fn op_defined(k: OperatorKind, v1: int, v2: int) -> bool {
    &&& (k is Divide ==> v1 != 0)
    &&& in_isize_range(apply_op(k, v1, v2))
}

/// One transition in Compile mode on token `t`.
pub open spec fn step_compile(
    s: StateView,
    t: TokenView,
    rest: Seq<TokenView>,
    y: Option<TokenView>,
) -> StepResult {
    match t {
        TokenView::Semicolon => {
            // Closing returns to Interpret and clears the buffer whether or
            // not the definition was well-formed.
            let closed = StateView {
                stack: s.stack,
                mode: Mode::Interpret,
                definition: Seq::empty(),
                dictionary: s.dictionary,
            };
            if s.definition.len() == 0 {
                StepResult::Fail(closed, EvalError::InvalidDefinition)
            } else {
                match s.definition[0] {
                    TokenView::Word(name) => StepResult::Next(conf(
                        StateView {
                            stack: s.stack,
                            mode: Mode::Interpret,
                            definition: Seq::empty(),
                            dictionary: s.dictionary.insert(name, s.definition.skip(1)),
                        },
                        rest,
                        y,
                    )),
                    _ => StepResult::Fail(closed, EvalError::InvalidDefinition),
                }
            }
        },
        TokenView::Colon => StepResult::Fail(s, EvalError::UnexpectedColon),
        _ => StepResult::Next(conf(
            StateView {
                stack: s.stack,
                mode: s.mode,
                definition: s.definition.push(t),
                dictionary: s.dictionary,
            },
            rest,
            y,
        )),
    }
}

/// One transition in Interpret mode on token `t`.
pub open spec fn step_interpret(
    s: StateView,
    t: TokenView,
    rest: Seq<TokenView>,
    y: Option<TokenView>,
) -> StepResult {
    match t {
        TokenView::Number(_) => StepResult::Next(conf(
            StateView { stack: s.stack.push(t), mode: s.mode, definition: s.definition, dictionary: s.dictionary },
            rest,
            y,
        )),
        TokenView::Operator(k) => {
            if s.stack.len() < 2 {
                // Pops are not transactional: a lone operand is popped and
                // lost before the underflow is noticed.
                StepResult::Fail(
                    StateView { stack: Seq::empty(), mode: s.mode, definition: s.definition, dictionary: s.dictionary },
                    EvalError::StackUnderflow,
                )
            } else {
                let t1 = s.stack[s.stack.len() - 1];
                let t2 = s.stack[s.stack.len() - 2];
                let popped = StateView {
                    stack: s.stack.take(s.stack.len() - 2),
                    mode: s.mode,
                    definition: s.definition,
                    dictionary: s.dictionary,
                };
                match (t1, t2) {
                    (TokenView::Number(v1), TokenView::Number(v2)) => {
                        if k is Divide && v1 == 0 {
                            StepResult::Fail(popped, EvalError::DivisionByZero)
                        } else if !in_isize_range(apply_op(k, v1, v2)) {
                            StepResult::Fail(popped, EvalError::NumericOverflow)
                        } else {
                            StepResult::Next(conf(
                                StateView {
                                    stack: popped.stack.push(TokenView::Number(apply_op(k, v1, v2))),
                                    mode: s.mode,
                                    definition: s.definition,
                                    dictionary: s.dictionary,
                                },
                                rest,
                                y,
                            ))
                        }
                    },
                    _ => StepResult::Fail(popped, EvalError::InvalidOperand),
                }
            }
        },
        TokenView::Period => {
            if s.stack.len() == 0 {
                StepResult::Fail(s, EvalError::StackUnderflow)
            } else {
                StepResult::Next(conf(
                    StateView {
                        stack: s.stack.drop_last(),
                        mode: s.mode,
                        definition: s.definition,
                        dictionary: s.dictionary,
                    },
                    rest,
                    Some(s.stack.last()),
                ))
            }
        },
        TokenView::Colon => StepResult::Next(conf(
            StateView { stack: s.stack, mode: Mode::Compile, definition: s.definition, dictionary: s.dictionary },
            rest,
            y,
        )),
        TokenView::Semicolon => StepResult::Fail(s, EvalError::UnexpectedSemicolon),
        TokenView::Word(w) => {
            if s.dictionary.contains_key(w) {
                StepResult::Next(conf(s, s.dictionary[w] + rest, y))
            } else {
                StepResult::Fail(s, EvalError::NoDefinition)
            }
        },
    }
}

/// One transition of the machine.
pub open spec fn step(c: Config) -> StepResult {
    if c.pending.len() == 0 {
        StepResult::Stop(c.state, c.yielded)
    } else {
        let t = c.pending[0];
        let rest = c.pending.skip(1);
        match c.state.mode {
            Mode::Compile => step_compile(c.state, t, rest, c.yielded),
            Mode::Interpret => step_interpret(c.state, t, rest, c.yielded),
        }
    }
}

/// Iterate [`step`] under a fuel bound.
pub open spec fn run(c: Config, fuel: nat) -> RunResult
    decreases fuel,
{
    if fuel == 0 {
        RunResult::OutOfFuel
    } else {
        match step(c) {
            StepResult::Next(c2) => run(c2, (fuel - 1) as nat),
            StepResult::Stop(s, y) => RunResult::Finished(s, Ok(y)),
            StepResult::Fail(s, e) => RunResult::Finished(s, Err(e)),
        }
    }
}

/// Whether evaluation of the configuration reaches an outcome at all: a word
/// whose body invokes itself replays forever and never does.
pub open spec fn terminates(c: Config) -> bool {
    exists|n: nat| !(run(c, n) is OutOfFuel)
}

/// Whether running the configuration finishes in state `s` with outcome `r`
/// under some fuel; by [`lemma_run_deterministic`] there is at most one such
/// pair.
pub open spec fn evals_to(
    c: Config,
    s: StateView,
    r: Result<Option<TokenView>, EvalError>,
) -> bool {
    exists|n: nat| run(c, n) == RunResult::Finished(s, r)
}

/// Exhibit a fuel witness for [`evals_to`].
pub proof fn lemma_evals_to(
    c: Config,
    s: StateView,
    r: Result<Option<TokenView>, EvalError>,
    n: nat,
)
    requires
        run(c, n) == RunResult::Finished(s, r),
    ensures
        evals_to(c, s, r),
        terminates(c),
{
    assert(!(run(c, n) is OutOfFuel));
}

/// Fuel beyond what a run needs does not change its outcome.
pub proof fn lemma_run_monotonic(c: Config, n: nat, m: nat)
    requires
        !(run(c, n) is OutOfFuel),
        n <= m,
    ensures
        run(c, m) == run(c, n),
    decreases n,
{
    match step(c) {
        StepResult::Next(c2) => {
            if m > n {
                lemma_run_monotonic(c2, (n - 1) as nat, (m - 1) as nat);
            }
        },
        StepResult::Stop(s, y) => {},
        StepResult::Fail(s, e) => {},
    }
}

/// Evaluation is deterministic: two runs of the same configuration that
/// finish agree on the final state and the outcome.
pub proof fn lemma_run_deterministic(c: Config, n1: nat, n2: nat)
    requires
        run(c, n1) is Finished,
        run(c, n2) is Finished,
    ensures
        run(c, n1) == run(c, n2),
{
    if n1 <= n2 {
        lemma_run_monotonic(c, n1, n2);
    } else {
        lemma_run_monotonic(c, n2, n1);
    }
}

/// A token sequence without Word tokens replays nothing: each transition
/// consumes one pending token, so evaluation always terminates.
pub proof fn lemma_word_free_terminates(c: Config)
    requires
        forall|i: int| 0 <= i < c.pending.len() ==> !(c.pending[i] is Word),
    ensures
        terminates(c),
    decreases c.pending.len(),
{
    if c.pending.len() == 0 {
        assert(!(run(c, 1) is OutOfFuel));
    } else {
        match step(c) {
            StepResult::Next(c2) => {
                assert(c2.pending =~= c.pending.skip(1));
                assert forall|i: int| 0 <= i < c2.pending.len() implies !(c2.pending[i]
                    is Word) by {
                    assert(c2.pending[i] == c.pending[i + 1]);
                }
                lemma_word_free_terminates(c2);
                let n2 = choose|n: nat| !(run(c2, n) is OutOfFuel);
                assert(run(c, (n2 + 1) as nat) == run(c2, n2));
                assert(!(run(c, (n2 + 1) as nat) is OutOfFuel));
            },
            StepResult::Stop(s, y) => {
                assert(!(run(c, 1) is OutOfFuel));
            },
            StepResult::Fail(s, e) => {
                assert(!(run(c, 1) is OutOfFuel));
            },
        }
    }
}

/// A configuration one step from the end: if `cur` stops or fails and sits
/// `steps` transitions after `c0` on the fuel ladder, then `c0` evaluates to
/// the same outcome.
pub proof fn lemma_run_finishes(
    c0: Config,
    steps: nat,
    cur: Config,
    s: StateView,
    r: Result<Option<TokenView>, EvalError>,
)
    requires
        run(c0, (steps + 1) as nat) == run(cur, 1),
        match r {
            Ok(y) => step(cur) == StepResult::Stop(s, y),
            Err(e) => step(cur) == StepResult::Fail(s, e),
        },
    ensures
        evals_to(c0, s, r),
{
    assert(run(cur, 1) == RunResult::Finished(s, r));
    lemma_evals_to(c0, s, r, (steps + 1) as nat);
}

/// Carrying one transition through `run`: a step from `cur` to `next`
/// shifts the fuel ladder by one.
pub proof fn lemma_step_next(c0: Config, steps: nat, cur: Config, next: Config)
    requires
        step(cur) == StepResult::Next(next),
        forall|m: nat| run(c0, (steps + m) as nat) == run(cur, m),
    ensures
        forall|m: nat| run(c0, (steps + 1 + m) as nat) == run(next, m),
{
    assert forall|m: nat| run(c0, (steps + 1 + m) as nat) == run(next, m) by {
        assert(run(c0, (steps + (m + 1)) as nat) == run(cur, (m + 1) as nat));
        assert(run(cur, (m + 1) as nat) == run(next, m));
    }
}

} // verus!

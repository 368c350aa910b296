//! The evaluator: the stack machine, its compile/interpret mode switch, and
//! the word dictionary it builds and consults.

use vstd::prelude::*;

use crate::errors::EvalError;
use crate::semantics::{
    apply_op, conf, evals_to, in_isize_range, initial_state, lemma_run_finishes, lemma_step_next, run,
    step, terminates, Config, Mode, RunResult, StateView, StepResult,
};
use crate::token::{token_views, OperatorKind, Token, TokenView};

verus! {

/// The model of a yielded result.
pub open spec fn yield_view(r: Option<Token>) -> Option<TokenView> {
    match r {
        Some(t) => Some(t@),
        None => None,
    }
}

/// The model of an evaluation outcome.
pub open spec fn outcome_view(r: Result<Option<Token>, EvalError>) -> Result<
    Option<TokenView>,
    EvalError,
> {
    match r {
        Ok(y) => Ok(yield_view(y)),
        Err(e) => Err(e),
    }
}

/// The dictionary entries as a map from word name to stored body; a later
/// entry shadows an earlier one under the same name.
pub open spec fn dictionary_view(entries: Seq<(String, Vec<Token>)>) -> Map<
    Seq<char>,
    Seq<TokenView>,
>
    decreases entries.len(),
{
    if entries.len() == 0 {
        Map::empty()
    } else {
        dictionary_view(entries.drop_last()).insert(
            entries.last().0@,
            token_views(entries.last().1@),
        )
    }
}

proof fn lemma_dictionary_view_found(entries: Seq<(String, Vec<Token>)>, i: int, k: Seq<char>)
    requires
        0 <= i < entries.len(),
        entries[i].0@ == k,
        forall|j: int| i < j < entries.len() ==> entries[j].0@ != k,
    ensures
        dictionary_view(entries).contains_key(k),
        dictionary_view(entries)[k] == token_views(entries[i].1@),
    decreases entries.len(),
{
    if i < entries.len() - 1 {
        lemma_dictionary_view_found(entries.drop_last(), i, k);
    }
}

proof fn lemma_dictionary_view_absent(entries: Seq<(String, Vec<Token>)>, k: Seq<char>)
    requires
        forall|j: int| 0 <= j < entries.len() ==> entries[j].0@ != k,
    ensures
        !dictionary_view(entries).contains_key(k),
    decreases entries.len(),
{
    if entries.len() > 0 {
        lemma_dictionary_view_absent(entries.drop_last(), k);
    }
}

proof fn lemma_dictionary_view_push(
    entries: Seq<(String, Vec<Token>)>,
    name: String,
    body: Vec<Token>,
)
    ensures
        dictionary_view(entries.push((name, body))) == dictionary_view(entries).insert(
            name@,
            token_views(body@),
        ),
{
    assert(entries.push((name, body)).drop_last() =~= entries);
}

/// Clone a borrowed token sequence into an owned one.
fn clone_tokens(ts: &[Token]) -> (r: Vec<Token>)
    ensures
        r@ == ts@,
{
    let mut r: Vec<Token> = Vec::new();
    let n = ts.len();
    let mut i: usize = 0;
    while i < n
        invariant
            i <= n,
            n == ts@.len(),
            r@ == ts@.subrange(0, i as int),
        decreases n - i,
    {
        r.push(ts[i].clone());
        i += 1;
        proof {
            assert(r@ =~= ts@.subrange(0, i as int));
        }
    }
    proof {
        assert(ts@.subrange(0, n as int) =~= ts@);
    }
    r
}

/// The evaluator: operand stack, mode, in-progress definition buffer, and
/// word dictionary. Its model is a [`StateView`].
pub struct Evaluator {
    stack: Vec<Token>,
    mode: Mode,
    definition: Vec<Token>,
    dictionary: Vec<(String, Vec<Token>)>,
}

impl View for Evaluator {
    type V = StateView;

    closed spec fn view(&self) -> StateView {
        StateView {
            stack: token_views(self.stack@),
            mode: self.mode,
            definition: token_views(self.definition@),
            dictionary: dictionary_view(self.dictionary@),
        }
    }
}

impl Evaluator {
    /// A fresh evaluator: empty stack, Interpret mode, empty definition
    /// buffer, empty dictionary.
    pub fn new() -> (r: Evaluator)
        ensures
            r@ == initial_state(),
    {
        let r = Evaluator {
            stack: Vec::new(),
            definition: Vec::new(),
            mode: Mode::Interpret,
            dictionary: Evaluator::empty_dictionary(),
        };
        proof {
            assert(r@.stack =~= initial_state().stack);
            assert(r@.definition =~= initial_state().definition);
            assert(r@ =~= initial_state());
        }
        r
    }

    fn empty_dictionary() -> (d: Vec<(String, Vec<Token>)>)
        ensures
            dictionary_view(d@) == Map::<Seq<char>, Seq<TokenView>>::empty(),
    {
        Vec::new()
    }

    fn push(&mut self, token: Token)
        ensures
            final(self)@ == (StateView {
                stack: old(self)@.stack.push(token@),
                ..old(self)@
            }),
    {
        self.stack.push(token);
        proof {
            assert(token_views(self.stack@) =~= token_views(old(self).stack@).push(token@));
            assert(final(self)@ =~= (StateView { stack: old(self)@.stack.push(token@), ..old(self)@ }));
        }
    }

    fn pop(&mut self) -> (r: Option<Token>)
        ensures
            old(self)@.stack.len() == 0 ==> r is None && final(self)@ == old(self)@,
            old(self)@.stack.len() > 0 ==> (r matches Some(t) && t@ == old(self)@.stack.last()
                && final(self)@ == (StateView { stack: old(self)@.stack.drop_last(), ..old(self)@ })),
    {
        let r = self.stack.pop();
        proof {
            if old(self).stack@.len() > 0 {
                assert(token_views(self.stack@) =~= token_views(old(self).stack@).drop_last());
                assert(final(self)@ =~= (StateView {
                    stack: old(self)@.stack.drop_last(),
                    ..old(self)@
                }));
            }
        }
        r
    }

    fn pop2(&mut self) -> (r: Option<(Token, Token)>)
        ensures
            old(self)@.stack.len() >= 2 ==> (r matches Some(p)
                && p.0@ == old(self)@.stack[old(self)@.stack.len() - 1]
                && p.1@ == old(self)@.stack[old(self)@.stack.len() - 2]
                && final(self)@ == (StateView {
                    stack: old(self)@.stack.take(old(self)@.stack.len() - 2),
                    ..old(self)@
                })),
            old(self)@.stack.len() < 2 ==> r is None && final(self)@ == (StateView {
                stack: Seq::empty(),
                ..old(self)@
            }),
    {
        let t1 = match self.pop() {
            Some(t) => t,
            None => {
                proof {
                    assert(final(self)@ =~= (StateView { stack: Seq::empty(), ..old(self)@ }));
                }
                return None;
            },
        };
        let t2 = match self.pop() {
            Some(t) => t,
            None => {
                proof {
                    assert(final(self)@ =~= (StateView { stack: Seq::empty(), ..old(self)@ }));
                }
                return None;
            },
        };
        proof {
            assert(old(self)@.stack.drop_last().drop_last() =~= old(self)@.stack.take(
                old(self)@.stack.len() - 2,
            ));
        }
        Some((t1, t2))
    }

    fn add_to_definition(&mut self, token: Token)
        ensures
            final(self)@ == (StateView {
                definition: old(self)@.definition.push(token@),
                ..old(self)@
            }),
    {
        self.definition.push(token);
        proof {
            assert(token_views(self.definition@) =~= token_views(old(self).definition@).push(
                token@,
            ));
            assert(final(self)@ =~= (StateView {
                definition: old(self)@.definition.push(token@),
                ..old(self)@
            }));
        }
    }

    /// The defined arithmetic on two popped operands, `v1` the top of the
    /// stack and `v2` the one below it; division by zero and results outside
    /// the `isize` range are reported as errors.
    fn calculate(&self, v1: isize, v2: isize, kind: OperatorKind) -> (r: Result<isize, EvalError>)
        ensures
            kind is Divide && v1 == 0 ==> r == Err::<isize, EvalError>(EvalError::DivisionByZero),
            !(kind is Divide && v1 == 0) && !in_isize_range(apply_op(kind, v1 as int, v2 as int))
                ==> r == Err::<isize, EvalError>(EvalError::NumericOverflow),
            !(kind is Divide && v1 == 0) && in_isize_range(apply_op(kind, v1 as int, v2 as int))
                ==> (r matches Ok(n) && n as int == apply_op(kind, v1 as int, v2 as int)),
    {
        match kind {
            OperatorKind::Add => match v1.checked_add(v2) {
                Some(n) => Ok(n),
                None => Err(EvalError::NumericOverflow),
            },
            OperatorKind::Subtract => match v2.checked_sub(v1) {
                Some(n) => Ok(n),
                None => Err(EvalError::NumericOverflow),
            },
            OperatorKind::Divide => {
                if v1 == 0 {
                    Err(EvalError::DivisionByZero)
                } else {
                    match v2.checked_div(v1) {
                        Some(n) => Ok(n),
                        None => Err(EvalError::NumericOverflow),
                    }
                }
            },
            OperatorKind::Multiply => match v1.checked_mul(v2) {
                Some(n) => Ok(n),
                None => Err(EvalError::NumericOverflow),
            },
        }
    }

    /// Look the word up in the dictionary; a later definition shadows an
    /// earlier one under the same name.
    fn find_def(&self, name: &String) -> (r: Option<&Vec<Token>>)
        ensures
            match r {
                Some(body) => self@.dictionary.contains_key(name@) && token_views(body@)
                    == self@.dictionary[name@],
                None => !self@.dictionary.contains_key(name@),
            },
    {
        let n = self.dictionary.len();
        let mut i: usize = n;
        while i > 0
            invariant
                i <= n,
                n == self.dictionary@.len(),
                forall|j: int| i <= j < n ==> self.dictionary@[j].0@ != name@,
            decreases i,
    {
            i = i - 1;
            if self.dictionary[i].0 == *name {
                proof {
                    lemma_dictionary_view_found(self.dictionary@, i as int, name@);
                }
                return Some(&self.dictionary[i].1);
            }
        }
        proof {
            lemma_dictionary_view_absent(self.dictionary@, name@);
        }
        None
    }

    /// Feed one token through the machine; a Word token replays its stored
    /// body through the same machine, so the caller must know that the
    /// replay terminates (a word whose body invokes itself does not).
    pub fn eval(&mut self, token: Token) -> (r: Result<Option<Token>, EvalError>)
        requires
            terminates(conf(old(self)@, seq![token@], None)),
        ensures
            evals_to(conf(old(self)@, seq![token@], None), final(self)@, outcome_view(r)),
    {
        let ghost tv = token@;
        let ts = vec![token];
        proof {
            assert(token_views(ts@) =~= seq![tv]);
        }
        self.eval_all(ts.as_slice())
    }

    /// Feed the tokens through the machine in order and return the value
    /// popped by the last Period among them, if any. The caller must know
    /// that evaluation terminates: a word whose body invokes itself replays
    /// forever; no cycle detection is attempted.
    #[verifier::loop_isolation(false)]
    pub fn eval_all(&mut self, tokens: &[Token]) -> (r: Result<Option<Token>, EvalError>)
        requires
            terminates(conf(old(self)@, token_views(tokens@), None)),
        ensures
            evals_to(conf(old(self)@, token_views(tokens@), None), final(self)@, outcome_view(r)),
    {
        let ghost c0 = conf(self@, token_views(tokens@), None);
        let mut pending: Vec<Token> = clone_tokens(tokens);
        let mut last: Option<Token> = None;
        let ghost n0 = choose|n: nat| !(run(c0, n) is OutOfFuel);
        let ghost mut steps: nat = 0;
        proof {
            assert(terminates(c0));
            assert(!(run(c0, n0) is OutOfFuel));
            assert(conf(self@, token_views(pending@), yield_view(last)) == c0);
        }
        loop
            invariant
                steps <= n0,
                !(run(c0, n0) is OutOfFuel),
                forall|m: nat|
                    run(c0, (steps + m) as nat) == run(
                        conf(self@, token_views(pending@), yield_view(last)),
                        m,
                    ),
            decreases n0 - steps,
        {
            let ghost cur = conf(self@, token_views(pending@), yield_view(last));
            if pending.len() == 0 {
                proof {
                    assert(run(c0, (steps + 1) as nat) == run(cur, 1));
                    lemma_run_finishes(c0, steps, cur, self@, Ok(yield_view(last)));
                    assert(run(cur, 1) == RunResult::Finished(self@, Ok(yield_view(last))));
                }
                return Ok(last);
            }
            proof {
                let m = (n0 - steps) as nat;
                assert(run(c0, (steps + m) as nat) == run(cur, m));
                assert((steps + m) as nat == n0);
                if m == 0 {
                    assert(run(cur, 0) is OutOfFuel);
                }
                assert(n0 - steps > 0);
            }
            let t = pending.remove(0);
            let ghost rest = cur.pending.skip(1);
            proof {
                assert(token_views(pending@) =~= rest);
                assert(t@ == cur.pending[0]);
            }
            match self.mode {
                Mode::Compile => match t {
                    Token::Semicolon => {
                        self.mode = Mode::Interpret;
                        if self.definition.len() == 0 {
                            proof {
                                assert(self@ =~= (StateView {
                                    mode: Mode::Interpret,
                                    definition: Seq::empty(),
                                    ..cur.state
                                }));
                                assert(step(cur) == StepResult::Fail(
                                    self@,
                                    EvalError::InvalidDefinition,
                                ));
                                assert(run(c0, (steps + 1) as nat) == run(cur, 1));
                                lemma_run_finishes(c0, steps, cur, self@, Err(EvalError::InvalidDefinition));
                            }
                            return Err(EvalError::InvalidDefinition);
                        }
                        let ghost defn0 = self.definition@;
                        let first = self.definition[0].clone();
                        match first {
                            Token::Word(w) => {
                                let dlen = self.definition.len();
                                let mut body: Vec<Token> = Vec::new();
                                let mut j: usize = 1;
                                while j < dlen
                                    invariant
                                        1 <= j <= dlen,
                                        dlen == self.definition@.len(),
                                        body@ == self.definition@.subrange(1, j as int),
                                    decreases dlen - j,
                                {
                                    body.push(self.definition[j].clone());
                                    j += 1;
                                    proof {
                                        assert(body@ =~= self.definition@.subrange(1, j as int));
                                    }
                                }
                                proof {
                                    assert(token_views(body@) =~= token_views(defn0).skip(1));
                                }
                                self.definition.clear();
                                proof {
                                    lemma_dictionary_view_push(self.dictionary@, w, body);
                                }
                                self.dictionary.push((w, body));
                                proof {
                                    let c2 = conf(self@, rest, yield_view(last));
                                    assert(self@.definition =~= Seq::<TokenView>::empty());
                                    assert(cur.state.definition[0] == TokenView::Word(w@));
                                    assert(self@.dictionary == cur.state.dictionary.insert(
                                        w@,
                                        cur.state.definition.skip(1),
                                    ));
                                    assert(step(cur) == StepResult::Next(c2));
                                    lemma_step_next(c0, steps, cur, c2);
                                    steps = steps + 1;
                                }
                            },
                            _ => {
                                self.definition.clear();
                                proof {
                                    assert(!(cur.state.definition[0] is Word));
                                    assert(self@ =~= (StateView {
                                        mode: Mode::Interpret,
                                        definition: Seq::empty(),
                                        ..cur.state
                                    }));
                                    assert(step(cur) == StepResult::Fail(
                                        self@,
                                        EvalError::InvalidDefinition,
                                    ));
                                    assert(run(c0, (steps + 1) as nat) == run(cur, 1));
                                    lemma_run_finishes(c0, steps, cur, self@, Err(EvalError::InvalidDefinition));
                                }
                                return Err(EvalError::InvalidDefinition);
                            },
                        }
                    },
                    Token::Colon => {
                        proof {
                            assert(step(cur) == StepResult::Fail(self@, EvalError::UnexpectedColon));
                            assert(run(c0, (steps + 1) as nat) == run(cur, 1));
                            lemma_run_finishes(c0, steps, cur, self@, Err(EvalError::UnexpectedColon));
                        }
                        return Err(EvalError::UnexpectedColon);
                    },
                    other => {
                        self.add_to_definition(other);
                        proof {
                            let c2 = conf(self@, rest, yield_view(last));
                            assert(step(cur) == StepResult::Next(c2));
                            lemma_step_next(c0, steps, cur, c2);
                            steps = steps + 1;
                        }
                    },
                },
                Mode::Interpret => match t {
                    Token::Number(_) => {
                        self.push(t);
                        proof {
                            let c2 = conf(self@, rest, yield_view(last));
                            assert(step(cur) == StepResult::Next(c2));
                            lemma_step_next(c0, steps, cur, c2);
                            steps = steps + 1;
                        }
                    },
                    Token::Operator(kind) => match self.pop2() {
                        None => {
                            proof {
                                assert(cur.state.stack.len() < 2);
                                assert(self@ =~= (StateView { stack: Seq::empty(), ..cur.state }));
                                assert(step(cur) == StepResult::Fail(
                                    self@,
                                    EvalError::StackUnderflow,
                                ));
                                assert(run(c0, (steps + 1) as nat) == run(cur, 1));
                                lemma_run_finishes(c0, steps, cur, self@, Err(EvalError::StackUnderflow));
                            }
                            return Err(EvalError::StackUnderflow);
                        },
                        Some((t1, t2)) => {
                            let (v1, v2) = match (&t1, &t2) {
                                (Token::Number(a), Token::Number(b)) => (*a, *b),
                                _ => {
                                    proof {
                                        assert(!(t1@ is Number) || !(t2@ is Number));
                                        assert(step(cur) == StepResult::Fail(
                                            self@,
                                            EvalError::InvalidOperand,
                                        ));
                                        assert(run(c0, (steps + 1) as nat) == run(cur, 1));
                                        lemma_run_finishes(c0, steps, cur, self@, Err(EvalError::InvalidOperand));
                                    }
                                    return Err(EvalError::InvalidOperand);
                                },
                            };
                            match self.calculate(v1, v2, kind) {
                                Ok(n) => {
                                    self.push(Token::Number(n));
                                    proof {
                                        let c2 = conf(self@, rest, yield_view(last));
                                        assert(step(cur) == StepResult::Next(c2));
                                        lemma_step_next(c0, steps, cur, c2);
                                        steps = steps + 1;
                                    }
                                },
                                Err(e) => {
                                    proof {
                                        assert(step(cur) == StepResult::Fail(self@, e));
                                        assert(run(c0, (steps + 1) as nat) == run(cur, 1));
                                        lemma_run_finishes(c0, steps, cur, self@, Err(e));
                                    }
                                    return Err(e);
                                },
                            }
                        },
                    },
                    Token::Period => match self.pop() {
                        Some(tv) => {
                            last = Some(tv);
                            proof {
                                let c2 = conf(self@, rest, yield_view(last));
                                assert(step(cur) == StepResult::Next(c2));
                                lemma_step_next(c0, steps, cur, c2);
                                steps = steps + 1;
                            }
                        },
                        None => {
                            proof {
                                assert(step(cur) == StepResult::Fail(
                                    self@,
                                    EvalError::StackUnderflow,
                                ));
                                assert(run(c0, (steps + 1) as nat) == run(cur, 1));
                                lemma_run_finishes(c0, steps, cur, self@, Err(EvalError::StackUnderflow));
                            }
                            return Err(EvalError::StackUnderflow);
                        },
                    },
                    Token::Colon => {
                        self.mode = Mode::Compile;
                        proof {
                            let c2 = conf(self@, rest, yield_view(last));
                            assert(self@ =~= (StateView { mode: Mode::Compile, ..cur.state }));
                            assert(step(cur) == StepResult::Next(c2));
                            lemma_step_next(c0, steps, cur, c2);
                            steps = steps + 1;
                        }
                    },
                    Token::Semicolon => {
                        proof {
                            assert(step(cur) == StepResult::Fail(
                                self@,
                                EvalError::UnexpectedSemicolon,
                            ));
                            assert(run(c0, (steps + 1) as nat) == run(cur, 1));
                            lemma_run_finishes(c0, steps, cur, self@, Err(EvalError::UnexpectedSemicolon));
                        }
                        return Err(EvalError::UnexpectedSemicolon);
                    },
                    Token::Word(w) => match self.find_def(&w) {
                        None => {
                            proof {
                                assert(step(cur) == StepResult::Fail(self@, EvalError::NoDefinition));
                                assert(run(c0, (steps + 1) as nat) == run(cur, 1));
                                lemma_run_finishes(c0, steps, cur, self@, Err(EvalError::NoDefinition));
                            }
                            return Err(EvalError::NoDefinition);
                        },
                        Some(body) => {
                            let bl = body.len();
                            let ghost rest_seq = pending@;
                            let mut j: usize = 0;
                            while j < bl
                                invariant
                                    j <= bl,
                                    bl == body@.len(),
                                    pending@ == body@.subrange(0, j as int) + rest_seq,
                                decreases bl - j,
                            {
                                pending.insert(j, body[j].clone());
                                j += 1;
                                proof {
                                    assert(pending@ =~= body@.subrange(0, j as int) + rest_seq);
                                }
                            }
                            proof {
                                assert(pending@ =~= body@ + rest_seq);
                                assert(token_views(pending@) =~= token_views(body@) + rest);
                                let c2 = conf(self@, token_views(pending@), yield_view(last));
                                assert(cur.state.dictionary.contains_key(w@));
                                assert(token_views(pending@) == cur.state.dictionary[w@] + rest);
                                assert(step(cur) == StepResult::Next(c2));
                                lemma_step_next(c0, steps, cur, c2);
                                steps = steps + 1;
                            }
                        },
                    },
                },
            }
        }
    }
}

} // verus!

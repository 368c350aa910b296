//! The lexer: a single-pass classifier over whitespace-split substrings.

use vstd::prelude::*;

use crate::errors::{LexerError, LexerErrorView};
use crate::numeral::{int_literal_val, parse_isize, parses_as_isize};
use crate::token::{token_views, OperatorKind, Token, TokenView};

verus! {

/// Whether `c` carries the Unicode white-space property, the set a line is
/// split on.
pub open spec fn is_space(c: char) -> bool {
    c == ' ' || c == '\t' || c == '\n' || c == '\u{b}' || c == '\u{c}' || c == '\r' || c == '\u{85}'
        || c == '\u{a0}' || c == '\u{1680}' || (0x2000 <= c as u32 && c as u32 <= 0x200a) || c
        == '\u{2028}' || c == '\u{2029}' || c == '\u{202f}' || c == '\u{205f}' || c == '\u{3000}'
}

fn is_space_char(c: char) -> (r: bool)
    ensures
        r == is_space(c),
{
    let u = c as u32;
    c == ' ' || c == '\t' || c == '\n' || c == '\u{b}' || c == '\u{c}' || c == '\r' || c == '\u{85}'
        || c == '\u{a0}' || c == '\u{1680}' || (0x2000 <= u && u <= 0x200a) || c == '\u{2028}' || c
        == '\u{2029}' || c == '\u{202f}' || c == '\u{205f}' || c == '\u{3000}'
}

/// Whether `c` may appear in a word: ASCII alphanumeric.
pub open spec fn is_word_char(c: char) -> bool {
    (48 <= c as u32 && c as u32 <= 57) || (65 <= c as u32 && c as u32 <= 90) || (97 <= c as u32
        && c as u32 <= 122)
}

pub open spec fn all_word_chars(s: Seq<char>) -> bool {
    forall|i: int| 0 <= i < s.len() ==> is_word_char(s[i])
}

/// The classification of one whitespace-free substring, in priority order:
/// an integer literal that fits in `isize`, an operator, one of the control
/// symbols, a word of ASCII alphanumerics, or nothing.
pub open spec fn classify(w: Seq<char>) -> Option<TokenView> {
    if parses_as_isize(w) {
        Some(TokenView::Number(int_literal_val(w)))
    } else if w == seq!['+'] {
        Some(TokenView::Operator(OperatorKind::Add))
    } else if w == seq!['/'] {
        Some(TokenView::Operator(OperatorKind::Divide))
    } else if w == seq!['-'] {
        Some(TokenView::Operator(OperatorKind::Subtract))
    } else if w == seq!['*'] {
        Some(TokenView::Operator(OperatorKind::Multiply))
    } else if w == seq!['.'] {
        Some(TokenView::Period)
    } else if w == seq![':'] {
        Some(TokenView::Colon)
    } else if w == seq![';'] {
        Some(TokenView::Semicolon)
    } else if all_word_chars(w) {
        Some(TokenView::Word(w))
    } else {
        None
    }
}

/// The length of the whitespace-free run at the head of `s`.
pub open spec fn word_len(s: Seq<char>) -> nat
    decreases s.len(),
{
    if s.len() == 0 || is_space(s[0]) {
        0
    } else {
        (1 + word_len(s.skip(1))) as nat
    }
}

/// The tokens of a line: split on whitespace runs, classify each substring
/// in order, and stop at the first unclassifiable one, which is returned as
/// the error.
pub open spec fn spec_tokenize(s: Seq<char>) -> Result<Seq<TokenView>, Seq<char>>
    decreases s.len(),
    via spec_tokenize_decreases
{
    if s.len() == 0 {
        Ok(Seq::empty())
    } else if is_space(s[0]) {
        spec_tokenize(s.skip(1))
    } else {
        let wl = word_len(s) as int;
        let w = s.take(wl);
        match classify(w) {
            None => Err(w),
            Some(t) => match spec_tokenize(s.skip(wl)) {
                Ok(ts) => Ok(seq![t] + ts),
                Err(e) => Err(e),
            },
        }
    }
}

proof fn lemma_word_len_le(s: Seq<char>)
    ensures
        word_len(s) <= s.len(),
    decreases s.len(),
{
    if s.len() > 0 && !is_space(s[0]) {
        lemma_word_len_le(s.skip(1));
    }
}

#[via_fn]
proof fn spec_tokenize_decreases(s: Seq<char>) {
    if s.len() > 0 && !is_space(s[0]) {
        lemma_word_len_le(s);
        assert(word_len(s) == 1 + word_len(s.skip(1)));
        assert(s.skip(word_len(s) as int).len() < s.len());
    }
}

/// A run of `j` non-space characters ending at a space or at the end of
/// the text is exactly the head word.
pub proof fn lemma_word_len(s: Seq<char>, j: nat)
    requires
        j <= s.len(),
        forall|k: int| 0 <= k < j ==> !is_space(s[k]),
        j < s.len() ==> is_space(s[j as int]),
    ensures
        word_len(s) == j,
    decreases j,
{
    if j > 0 {
        assert(!is_space(s[0]));
        assert forall|k: int| 0 <= k < j - 1 implies !is_space(s.skip(1)[k]) by {
            assert(s.skip(1)[k] == s[k + 1]);
        }
        if j < s.len() {
            assert(s.skip(1)[j - 1] == s[j as int]);
        }
        lemma_word_len(s.skip(1), (j - 1) as nat);
    }
}

/// The position just past the whitespace-free run that starts at `start`.
#[verifier::loop_isolation(false)]
fn word_end(source: &str, start: usize, n: usize) -> (j: usize)
    requires
        n == source@.len(),
        start < n,
        !is_space(source@[start as int]),
    ensures
        start < j <= n,
        forall|k: int| start <= k < j ==> !is_space(source@[k]),
        j < n ==> is_space(source@[j as int]),
{
    let mut j = start + 1;
    while j < n
        invariant
            start < j <= n,
            forall|k: int| start <= k < j ==> !is_space(source@[k]),
        decreases n - j,
    {
        let c = source.get_char(j);
        if is_space_char(c) {
            return j;
        }
        j += 1;
    }
    j
}

/// The lexer. It holds no state: each call classifies one line on its own.
pub struct Lexer {}

impl Lexer {
    pub fn new() -> (r: Lexer) {
        Lexer {  }
    }

    /// Classify one whitespace-free substring.
    #[verifier::loop_isolation(false)]
    fn token(&self, source: &str) -> (r: Result<Token, LexerError>)
        ensures
            match classify(source@) {
                Some(t) => r matches Ok(tok) && tok@ == t,
                None => r matches Err(e) && e@ == LexerErrorView::InvalidToken(source@),
            },
    {
        match parse_isize(source) {
            Some(v) => {
                return Ok(Token::Number(v));
            },
            None => {},
        }
        let len = source.unicode_len();
        if len == 1 {
            let c = source.get_char(0);
            proof {
                assert(source@ =~= seq![source@[0]]);
            }
            match c {
                '+' => {
                    return Ok(Token::Operator(OperatorKind::Add));
                },
                '/' => {
                    return Ok(Token::Operator(OperatorKind::Divide));
                },
                '-' => {
                    return Ok(Token::Operator(OperatorKind::Subtract));
                },
                '*' => {
                    return Ok(Token::Operator(OperatorKind::Multiply));
                },
                '.' => {
                    return Ok(Token::Period);
                },
                ':' => {
                    return Ok(Token::Colon);
                },
                ';' => {
                    return Ok(Token::Semicolon);
                },
                _ => {},
            }
        }
        let mut i: usize = 0;
        while i < len
            invariant
                i <= len,
                forall|k: int| 0 <= k < i ==> is_word_char(source@[k]),
            decreases len - i,
        {
            let c = source.get_char(i);
            let u = c as u32;
            if !((48 <= u && u <= 57) || (65 <= u && u <= 90) || (97 <= u && u <= 122)) {
                proof {
                    assert(!is_word_char(source@[i as int]));
                    assert(!all_word_chars(source@));
                }
                return Err(LexerError::InvalidToken(String::from_str(source)));
            }
            i += 1;
        }
        proof {
            assert(all_word_chars(source@));
        }
        Ok(Token::Word(String::from_str(source)))
    }

    /// Tokenize one line of source text, or fail on the first substring
    /// that is no token.
    #[verifier::loop_isolation(false)]
    pub fn tokenize(&self, source: &str) -> (r: Result<Vec<Token>, LexerError>)
        ensures
            match spec_tokenize(source@) {
                Ok(ts) => r matches Ok(v) && token_views(v@) == ts,
                Err(w) => r matches Err(e) && e@ == LexerErrorView::InvalidToken(w),
            },
    {
        let n = source.unicode_len();
        let mut out: Vec<Token> = Vec::new();
        let mut i: usize = 0;
        proof {
            assert(source@.skip(0) =~= source@);
            assert(token_views(out@) =~= Seq::<TokenView>::empty());
            match spec_tokenize(source@) {
                Ok(ts) => {
                    assert(token_views(out@) + ts =~= ts);
                },
                Err(w) => {},
            }
        }
        while i < n
            invariant
                i <= n,
                match spec_tokenize(source@.skip(i as int)) {
                    Ok(ts) => spec_tokenize(source@) == Ok::<Seq<TokenView>, Seq<char>>(
                        token_views(out@) + ts,
                    ),
                    Err(w) => spec_tokenize(source@) == Err::<Seq<TokenView>, Seq<char>>(w),
                },
            decreases n - i,
        {
            let ghost suf = source@.skip(i as int);
            proof {
                assert(suf.len() == n - i);
                assert(suf[0] == source@[i as int]);
            }
            let c = source.get_char(i);
            if is_space_char(c) {
                proof {
                    assert(suf.skip(1) =~= source@.skip(i as int + 1));
                    assert(spec_tokenize(suf) == spec_tokenize(source@.skip(i as int + 1)));
                }
                i += 1;
            } else {
                let j = word_end(source, i, n);
                proof {
                    assert forall|k: int| 0 <= k < j - i implies !is_space(suf[k]) by {
                        assert(suf[k] == source@[i + k]);
                    }
                    if j < n {
                        assert(suf[j - i] == source@[j as int]);
                    }
                    lemma_word_len(suf, (j - i) as nat);
                }
                let w_str = source.substring_char(i, j);
                proof {
                    assert(w_str@ =~= suf.take(j - i));
                    assert(suf.skip(j - i) =~= source@.skip(j as int));
                }
                match self.token(w_str) {
                    Ok(tok) => {
                        let ghost out0 = out@;
                        out.push(tok);
                        proof {
                            let t = tok@;
                            match spec_tokenize(source@.skip(j as int)) {
                                Ok(ts2) => {
                                    assert(spec_tokenize(suf) == Ok::<Seq<TokenView>, Seq<char>>(
                                        seq![t] + ts2,
                                    ));
                                    assert(spec_tokenize(source@) == Ok::<
                                        Seq<TokenView>,
                                        Seq<char>,
                                    >(token_views(out0) + (seq![t] + ts2)));
                                    assert(token_views(out@) =~= token_views(out0) + seq![t]);
                                    assert(token_views(out0) + (seq![t] + ts2) =~= (token_views(
                                        out0,
                                    ) + seq![t]) + ts2);
                                },
                                Err(w2) => {
                                    assert(spec_tokenize(suf) == Err::<Seq<TokenView>, Seq<char>>(
                                        w2,
                                    ));
                                },
                            }
                        }
                        i = j;
                    },
                    Err(e) => {
                        proof {
                            assert(spec_tokenize(suf) == Err::<Seq<TokenView>, Seq<char>>(w_str@));
                        }
                        return Err(e);
                    },
                }
            }
        }
        proof {
            assert(source@.skip(n as int) =~= Seq::<char>::empty());
            match spec_tokenize(source@) {
                Ok(ts) => {
                    assert(token_views(out@) + Seq::<TokenView>::empty() =~= token_views(out@));
                },
                Err(w) => {},
            }
        }
        Ok(out)
    }
}

} // verus!

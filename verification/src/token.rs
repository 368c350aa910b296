//! The closed set of lexical units and their mathematical model.

use vstd::prelude::*;

use crate::numeral::{int_to_text, render_int};

verus! {

/// The kind of a binary arithmetic operator.
#[derive(PartialEq, Eq, Copy, Clone, Debug)]
pub enum OperatorKind {
    Add,
    Subtract,
    Divide,
    Multiply,
}

/// A lexical unit: an integer literal, an operator, an identifier, or one of
/// the three control symbols `:`, `;` and `.`.
#[derive(PartialEq, Eq, Debug)]
pub enum Token {
    Number(isize),
    Operator(OperatorKind),
    Word(String),
    Colon,
    Semicolon,
    Period,
}

/// The mathematical model of a [`Token`]: numbers become unbounded integers
/// and word names become character sequences.
pub enum TokenView {
    Number(int),
    Operator(OperatorKind),
    Word(Seq<char>),
    Colon,
    Semicolon,
    Period,
}

impl View for Token {
    type V = TokenView;

    open spec fn view(&self) -> TokenView {
        match self {
            Token::Number(n) => TokenView::Number(*n as int),
            Token::Operator(k) => TokenView::Operator(*k),
            Token::Word(w) => TokenView::Word(w@),
            Token::Colon => TokenView::Colon,
            Token::Semicolon => TokenView::Semicolon,
            Token::Period => TokenView::Period,
        }
    }
}

impl Clone for Token {
    fn clone(&self) -> (r: Token)
        ensures
            r == *self,
    {
        match self {
            Token::Number(n) => Token::Number(*n),
            Token::Operator(k) => Token::Operator(*k),
            Token::Word(w) => Token::Word(w.clone()),
            Token::Colon => Token::Colon,
            Token::Semicolon => Token::Semicolon,
            Token::Period => Token::Period,
        }
    }
}

/// The models of a sequence of tokens.
pub open spec fn token_views(ts: Seq<Token>) -> Seq<TokenView> {
    ts.map_values(|t: Token| t@)
}

/// The symbol of an operator.
pub open spec fn op_symbol(k: OperatorKind) -> char {
    match k {
        OperatorKind::Add => '+',
        OperatorKind::Subtract => '-',
        OperatorKind::Divide => '/',
        OperatorKind::Multiply => '*',
    }
}

/// The textual rendering of a token: a number in decimal, an operator or a
/// control symbol as its character, a word as its text.
pub open spec fn spec_render(t: TokenView) -> Seq<char> {
    match t {
        TokenView::Number(v) => int_to_text(v),
        TokenView::Operator(k) => seq![op_symbol(k)],
        TokenView::Word(w) => w,
        TokenView::Colon => seq![':'],
        TokenView::Semicolon => seq![';'],
        TokenView::Period => seq!['.'],
    }
}

impl OperatorKind {
    /// The operator's symbol.
    pub fn symbol(&self) -> (r: &'static str)
        ensures
            r@ == seq![op_symbol(*self)],
    {
        proof {
            reveal_strlit("+");
            reveal_strlit("-");
            reveal_strlit("/");
            reveal_strlit("*");
        }
        let r = match self {
            OperatorKind::Add => "+",
            OperatorKind::Subtract => "-",
            OperatorKind::Divide => "/",
            OperatorKind::Multiply => "*",
        };
        proof {
            assert(r@ =~= seq![op_symbol(*self)]);
        }
        r
    }
}

impl Token {
    /// The textual rendering of the token.
    pub fn render(&self) -> (r: String)
        ensures
            r@ == spec_render(self@),
    {
        match self {
            Token::Number(v) => render_int(*v),
            Token::Operator(k) => {
                let s = String::from_str(k.symbol());
                s
            },
            Token::Word(w) => w.clone(),
            Token::Colon => {
                proof {
                    reveal_strlit(":");
                }
                let s = String::from_str(":");
                proof {
                    assert(s@ =~= seq![':']);
                }
                s
            },
            Token::Semicolon => {
                proof {
                    reveal_strlit(";");
                }
                let s = String::from_str(";");
                proof {
                    assert(s@ =~= seq![';']);
                }
                s
            },
            Token::Period => {
                proof {
                    reveal_strlit(".");
                }
                let s = String::from_str(".");
                proof {
                    assert(s@ =~= seq!['.']);
                }
                s
            },
        }
    }
}

} // verus!

//! The token vocabulary of the rule language.

use vstd::prelude::*;
use vstd::std_specs::cmp::PartialEqSpecImpl;

verus! {

/// A punctuation mark of the rule language.
#[derive(Debug, Clone, Copy)]
pub enum Symbol {
    LeftCurly,
    RightCurly,
    Comma,
    Colon,
    Arrow,
    SemiColon,
}

impl PartialEq for Symbol {
    fn eq(&self, other: &Self) -> (r: bool) {
        match (self, other) {
            (Symbol::LeftCurly, Symbol::LeftCurly) => true,
            (Symbol::RightCurly, Symbol::RightCurly) => true,
            (Symbol::Comma, Symbol::Comma) => true,
            (Symbol::Colon, Symbol::Colon) => true,
            (Symbol::Arrow, Symbol::Arrow) => true,
            (Symbol::SemiColon, Symbol::SemiColon) => true,
            _ => false,
        }
    }
}

impl PartialEqSpecImpl for Symbol {
    open spec fn obeys_eq_spec() -> bool {
        true
    }

    open spec fn eq_spec(&self, other: &Self) -> bool {
        *self == *other
    }
}

impl Eq for Symbol {}

/// A token of the rule language, as the lexer's contracts speak of it.
pub enum Token {
    Identifier(Seq<char>),
    Symbol(Symbol),
    Text(Seq<char>),
    Space,
}

/// A classified lexical unit of the rule language.
#[derive(Debug, Clone)]
pub enum TokenKind {
    /// A maximal run of alphanumeric characters.
    Identifier(String),
    /// A punctuation mark.
    Symbol(Symbol),
    /// The characters between two single quotes.
    String(String),
    /// A maximal run of whitespace.
    Space,
}

impl View for TokenKind {
    type V = Token;

    open spec fn view(&self) -> Token {
        match self {
            TokenKind::Identifier(s) => Token::Identifier(s@),
            TokenKind::Symbol(s) => Token::Symbol(*s),
            TokenKind::String(s) => Token::Text(s@),
            TokenKind::Space => Token::Space,
        }
    }
}

impl TokenKind {
    /// A token equal to this one.
    pub fn duplicate(&self) -> (copy: TokenKind)
        ensures
            copy@ == self@,
    {
        match self {
            TokenKind::Identifier(s) => TokenKind::Identifier(s.clone()),
            TokenKind::Symbol(s) => TokenKind::Symbol(*s),
            TokenKind::String(s) => TokenKind::String(s.clone()),
            TokenKind::Space => TokenKind::Space,
        }
    }
}

impl DeepView for TokenKind {
    type V = Token;

    open spec fn deep_view(&self) -> Token {
        self@
    }
}

impl PartialEq for TokenKind {
    fn eq(&self, other: &Self) -> (r: bool) {
        match (self, other) {
            (TokenKind::Identifier(s1), TokenKind::Identifier(s2)) => *s1 == *s2,
            (TokenKind::Symbol(s1), TokenKind::Symbol(s2)) => *s1 == *s2,
            (TokenKind::String(s1), TokenKind::String(s2)) => *s1 == *s2,
            (TokenKind::Space, TokenKind::Space) => true,
            _ => false,
        }
    }
}

impl PartialEqSpecImpl for TokenKind {
    open spec fn obeys_eq_spec() -> bool {
        true
    }

    open spec fn eq_spec(&self, other: &Self) -> bool {
        self@ == other@
    }
}

impl Eq for TokenKind {}

} // verus!

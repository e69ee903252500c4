//! The lexer: from source text to a flat sequence of tokens.
//!
//! Lexing is done in two steps. [`scan`](crate::chars::scan) pairs each
//! character with its class, and [`tokenize_classified`] groups the classified
//! characters into tokens. [`tokenize`] does both.

use vstd::prelude::*;
use crate::chars::{classified, scan, CharClass};
use crate::token::{Symbol, Token, TokenKind};

verus! {

/// Why a source text is not a sequence of tokens.
#[derive(Debug, Clone, Copy, PartialEq, Eq, Structural)]
pub enum LexError {
    /// No token starts with this character.
    UnexpectedChar(char),
    /// A quoted string is still open at the end of the input.
    UnterminatedString,
    /// An `=` is followed by something other than `>`.
    MalformedArrow,
    /// The input ends right after an `=`.
    UnexpectedEndOfInput,
}

/// Where the run of characters of class `class` that covers `from` ends:
/// the first position at or after `from` whose character is of another
/// class, or the end of the input.
pub open spec fn run_end(input: Seq<(char, CharClass)>, class: CharClass, from: int) -> int
    decreases input.len() - from,
{
    if 0 <= from < input.len() && input[from].1 == class {
        run_end(input, class, from + 1)
    } else {
        from
    }
}

/// The first position at or after `from` that holds a quote, or the end of
/// the input.
pub open spec fn next_quote(input: Seq<(char, CharClass)>, from: int) -> int
    decreases input.len() - from,
{
    if 0 <= from < input.len() && input[from].1 != CharClass::Quote {
        next_quote(input, from + 1)
    } else {
        from
    }
}

/// The characters of `input` from `from` up to, not including, `to`.
pub open spec fn text_between(input: Seq<(char, CharClass)>, from: int, to: int) -> Seq<char> {
    Seq::new((to - from) as nat, |k: int| input[from + k].0)
}

/// The tokens `done` followed by what lexing the rest gave; an error in the
/// rest is the error of the whole.
pub open spec fn prefixed(done: Seq<Token>, rest: Result<Seq<Token>, LexError>) -> Result<
    Seq<Token>,
    LexError,
> {
    match rest {
        Ok(tokens) => Ok(done + tokens),
        Err(e) => Err(e),
    }
}

/// The tokens of `input` from position `from` on, or the first error met.
pub open spec fn lex_from(input: Seq<(char, CharClass)>, from: int) -> Result<Seq<Token>, LexError>
    decreases input.len() - from,
{
    if from < 0 || from >= input.len() {
        Ok(Seq::empty())
    } else {
        match input[from].1 {
            CharClass::Alphanumeric => {
                let end = run_end(input, CharClass::Alphanumeric, from + 1);
                proof {
                    lemma_run_end_bounds(input, CharClass::Alphanumeric, from + 1);
                }
                prefixed(seq![Token::Identifier(text_between(input, from, end))], lex_from(input, end))
            },
            CharClass::LeftCurly => prefixed(
                seq![Token::Symbol(Symbol::LeftCurly)],
                lex_from(input, from + 1),
            ),
            CharClass::RightCurly => prefixed(
                seq![Token::Symbol(Symbol::RightCurly)],
                lex_from(input, from + 1),
            ),
            CharClass::Comma => prefixed(
                seq![Token::Symbol(Symbol::Comma)],
                lex_from(input, from + 1),
            ),
            CharClass::Colon => prefixed(
                seq![Token::Symbol(Symbol::Colon)],
                lex_from(input, from + 1),
            ),
            CharClass::SemiColon => prefixed(
                seq![Token::Symbol(Symbol::SemiColon)],
                lex_from(input, from + 1),
            ),
            CharClass::Equals => {
                if from + 1 >= input.len() {
                    Err(LexError::UnexpectedEndOfInput)
                } else if input[from + 1].1 == CharClass::Greater {
                    prefixed(seq![Token::Symbol(Symbol::Arrow)], lex_from(input, from + 2))
                } else {
                    Err(LexError::MalformedArrow)
                }
            },
            CharClass::Whitespace => {
                let end = run_end(input, CharClass::Whitespace, from + 1);
                proof {
                    lemma_run_end_bounds(input, CharClass::Whitespace, from + 1);
                }
                prefixed(seq![Token::Space], lex_from(input, end))
            },
            CharClass::Quote => {
                let close = next_quote(input, from + 1);
                proof {
                    lemma_next_quote_bounds(input, from + 1);
                }
                if close >= input.len() {
                    Err(LexError::UnterminatedString)
                } else {
                    prefixed(
                        seq![Token::Text(text_between(input, from + 1, close))],
                        lex_from(input, close + 1),
                    )
                }
            },
            CharClass::Greater | CharClass::Other => Err(LexError::UnexpectedChar(input[from].0)),
        }
    }
}

/// The tokens of a whole classified text, or the first error met.
pub open spec fn lex(input: Seq<(char, CharClass)>) -> Result<Seq<Token>, LexError> {
    lex_from(input, 0)
}

/// The tokens of a source text, or the first error met.
pub open spec fn lex_text(text: Seq<char>) -> Result<Seq<Token>, LexError> {
    lex(classified(text))
}

/// A run ends at or after its start and within the input; up to its end every
/// character is of the run's class, and the character at its end is not.
pub proof fn lemma_run_end_bounds(input: Seq<(char, CharClass)>, class: CharClass, from: int)
    requires
        0 <= from <= input.len(),
    ensures
        from <= run_end(input, class, from) <= input.len(),
        forall|k: int| from <= k < run_end(input, class, from) ==> (#[trigger] input[k]).1 == class,
        run_end(input, class, from) < input.len() ==> input[run_end(input, class, from)].1 != class,
    decreases input.len() - from,
{
    if from < input.len() && input[from].1 == class {
        lemma_run_end_bounds(input, class, from + 1);
    }
}

/// The next quote is at or after the start of the search and within the
/// input; no character before it is a quote, and the character at it is one.
pub proof fn lemma_next_quote_bounds(input: Seq<(char, CharClass)>, from: int)
    requires
        0 <= from <= input.len(),
    ensures
        from <= next_quote(input, from) <= input.len(),
        forall|k: int|
            from <= k < next_quote(input, from) ==> (#[trigger] input[k]).1 != CharClass::Quote,
        next_quote(input, from) < input.len() ==> input[next_quote(input, from)].1
            == CharClass::Quote,
    decreases input.len() - from,
{
    if from < input.len() && input[from].1 != CharClass::Quote {
        lemma_next_quote_bounds(input, from + 1);
    }
}

proof fn lemma_prefixed_push(done: Seq<Token>, token: Token, rest: Result<Seq<Token>, LexError>)
    ensures
        prefixed(done, prefixed(seq![token], rest)) == prefixed(done.push(token), rest),
{
    if let Ok(tokens) = rest {
        assert(done + (seq![token] + tokens) =~= done.push(token) + tokens);
    }
}

/// Groups classified characters into tokens, left to right.
///
/// Letters and digits form identifiers and blanks form spaces, each as long
/// as the run goes; a quote opens a string that the next quote closes;
/// `=` must be followed by `>`. The first character that fits nowhere
/// stops the lexer with an error.
pub fn tokenize_classified(input: &Vec<(char, CharClass)>) -> (result: Result<
    Vec<TokenKind>,
    LexError,
>)
    ensures
        match result {
            Ok(tokens) => lex(input@) == Ok::<Seq<Token>, LexError>(tokens.deep_view()),
            Err(e) => lex(input@) == Err::<Seq<Token>, LexError>(e),
        },
{
    let n = input.len();
    let mut tokens: Vec<TokenKind> = Vec::new();
    let mut i: usize = 0;
    proof {
        assert(tokens.deep_view() =~= Seq::<Token>::empty());
        lemma_prefixed_empty(lex_from(input@, 0));
    }
    while i < n
        invariant
            n == input@.len(),
            i <= n,
            lex(input@) == prefixed(tokens.deep_view(), lex_from(input@, i as int)),
        decreases n - i,
    {
        let ghost done = tokens.deep_view();
        let ghost start = i as int;
        let (c, class) = input[i];
        let token = match class {
            CharClass::Alphanumeric => {
                let mut text = String::new();
                text.push(c);
                i += 1;
                proof {
                    assert(text@ =~= text_between(input@, start, i as int));
                }
                while i < n && input[i].1 == CharClass::Alphanumeric
                    invariant
                        n == input@.len(),
                        start < i <= n,
                        text@ == text_between(input@, start, i as int),
                        run_end(input@, CharClass::Alphanumeric, i as int) == run_end(
                            input@,
                            CharClass::Alphanumeric,
                            start + 1,
                        ),
                    decreases n - i,
                {
                    text.push(input[i].0);
                    i += 1;
                    proof {
                        assert(text@ =~= text_between(input@, start, i as int));
                    }
                }
                TokenKind::Identifier(text)
            },
            CharClass::LeftCurly => {
                i += 1;
                TokenKind::Symbol(Symbol::LeftCurly)
            },
            CharClass::RightCurly => {
                i += 1;
                TokenKind::Symbol(Symbol::RightCurly)
            },
            CharClass::Comma => {
                i += 1;
                TokenKind::Symbol(Symbol::Comma)
            },
            CharClass::Colon => {
                i += 1;
                TokenKind::Symbol(Symbol::Colon)
            },
            CharClass::SemiColon => {
                i += 1;
                TokenKind::Symbol(Symbol::SemiColon)
            },
            CharClass::Equals => {
                if i + 1 >= n {
                    return Err(LexError::UnexpectedEndOfInput);
                }
                if input[i + 1].1 != CharClass::Greater {
                    return Err(LexError::MalformedArrow);
                }
                i += 2;
                TokenKind::Symbol(Symbol::Arrow)
            },
            CharClass::Whitespace => {
                i += 1;
                while i < n && input[i].1 == CharClass::Whitespace
                    invariant
                        n == input@.len(),
                        start < i <= n,
                        run_end(input@, CharClass::Whitespace, i as int) == run_end(
                            input@,
                            CharClass::Whitespace,
                            start + 1,
                        ),
                    decreases n - i,
                {
                    i += 1;
                }
                TokenKind::Space
            },
            CharClass::Quote => {
                let mut text = String::new();
                i += 1;
                proof {
                    assert(text@ =~= text_between(input@, start + 1, i as int));
                }
                while i < n && input[i].1 != CharClass::Quote
                    invariant
                        n == input@.len(),
                        start < i <= n,
                        text@ == text_between(input@, start + 1, i as int),
                        next_quote(input@, i as int) == next_quote(input@, start + 1),
                    decreases n - i,
                {
                    text.push(input[i].0);
                    i += 1;
                    proof {
                        assert(text@ =~= text_between(input@, start + 1, i as int));
                    }
                }
                if i >= n {
                    return Err(LexError::UnterminatedString);
                }
                i += 1;
                TokenKind::String(text)
            },
            CharClass::Greater | CharClass::Other => {
                return Err(LexError::UnexpectedChar(c));
            },
        };
        let ghost added = token@;
        tokens.push(token);
        proof {
            lemma_prefixed_push(done, added, lex_from(input@, i as int));
            assert(tokens.deep_view() =~= done.push(added));
        }
    }
    proof {
        assert(tokens.deep_view() + Seq::<Token>::empty() =~= tokens.deep_view());
    }
    Ok(tokens)
}

proof fn lemma_prefixed_empty(rest: Result<Seq<Token>, LexError>)
    ensures
        prefixed(Seq::empty(), rest) == rest,
{
    if let Ok(tokens) = rest {
        assert(Seq::<Token>::empty() + tokens =~= tokens);
    }
}

/// Turns source text into its tokens, in source order, blanks included.
pub fn tokenize(data: &str) -> (result: Result<Vec<TokenKind>, LexError>)
    ensures
        match result {
            Ok(tokens) => lex_text(data@) == Ok::<Seq<Token>, LexError>(tokens.deep_view()),
            Err(e) => lex_text(data@) == Err::<Seq<Token>, LexError>(e),
        },
{
    let input = scan(data);
    tokenize_classified(&input)
}

} // verus!

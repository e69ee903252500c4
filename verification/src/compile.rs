//! From source text to a rule tree in one call.

use vstd::prelude::*;
use crate::defaults::{default_rules, default_ruleset};
use crate::lexer::{lex_text, tokenize, LexError};
use crate::parser::{parse, parse_tokens, ParseError, ParseFailure};
use crate::rules::{Rule, RuleModel};

verus! {

/// Why a source text is not a rule set.
#[derive(Debug, PartialEq, Eq)]
pub enum CompileError {
    /// The text is not a sequence of tokens.
    Lex(LexError),
    /// The tokens are not a rule set.
    Parse(ParseError),
}

/// A compile error as the contracts speak of it.
pub enum CompileFailure {
    Lex(LexError),
    Parse(ParseFailure),
}

impl View for CompileError {
    type V = CompileFailure;

    open spec fn view(&self) -> CompileFailure {
        match self {
            CompileError::Lex(e) => CompileFailure::Lex(*e),
            CompileError::Parse(e) => CompileFailure::Parse(e@),
        }
    }
}

/// The rule tree that a source text describes, or the first error in it: an
/// error of the lexer where the text is not a sequence of tokens, else an
/// error of the parser.
pub open spec fn compile_text(text: Seq<char>) -> Result<RuleModel, CompileFailure> {
    match lex_text(text) {
        Ok(tokens) => match parse_tokens(tokens) {
            Ok(root) => Ok(root),
            Err(e) => Err(CompileFailure::Parse(e)),
        },
        Err(e) => Err(CompileFailure::Lex(e)),
    }
}

/// Compiles a source text into its rule tree. No tree is built from a text
/// with an error in it.
pub fn compile(source: &str) -> (result: Result<Rule, CompileError>)
    ensures
        match result {
            Ok(root) => compile_text(source@) == Ok::<RuleModel, CompileFailure>(root@),
            Err(e) => compile_text(source@) == Err::<RuleModel, CompileFailure>(e@),
        },
{
    match tokenize(source) {
        Ok(tokens) => match parse(&tokens) {
            Ok(root) => Ok(root),
            Err(e) => Err(CompileError::Parse(e)),
        },
        Err(e) => Err(CompileError::Lex(e)),
    }
}

/// The rule set of a run: the built-in one where no source is given, else
/// what the source compiles to. A source with an error in it gives the
/// error, never the built-in rule set.
pub fn rules_for(source: Option<&str>) -> (result: Result<Rule, CompileError>)
    ensures
        match result {
            Ok(root) => match source {
                Some(text) => compile_text(text@) == Ok::<RuleModel, CompileFailure>(root@),
                None => root@ == default_rules(),
            },
            Err(e) => source is Some && compile_text(source->Some_0@) == Err::<
                RuleModel,
                CompileFailure,
            >(e@),
        },
{
    match source {
        Some(text) => compile(text),
        None => Ok(default_ruleset()),
    }
}

} // verus!

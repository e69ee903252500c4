//! The parser: from tokens to a rule tree.
//!
//! The grammar, with blanks allowed between any two tokens:
//!
//! ```text
//! source   := ruleset*
//! ruleset  := Identifier '{' ruleDecl* '}'
//! ruleDecl := idList '=>' QuotedString ( ';' | '{' ruleset* '}' )
//!           | ruleset
//! idList   := Identifier ( ',' Identifier )*
//! ```
//!
//! A declaration `keys => 'dir'` in a block labelled `L` becomes a rule with
//! the strategy of `L`; the rule sets in braces behind it become its
//! sub-rules. A block written directly in a block subdivides what the outer
//! block declares: its rules are added to the sub-rules of every rule that
//! the outer block declares. A block that declares nothing becomes one rule
//! without keys, which holds the rules of the blocks written in it. The
//! rules of a top-level block are appended, in order, to the rules of the
//! root. Within one block no key may be claimed twice. What follows the
//! last top-level rule set is ignored.
//!
//! The parser reads the tokens one by one; what it has read so far is a
//! [`ParserModel`]: a mode, which says what may come next, and a stack with
//! one frame for every brace that is still open.

use vstd::prelude::*;
use crate::rules::{
    append_rules, duplicate_rules, lemma_sub_rules_view, no_rules, push_rule, root_of,
    strategy_of, Rule, RuleModel, RuleStrategy,
};
use crate::text::{contains_text, empty_text, no_texts, push_text};
use crate::token::{Symbol, Token, TokenKind};

verus! {

/// A kind of token, as an error message names it.
#[derive(Debug, Clone, Copy, PartialEq, Eq)]
pub enum TokenClass {
    Identifier,
    Symbol(Symbol),
    QuotedString,
}

/// Why a sequence of tokens is not a rule set.
#[derive(Debug, PartialEq, Eq)]
pub enum ParseError {
    /// Another token was required here; `found` is `None` at the end of the
    /// input.
    UnexpectedToken { expected: TokenClass, found: Option<TokenKind> },
    /// The input ends inside a block.
    MissingClosingBrace,
    /// A declaration is followed neither by `;` nor by a block.
    MissingSemicolon,
    /// The key is claimed twice within one block.
    DuplicateKey(String),
    /// The label of a block names no strategy.
    UnknownStrategy(String),
}

/// A parse error as the contracts speak of it.
pub enum ParseFailure {
    UnexpectedToken { expected: TokenClass, found: Option<Token> },
    MissingClosingBrace,
    MissingSemicolon,
    DuplicateKey(Seq<char>),
    UnknownStrategy(Seq<char>),
}

impl View for ParseError {
    type V = ParseFailure;

    open spec fn view(&self) -> ParseFailure {
        match self {
            ParseError::UnexpectedToken { expected, found } => ParseFailure::UnexpectedToken {
                expected: *expected,
                found: match found {
                    Some(token) => Some(token@),
                    None => None,
                },
            },
            ParseError::MissingClosingBrace => ParseFailure::MissingClosingBrace,
            ParseError::MissingSemicolon => ParseFailure::MissingSemicolon,
            ParseError::DuplicateKey(key) => ParseFailure::DuplicateKey(key@),
            ParseError::UnknownStrategy(label) => ParseFailure::UnknownStrategy(label@),
        }
    }
}

/// What the parser expects next.
#[derive(Debug, Clone, Copy, PartialEq, Eq, Structural)]
pub enum Mode {
    /// A block label, or the end of what encloses the rule sets.
    Rulesets,
    /// The `{` that opens the block whose label was just read.
    AfterLabel,
    /// A declaration, or the `}` that closes the block.
    Decls,
    /// What tells whether the identifier just read is a label (`{`) or a key
    /// (`,` or `=>`).
    AfterName,
    /// The next key of a key list.
    AfterComma,
    /// `,` or `=>` behind a key.
    AfterKey,
    /// The quoted directory name.
    AfterArrow,
    /// `;`, or the `{` that opens the sub-rules.
    AfterDir,
    /// Nothing: the rule sets are over and the rest is ignored.
    Done,
}

/// What a frame of the parser's stack stands for.
#[derive(Debug, Clone, Copy, PartialEq, Eq, Structural)]
pub enum FrameKind {
    /// The whole source.
    Top,
    /// A block `label { .. }`.
    Block,
    /// The braces behind a declaration, which hold its sub-rules.
    Body,
}

/// One open brace of the source, with what was read inside it so far.
pub struct FrameModel {
    pub kind: FrameKind,
    /// The label of a block.
    pub label: Seq<char>,
    /// The strategy of a block.
    pub strategy: RuleStrategy,
    /// The keys that the declarations of a block have claimed.
    pub seen: Seq<Seq<char>>,
    /// The keys of the declaration that is being read.
    pub keys: Seq<Seq<char>>,
    /// The directory of the declaration that is being read.
    pub dir: Seq<char>,
    /// The rules that are complete: those that a block has declared, or
    /// those that the braces behind a declaration, or the source, hold.
    pub rules: Seq<RuleModel>,
    /// The rules of the blocks written directly in a block.
    pub nested: Seq<RuleModel>,
}

/// The state of the parser between two tokens.
pub struct ParserModel {
    pub mode: Mode,
    /// The identifier read last, where the mode is `AfterLabel` or
    /// `AfterName`.
    pub name: Seq<char>,
    /// The open braces, the outermost first; the first frame is the source
    /// itself.
    pub stack: Seq<FrameModel>,
}

/// A frame with nothing read in it.
pub open spec fn empty_frame(kind: FrameKind, label: Seq<char>, strategy: RuleStrategy) -> FrameModel {
    FrameModel {
        kind,
        label,
        strategy,
        seen: Seq::empty(),
        keys: Seq::empty(),
        dir: Seq::empty(),
        rules: Seq::empty(),
        nested: Seq::empty(),
    }
}

/// The state before the first token.
pub open spec fn initial() -> ParserModel {
    ParserModel {
        mode: Mode::Rulesets,
        name: Seq::empty(),
        stack: seq![empty_frame(FrameKind::Top, Seq::empty(), RuleStrategy::ByExt)],
    }
}

/// The rule that the declaration read in `block` makes, with `sub_rules`
/// below it.
pub open spec fn declared_rule(block: FrameModel, sub_rules: Seq<RuleModel>) -> RuleModel {
    RuleModel {
        src: block.label,
        dir_name: block.dir,
        strategy: block.strategy,
        match_keys: block.keys,
        sub_rules,
    }
}

/// `block` after its declaration is complete.
pub open spec fn with_declared(block: FrameModel, sub_rules: Seq<RuleModel>) -> FrameModel {
    FrameModel {
        keys: Seq::empty(),
        dir: Seq::empty(),
        rules: block.rules.push(declared_rule(block, sub_rules)),
        ..block
    }
}

/// `rule` with `more` behind its sub-rules.
pub open spec fn with_more(rule: RuleModel, more: Seq<RuleModel>) -> RuleModel {
    RuleModel { sub_rules: rule.sub_rules + more, ..rule }
}

/// Every rule of `rules` with `more` behind its sub-rules.
pub open spec fn each_with_more(rules: Seq<RuleModel>, more: Seq<RuleModel>) -> Seq<RuleModel> {
    Seq::new(rules.len(), |i: int| with_more(rules[i], more))
}

/// The rule that a block without declarations makes: it has the block's
/// label and strategy, no key and no directory, and holds the rules of the
/// blocks written in it.
pub open spec fn bare_rule(block: FrameModel) -> RuleModel {
    RuleModel {
        src: block.label,
        dir_name: Seq::empty(),
        strategy: block.strategy,
        match_keys: Seq::empty(),
        sub_rules: block.nested,
    }
}

/// The rules that a block makes when it closes: the rules that it has
/// declared, each with the rules of the blocks written directly in it behind
/// its own sub-rules; or, where it has declared nothing, the one rule
/// without keys.
pub open spec fn block_rules(block: FrameModel) -> Seq<RuleModel> {
    if block.rules.len() == 0 {
        seq![bare_rule(block)]
    } else {
        each_with_more(block.rules, block.nested)
    }
}

/// The frame around a block after the block has closed and made `made`: in
/// a block they count as written directly in it, elsewhere they are added
/// to the rules.
pub open spec fn with_made(parent: FrameModel, made: Seq<RuleModel>) -> FrameModel {
    if parent.kind == FrameKind::Block {
        FrameModel { nested: parent.nested + made, ..parent }
    } else {
        FrameModel { rules: parent.rules + made, ..parent }
    }
}

/// The frames can be the parser's stack: the first stands for the source
/// and no other does, and sub-rules are only open inside a block.
pub open spec fn nested(stack: Seq<FrameModel>) -> bool {
    &&& stack.len() >= 1
    &&& stack[0].kind == FrameKind::Top
    &&& forall|i: int| 1 <= i < stack.len() ==> #[trigger] inner(stack, i)
}

/// The frame at `i` can stand where it does: it is not the source, and if it
/// holds sub-rules then the frame around it is a block.
pub open spec fn inner(stack: Seq<FrameModel>, i: int) -> bool {
    &&& stack[i].kind != FrameKind::Top
    &&& stack[i].kind == FrameKind::Body ==> stack[i - 1].kind == FrameKind::Block
}

impl ParserModel {
    /// The innermost open frame.
    pub open spec fn top(self) -> FrameModel {
        self.stack.last()
    }

    /// The state is one that the parser can be in: the stack is nested as
    /// braces are, and the mode fits the innermost frame.
    pub open spec fn wf(self) -> bool {
        &&& nested(self.stack)
        &&& match self.mode {
            Mode::Rulesets | Mode::AfterLabel => self.top().kind != FrameKind::Block,
            Mode::Done => self.stack.len() == 1,
            _ => self.top().kind == FrameKind::Block,
        }
    }

    /// The same state in another mode.
    pub open spec fn goto(self, mode: Mode) -> ParserModel {
        ParserModel { mode, ..self }
    }

    /// The state with the innermost frame replaced.
    pub open spec fn replace_top(self, frame: FrameModel, mode: Mode) -> ParserModel {
        ParserModel { mode, name: self.name, stack: self.stack.drop_last().push(frame) }
    }

    /// Opens the block whose label is the identifier read last.
    pub open spec fn open_block(self) -> Result<ParserModel, ParseFailure> {
        match strategy_of(self.name) {
            Some(strategy) => Ok(
                ParserModel {
                    mode: Mode::Decls,
                    name: Seq::empty(),
                    stack: self.stack.push(empty_frame(FrameKind::Block, self.name, strategy)),
                },
            ),
            None => Err(ParseFailure::UnknownStrategy(self.name)),
        }
    }

    /// Adds `key` to the declaration that is being read, unless the block
    /// has it already.
    pub open spec fn claim_key(self, key: Seq<char>, mode: Mode) -> Result<
        ParserModel,
        ParseFailure,
    > {
        let top = self.top();
        if top.seen.contains(key) {
            Err(ParseFailure::DuplicateKey(key))
        } else {
            Ok(
                ParserModel {
                    mode,
                    name: Seq::empty(),
                    stack: self.stack.drop_last().push(
                        FrameModel { seen: top.seen.push(key), keys: top.keys.push(key), ..top },
                    ),
                },
            )
        }
    }

    /// Opens the braces that hold the sub-rules of the declaration that is
    /// being read.
    pub open spec fn open_body(self) -> ParserModel {
        ParserModel {
            mode: Mode::Rulesets,
            name: self.name,
            stack: self.stack.push(
                empty_frame(FrameKind::Body, Seq::empty(), RuleStrategy::ByExt),
            ),
        }
    }

    /// Closes the braces that hold sub-rules: the declaration in the block
    /// around them is complete.
    pub open spec fn close_body(self) -> ParserModel {
        let body = self.stack.last();
        let block = self.stack[self.stack.len() - 2];
        ParserModel {
            mode: Mode::Decls,
            name: self.name,
            stack: self.stack.drop_last().drop_last().push(with_declared(block, body.rules)),
        }
    }

    /// Closes a block: the rules that it makes go to what encloses it.
    pub open spec fn close_block(self) -> ParserModel {
        let block = self.stack.last();
        let parent = self.stack[self.stack.len() - 2];
        ParserModel {
            mode: if parent.kind == FrameKind::Block {
                Mode::Decls
            } else {
                Mode::Rulesets
            },
            name: self.name,
            stack: self.stack.drop_last().drop_last().push(
                with_made(parent, block_rules(block)),
            ),
        }
    }

    /// The state after one more token, or the error that the token is.
    pub open spec fn step(self, token: Token) -> Result<ParserModel, ParseFailure> {
        if token == Token::Space {
            Ok(self)
        } else {
            match self.mode {
                Mode::Rulesets => {
                    if let Token::Identifier(label) = token {
                        Ok(ParserModel { mode: Mode::AfterLabel, name: label, stack: self.stack })
                    } else if self.top().kind == FrameKind::Top {
                        Ok(self.goto(Mode::Done))
                    } else if token == Token::Symbol(Symbol::RightCurly) {
                        Ok(self.close_body())
                    } else {
                        Err(
                            ParseFailure::UnexpectedToken {
                                expected: TokenClass::Identifier,
                                found: Some(token),
                            },
                        )
                    }
                },
                Mode::AfterLabel => {
                    if token == Token::Symbol(Symbol::LeftCurly) {
                        self.open_block()
                    } else {
                        Err(
                            ParseFailure::UnexpectedToken {
                                expected: TokenClass::Symbol(Symbol::LeftCurly),
                                found: Some(token),
                            },
                        )
                    }
                },
                Mode::Decls => {
                    if let Token::Identifier(name) = token {
                        Ok(ParserModel { mode: Mode::AfterName, name, stack: self.stack })
                    } else if token == Token::Symbol(Symbol::RightCurly) {
                        Ok(self.close_block())
                    } else {
                        Err(
                            ParseFailure::UnexpectedToken {
                                expected: TokenClass::Identifier,
                                found: Some(token),
                            },
                        )
                    }
                },
                Mode::AfterName => {
                    if token == Token::Symbol(Symbol::LeftCurly) {
                        self.open_block()
                    } else if token == Token::Symbol(Symbol::Comma) {
                        self.claim_key(self.name, Mode::AfterComma)
                    } else if token == Token::Symbol(Symbol::Arrow) {
                        self.claim_key(self.name, Mode::AfterArrow)
                    } else {
                        Err(
                            ParseFailure::UnexpectedToken {
                                expected: TokenClass::Symbol(Symbol::Arrow),
                                found: Some(token),
                            },
                        )
                    }
                },
                Mode::AfterComma => {
                    if let Token::Identifier(key) = token {
                        self.claim_key(key, Mode::AfterKey)
                    } else {
                        Err(
                            ParseFailure::UnexpectedToken {
                                expected: TokenClass::Identifier,
                                found: Some(token),
                            },
                        )
                    }
                },
                Mode::AfterKey => {
                    if token == Token::Symbol(Symbol::Comma) {
                        Ok(self.goto(Mode::AfterComma))
                    } else if token == Token::Symbol(Symbol::Arrow) {
                        Ok(self.goto(Mode::AfterArrow))
                    } else {
                        Err(
                            ParseFailure::UnexpectedToken {
                                expected: TokenClass::Symbol(Symbol::Arrow),
                                found: Some(token),
                            },
                        )
                    }
                },
                Mode::AfterArrow => {
                    if let Token::Text(dir) = token {
                        Ok(self.replace_top(FrameModel { dir, ..self.top() }, Mode::AfterDir))
                    } else {
                        Err(
                            ParseFailure::UnexpectedToken {
                                expected: TokenClass::QuotedString,
                                found: Some(token),
                            },
                        )
                    }
                },
                Mode::AfterDir => {
                    if token == Token::Symbol(Symbol::SemiColon) {
                        Ok(self.replace_top(with_declared(self.top(), Seq::empty()), Mode::Decls))
                    } else if token == Token::Symbol(Symbol::LeftCurly) {
                        Ok(self.open_body())
                    } else {
                        Err(ParseFailure::MissingSemicolon)
                    }
                },
                Mode::Done => Ok(self),
            }
        }
    }

    /// What the parser returns when the tokens end in this state.
    pub open spec fn finish(self) -> Result<RuleModel, ParseFailure> {
        match self.mode {
            Mode::Rulesets => {
                if self.top().kind == FrameKind::Top {
                    Ok(root_of(self.top().rules))
                } else {
                    Err(ParseFailure::MissingClosingBrace)
                }
            },
            Mode::Done => Ok(root_of(self.top().rules)),
            Mode::AfterLabel => Err(
                ParseFailure::UnexpectedToken {
                    expected: TokenClass::Symbol(Symbol::LeftCurly),
                    found: None,
                },
            ),
            Mode::Decls => Err(ParseFailure::MissingClosingBrace),
            Mode::AfterName | Mode::AfterKey => Err(
                ParseFailure::UnexpectedToken {
                    expected: TokenClass::Symbol(Symbol::Arrow),
                    found: None,
                },
            ),
            Mode::AfterComma => Err(
                ParseFailure::UnexpectedToken { expected: TokenClass::Identifier, found: None },
            ),
            Mode::AfterArrow => Err(
                ParseFailure::UnexpectedToken { expected: TokenClass::QuotedString, found: None },
            ),
            Mode::AfterDir => Err(ParseFailure::MissingSemicolon),
        }
    }
}

/// What the parser returns when it is in state `state` and `tokens` are
/// still to come.
pub open spec fn run(tokens: Seq<Token>, state: ParserModel) -> Result<RuleModel, ParseFailure>
    decreases tokens.len(),
{
    if tokens.len() == 0 || state.mode == Mode::Done {
        state.finish()
    } else {
        match state.step(tokens.first()) {
            Ok(next) => run(tokens.drop_first(), next),
            Err(e) => Err(e),
        }
    }
}

/// The rule tree that `tokens` describe, or the first error in them.
pub open spec fn parse_tokens(tokens: Seq<Token>) -> Result<RuleModel, ParseFailure> {
    run(tokens, initial())
}

/// The tokens without the blanks.
pub open spec fn without_spaces(tokens: Seq<Token>) -> Seq<Token>
    decreases tokens.len(),
{
    if tokens.len() == 0 {
        Seq::empty()
    } else if tokens.first() == Token::Space {
        without_spaces(tokens.drop_first())
    } else {
        seq![tokens.first()] + without_spaces(tokens.drop_first())
    }
}

/// Blanks mean nothing to the parser: with or without them the tokens give
/// the same tree or the same error.
pub proof fn lemma_spaces_insignificant(tokens: Seq<Token>, state: ParserModel)
    ensures
        run(tokens, state) == run(without_spaces(tokens), state),
    decreases tokens.len(),
{
    if tokens.len() > 0 && state.mode != Mode::Done {
        let first = tokens.first();
        let rest = tokens.drop_first();
        if first == Token::Space {
            lemma_spaces_insignificant(rest, state);
        } else {
            let kept = seq![first] + without_spaces(rest);
            assert(kept.first() == first);
            assert(kept.drop_first() =~= without_spaces(rest));
            if let Ok(next) = state.step(first) {
                lemma_spaces_insignificant(rest, next);
            }
        }
    }
}

/// Rules with nothing more behind their sub-rules are as they were.
pub proof fn lemma_nothing_more(rules: Seq<RuleModel>)
    ensures
        each_with_more(rules, Seq::empty()) == rules,
{
    let same = each_with_more(rules, Seq::empty());
    assert forall|i: int| 0 <= i < rules.len() implies same[i] == rules[i] by {
        assert(rules[i].sub_rules + Seq::<RuleModel>::empty() =~= rules[i].sub_rules);
    }
    assert(same =~= rules);
}

/// Opening a brace keeps the stack nested.
pub proof fn lemma_nested_push(stack: Seq<FrameModel>, frame: FrameModel)
    requires
        nested(stack),
        frame.kind != FrameKind::Top,
        frame.kind == FrameKind::Body ==> stack.last().kind == FrameKind::Block,
    ensures
        nested(stack.push(frame)),
{
    let pushed = stack.push(frame);
    assert forall|i: int| 1 <= i < pushed.len() implies #[trigger] inner(pushed, i) by {
        if i < stack.len() {
            assert(inner(stack, i));
        }
    }
}

/// Closing a brace keeps the stack nested.
pub proof fn lemma_nested_drop(stack: Seq<FrameModel>)
    requires
        nested(stack),
        stack.len() >= 2,
    ensures
        nested(stack.drop_last()),
{
    let dropped = stack.drop_last();
    assert forall|i: int| 1 <= i < dropped.len() implies #[trigger] inner(dropped, i) by {
        assert(inner(stack, i));
    }
}

/// Replacing the innermost frame by one of its kind keeps the stack nested.
pub proof fn lemma_nested_replace(stack: Seq<FrameModel>, frame: FrameModel)
    requires
        nested(stack),
        frame.kind == stack.last().kind,
    ensures
        nested(stack.drop_last().push(frame)),
{
    let replaced = stack.drop_last().push(frame);
    assert forall|i: int| 1 <= i < replaced.len() implies #[trigger] inner(replaced, i) by {
        assert(inner(stack, i));
    }
}

/// Every step leads from a possible state to a possible state.
pub proof fn lemma_step_wf(state: ParserModel, token: Token)
    requires
        state.wf(),
    ensures
        state.step(token) is Ok ==> state.step(token)->Ok_0.wf(),
{
    let stack = state.stack;
    if state.step(token) is Ok && token != Token::Space {
        match state.mode {
            Mode::Rulesets => {
                if token is Identifier {
                } else if state.top().kind == FrameKind::Top {
                    assert(stack.len() == 1) by {
                        if stack.len() > 1 {
                            assert(inner(stack, stack.len() - 1));
                        }
                    }
                } else {
                    lemma_close_body_wf(state);
                }
            },
            Mode::AfterLabel => {
                lemma_open_block_wf(state);
            },
            Mode::Decls => {
                if token is Identifier {
                } else {
                    lemma_close_block_wf(state);
                }
            },
            Mode::AfterName => {
                if token == Token::Symbol(Symbol::LeftCurly) {
                    lemma_open_block_wf(state);
                } else if token == Token::Symbol(Symbol::Comma) {
                    lemma_claim_key_wf(state, state.name, Mode::AfterComma);
                } else {
                    lemma_claim_key_wf(state, state.name, Mode::AfterArrow);
                }
            },
            Mode::AfterComma => {
                lemma_claim_key_wf(state, token->Identifier_0, Mode::AfterKey);
            },
            Mode::AfterKey => {},
            Mode::AfterArrow => {
                lemma_nested_replace(
                    stack,
                    FrameModel { dir: token->Text_0, ..state.top() },
                );
            },
            Mode::AfterDir => {
                if token == Token::Symbol(Symbol::SemiColon) {
                    lemma_nested_replace(stack, with_declared(state.top(), Seq::empty()));
                } else {
                    lemma_nested_push(
                        stack,
                        empty_frame(FrameKind::Body, Seq::empty(), RuleStrategy::ByExt),
                    );
                }
            },
            Mode::Done => {},
        }
    }
}

proof fn lemma_open_block_wf(state: ParserModel)
    requires
        nested(state.stack),
        state.open_block() is Ok,
    ensures
        state.open_block()->Ok_0.wf(),
{
    lemma_nested_push(
        state.stack,
        empty_frame(FrameKind::Block, state.name, strategy_of(state.name)->Some_0),
    );
}

proof fn lemma_claim_key_wf(state: ParserModel, key: Seq<char>, mode: Mode)
    requires
        nested(state.stack),
        state.top().kind == FrameKind::Block,
        state.claim_key(key, mode) is Ok,
        mode == Mode::AfterComma || mode == Mode::AfterKey || mode == Mode::AfterArrow,
    ensures
        state.claim_key(key, mode)->Ok_0.wf(),
{
    let top = state.top();
    lemma_nested_replace(
        state.stack,
        FrameModel { seen: top.seen.push(key), keys: top.keys.push(key), ..top },
    );
}

proof fn lemma_close_body_wf(state: ParserModel)
    requires
        nested(state.stack),
        state.top().kind == FrameKind::Body,
    ensures
        state.close_body().wf(),
        state.stack.len() >= 3,
        state.stack[state.stack.len() - 2].kind == FrameKind::Block,
{
    let stack = state.stack;
    assert(stack.len() >= 2);
    assert(inner(stack, stack.len() - 1));
    assert(stack.len() >= 3) by {
        if stack.len() == 2 {
            assert(stack[0].kind == FrameKind::Block);
        }
    }
    lemma_nested_drop(stack);
    lemma_nested_replace(
        stack.drop_last(),
        with_declared(stack[stack.len() - 2], stack.last().rules),
    );
}

proof fn lemma_close_block_wf(state: ParserModel)
    requires
        nested(state.stack),
        state.top().kind == FrameKind::Block,
    ensures
        state.close_block().wf(),
        state.stack.len() >= 2,
{
    let stack = state.stack;
    assert(stack.len() >= 2);
    let parent = stack[stack.len() - 2];
    lemma_nested_drop(stack);
    lemma_nested_replace(stack.drop_last(), with_made(parent, block_rules(stack.last())));
}

struct Frame {
    kind: FrameKind,
    label: String,
    strategy: RuleStrategy,
    seen: Vec<String>,
    keys: Vec<String>,
    dir: String,
    rules: Vec<Rule>,
    nested: Vec<Rule>,
}

impl View for Frame {
    type V = FrameModel;

    closed spec fn view(&self) -> FrameModel {
        FrameModel {
            kind: self.kind,
            label: self.label@,
            strategy: self.strategy,
            seen: self.seen.deep_view(),
            keys: self.keys.deep_view(),
            dir: self.dir@,
            rules: self.rules.deep_view(),
            nested: self.nested.deep_view(),
        }
    }
}

impl DeepView for Frame {
    type V = FrameModel;

    closed spec fn deep_view(&self) -> FrameModel {
        self@
    }
}

impl Frame {
    fn new(kind: FrameKind, label: String, strategy: RuleStrategy) -> (frame: Frame)
        ensures
            frame@ == empty_frame(kind, label@, strategy),
    {
        Frame {
            kind,
            label,
            strategy,
            seen: no_texts(),
            keys: no_texts(),
            dir: empty_text(),
            rules: no_rules(),
            nested: no_rules(),
        }
    }

    /// Completes the declaration that was read in this block.
    fn declare(self, sub_rules: Vec<Rule>) -> (frame: Frame)
        ensures
            frame@ == with_declared(self@, sub_rules.deep_view()),
    {
        let Frame { kind, label, strategy, seen, keys, dir, rules, nested } = self;
        let mut rules = rules;
        let rule = Rule { src: label.clone(), dir_name: dir, strategy, match_keys: keys, sub_rules };
        proof {
            lemma_sub_rules_view(rule);
        }
        push_rule(&mut rules, rule);
        Frame { kind, label, strategy, seen, keys: no_texts(), dir: empty_text(), rules, nested }
    }

    /// The rules that this block makes when it closes.
    fn into_rules(self) -> (made: Vec<Rule>)
        ensures
            made.deep_view() == block_rules(self@),
    {
        let Frame { kind, label, strategy, seen, keys, dir, rules, nested } = self;
        if rules.len() == 0 {
            let rule = Rule {
                src: label,
                dir_name: empty_text(),
                strategy,
                match_keys: no_texts(),
                sub_rules: nested,
            };
            proof {
                lemma_sub_rules_view(rule);
            }
            let mut made = no_rules();
            push_rule(&mut made, rule);
            assert(made.deep_view() =~= seq![bare_rule(self@)]);
            made
        } else if nested.len() == 0 {
            proof {
                lemma_nothing_more(rules.deep_view());
            }
            assert(nested.deep_view() =~= Seq::<RuleModel>::empty());
            rules
        } else {
            let mut made = no_rules();
            let mut i: usize = 0;
            while i < rules.len()
                invariant
                    i <= rules@.len(),
                    made.deep_view() == each_with_more(rules.deep_view(), nested.deep_view()).take(
                        i as int,
                    ),
                decreases rules@.len() - i,
            {
                let ghost before = made.deep_view();
                let mut rule = rules[i].duplicate();
                proof {
                    lemma_sub_rules_view(rule);
                }
                let ghost own = rule@;
                let more = duplicate_rules(&nested);
                let mut sub_rules = no_rules();
                append_rules(&mut sub_rules, rule.sub_rules);
                append_rules(&mut sub_rules, more);
                let extended = Rule {
                    src: rule.src,
                    dir_name: rule.dir_name,
                    strategy: rule.strategy,
                    match_keys: rule.match_keys,
                    sub_rules,
                };
                proof {
                    lemma_sub_rules_view(extended);
                    assert(extended@.sub_rules =~= own.sub_rules + nested.deep_view());
                    assert(extended@ == with_more(own, nested.deep_view()));
                    assert(rules.deep_view()[i as int] == own);
                }
                push_rule(&mut made, extended);
                i += 1;
                assert(made.deep_view() =~= each_with_more(
                    rules.deep_view(),
                    nested.deep_view(),
                ).take(i as int));
            }
            assert(made.deep_view() =~= each_with_more(rules.deep_view(), nested.deep_view()));
            made
        }
    }
}

struct Parser {
    mode: Mode,
    name: String,
    stack: Vec<Frame>,
}

impl View for Parser {
    type V = ParserModel;

    closed spec fn view(&self) -> ParserModel {
        ParserModel { mode: self.mode, name: self.name@, stack: self.stack.deep_view() }
    }
}

fn unexpected(expected: TokenClass, token: &TokenKind) -> (e: ParseError)
    ensures
        e@ == (ParseFailure::UnexpectedToken { expected, found: Some(token@) }),
{
    ParseError::UnexpectedToken { expected, found: Some(token.duplicate()) }
}

impl Parser {
    fn new() -> (parser: Parser)
        ensures
            parser@ == initial(),
            parser@.wf(),
    {
        let mut stack: Vec<Frame> = Vec::new();
        stack.push(Frame::new(FrameKind::Top, empty_text(), RuleStrategy::ByExt));
        let parser = Parser { mode: Mode::Rulesets, name: empty_text(), stack };
        assert(parser@.stack =~= initial().stack);
        parser
    }

    fn push_frame(&mut self, frame: Frame)
        ensures
            final(self)@ == (ParserModel {
                stack: old(self)@.stack.push(frame@),
                ..old(self)@
            }),
    {
        self.stack.push(frame);
        assert(self@.stack =~= old(self)@.stack.push(frame@));
    }

    fn pop_frame(&mut self) -> (frame: Frame)
        requires
            old(self)@.stack.len() >= 1,
        ensures
            frame@ == old(self)@.stack.last(),
            final(self)@ == (ParserModel {
                stack: old(self)@.stack.drop_last(),
                ..old(self)@
            }),
    {
        let frame = self.stack.pop().unwrap();
        assert(self@.stack =~= old(self)@.stack.drop_last());
        frame
    }

    fn open_block(&mut self) -> (result: Result<(), ParseError>)
        ensures
            match result {
                Ok(()) => old(self)@.open_block() == Ok::<ParserModel, ParseFailure>(final(self)@),
                Err(e) => old(self)@.open_block() == Err::<ParserModel, ParseFailure>(e@),
            },
    {
        match RuleStrategy::from_label(&self.name) {
            Some(strategy) => {
                let frame = Frame::new(FrameKind::Block, self.name.clone(), strategy);
                self.push_frame(frame);
                self.name = empty_text();
                self.mode = Mode::Decls;
                Ok(())
            },
            None => Err(ParseError::UnknownStrategy(self.name.clone())),
        }
    }

    fn claim_key(&mut self, key: String, mode: Mode) -> (result: Result<(), ParseError>)
        requires
            old(self)@.stack.len() >= 1,
        ensures
            match result {
                Ok(()) => old(self)@.claim_key(key@, mode) == Ok::<ParserModel, ParseFailure>(
                    final(self)@,
                ),
                Err(e) => old(self)@.claim_key(key@, mode) == Err::<ParserModel, ParseFailure>(
                    e@,
                ),
            },
    {
        let mut top = self.pop_frame();
        if contains_text(&top.seen, &key) {
            return Err(ParseError::DuplicateKey(key));
        }
        push_text(&mut top.seen, key.clone());
        push_text(&mut top.keys, key);
        self.push_frame(top);
        self.name = empty_text();
        self.mode = mode;
        Ok(())
    }

    fn set_dir(&mut self, dir: String)
        requires
            old(self)@.stack.len() >= 1,
        ensures
            final(self)@ == old(self)@.replace_top(
                FrameModel { dir: dir@, ..old(self)@.top() },
                Mode::AfterDir,
            ),
    {
        let mut top = self.pop_frame();
        top.dir = dir;
        self.push_frame(top);
        self.mode = Mode::AfterDir;
    }

    fn declare(&mut self)
        requires
            old(self)@.stack.len() >= 1,
        ensures
            final(self)@ == old(self)@.replace_top(
                with_declared(old(self)@.top(), Seq::empty()),
                Mode::Decls,
            ),
    {
        let top = self.pop_frame();
        self.push_frame(top.declare(no_rules()));
        self.mode = Mode::Decls;
    }

    fn open_body(&mut self)
        ensures
            final(self)@ == old(self)@.open_body(),
    {
        self.push_frame(Frame::new(FrameKind::Body, empty_text(), RuleStrategy::ByExt));
        self.mode = Mode::Rulesets;
    }

    fn close_body(&mut self)
        requires
            old(self)@.stack.len() >= 2,
        ensures
            final(self)@ == old(self)@.close_body(),
    {
        let body = self.pop_frame();
        let block = self.pop_frame();
        self.push_frame(block.declare(body.rules));
        self.mode = Mode::Decls;
    }

    fn close_block(&mut self)
        requires
            old(self)@.stack.len() >= 2,
        ensures
            final(self)@ == old(self)@.close_block(),
    {
        let block = self.pop_frame();
        let mut parent = self.pop_frame();
        let made = block.into_rules();
        let mode = if parent.kind == FrameKind::Block {
            append_rules(&mut parent.nested, made);
            Mode::Decls
        } else {
            append_rules(&mut parent.rules, made);
            Mode::Rulesets
        };
        self.push_frame(parent);
        self.mode = mode;
    }

    fn top_kind(&self) -> (kind: FrameKind)
        requires
            self@.stack.len() >= 1,
        ensures
            kind == self@.top().kind,
    {
        self.stack[self.stack.len() - 1].kind
    }

    fn step(&mut self, token: &TokenKind) -> (result: Result<(), ParseError>)
        requires
            old(self)@.wf(),
        ensures
            match result {
                Ok(()) => old(self)@.step(token@) == Ok::<ParserModel, ParseFailure>(
                    final(self)@,
                ),
                Err(e) => old(self)@.step(token@) == Err::<ParserModel, ParseFailure>(e@),
            },
    {
        if let TokenKind::Space = token {
            return Ok(());
        }
        match self.mode {
            Mode::Rulesets => {
                if let TokenKind::Identifier(label) = token {
                    self.name = label.clone();
                    self.mode = Mode::AfterLabel;
                    Ok(())
                } else if self.top_kind() == FrameKind::Top {
                    self.mode = Mode::Done;
                    Ok(())
                } else if let TokenKind::Symbol(Symbol::RightCurly) = token {
                    proof {
                        lemma_close_body_wf(self@);
                    }
                    self.close_body();
                    Ok(())
                } else {
                    Err(unexpected(TokenClass::Identifier, token))
                }
            },
            Mode::AfterLabel => {
                if let TokenKind::Symbol(Symbol::LeftCurly) = token {
                    self.open_block()
                } else {
                    Err(unexpected(TokenClass::Symbol(Symbol::LeftCurly), token))
                }
            },
            Mode::Decls => {
                if let TokenKind::Identifier(name) = token {
                    self.name = name.clone();
                    self.mode = Mode::AfterName;
                    Ok(())
                } else if let TokenKind::Symbol(Symbol::RightCurly) = token {
                    proof {
                        lemma_close_block_wf(self@);
                    }
                    self.close_block();
                    Ok(())
                } else {
                    Err(unexpected(TokenClass::Identifier, token))
                }
            },
            Mode::AfterName => {
                if let TokenKind::Symbol(Symbol::LeftCurly) = token {
                    self.open_block()
                } else if let TokenKind::Symbol(Symbol::Comma) = token {
                    let key = self.name.clone();
                    self.claim_key(key, Mode::AfterComma)
                } else if let TokenKind::Symbol(Symbol::Arrow) = token {
                    let key = self.name.clone();
                    self.claim_key(key, Mode::AfterArrow)
                } else {
                    Err(unexpected(TokenClass::Symbol(Symbol::Arrow), token))
                }
            },
            Mode::AfterComma => {
                if let TokenKind::Identifier(key) = token {
                    self.claim_key(key.clone(), Mode::AfterKey)
                } else {
                    Err(unexpected(TokenClass::Identifier, token))
                }
            },
            Mode::AfterKey => {
                if let TokenKind::Symbol(Symbol::Comma) = token {
                    self.mode = Mode::AfterComma;
                    Ok(())
                } else if let TokenKind::Symbol(Symbol::Arrow) = token {
                    self.mode = Mode::AfterArrow;
                    Ok(())
                } else {
                    Err(unexpected(TokenClass::Symbol(Symbol::Arrow), token))
                }
            },
            Mode::AfterArrow => {
                if let TokenKind::String(dir) = token {
                    self.set_dir(dir.clone());
                    Ok(())
                } else {
                    Err(unexpected(TokenClass::QuotedString, token))
                }
            },
            Mode::AfterDir => {
                if let TokenKind::Symbol(Symbol::SemiColon) = token {
                    self.declare();
                    Ok(())
                } else if let TokenKind::Symbol(Symbol::LeftCurly) = token {
                    self.open_body();
                    Ok(())
                } else {
                    Err(ParseError::MissingSemicolon)
                }
            },
            Mode::Done => Ok(()),
        }
    }

    fn finish(self) -> (result: Result<Rule, ParseError>)
        requires
            self@.wf(),
        ensures
            match result {
                Ok(rule) => self@.finish() == Ok::<RuleModel, ParseFailure>(rule@),
                Err(e) => self@.finish() == Err::<RuleModel, ParseFailure>(e@),
            },
    {
        match self.mode {
            Mode::Rulesets | Mode::Done => {
                if self.top_kind() == FrameKind::Top {
                    let mut parser = self;
                    let top = parser.pop_frame();
                    Ok(Rule::root_with(top.rules))
                } else {
                    Err(ParseError::MissingClosingBrace)
                }
            },
            Mode::AfterLabel => Err(
                ParseError::UnexpectedToken {
                    expected: TokenClass::Symbol(Symbol::LeftCurly),
                    found: None,
                },
            ),
            Mode::Decls => Err(ParseError::MissingClosingBrace),
            Mode::AfterName | Mode::AfterKey => Err(
                ParseError::UnexpectedToken {
                    expected: TokenClass::Symbol(Symbol::Arrow),
                    found: None,
                },
            ),
            Mode::AfterComma => Err(
                ParseError::UnexpectedToken { expected: TokenClass::Identifier, found: None },
            ),
            Mode::AfterArrow => Err(
                ParseError::UnexpectedToken { expected: TokenClass::QuotedString, found: None },
            ),
            Mode::AfterDir => Err(ParseError::MissingSemicolon),
        }
    }
}

/// Builds the rule tree that `tokens` describe.
///
/// Blanks are skipped wherever they stand. The first token that the grammar
/// does not allow stops the parser with an error, and so does the end of the
/// input inside a block or a declaration. Tokens behind the last top-level
/// rule set are ignored.
pub fn parse(tokens: &Vec<TokenKind>) -> (result: Result<Rule, ParseError>)
    ensures
        match result {
            Ok(rule) => parse_tokens(tokens.deep_view()) == Ok::<RuleModel, ParseFailure>(rule@),
            Err(e) => parse_tokens(tokens.deep_view()) == Err::<RuleModel, ParseFailure>(e@),
        },
{
    let mut parser = Parser::new();
    let n = tokens.len();
    let mut i: usize = 0;
    assert(tokens.deep_view().skip(0) =~= tokens.deep_view());
    while i < n && parser.mode != Mode::Done
        invariant
            i <= n,
            n == tokens@.len(),
            parser@.wf(),
            parse_tokens(tokens.deep_view()) == run(tokens.deep_view().skip(i as int), parser@),
        decreases n - i,
    {
        let ghost before = parser@;
        match parser.step(&tokens[i]) {
            Ok(()) => {},
            Err(e) => {
                return Err(e);
            },
        }
        proof {
            lemma_step_wf(before, tokens[i as int]@);
            let rest = tokens.deep_view().skip(i as int);
            assert(rest.first() == tokens[i as int]@);
            assert(rest.drop_first() =~= tokens.deep_view().skip(i + 1));
        }
        i += 1;
    }
    parser.finish()
}

} // verus!

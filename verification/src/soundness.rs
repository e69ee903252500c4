//! What compiles is well-formed: the lexer gives identifiers made of letters
//! and digits and quoted strings without quotes, and from such tokens the
//! parser builds only well-formed trees.

use vstd::prelude::*;
use crate::chars::{char_class, classified, CharClass};
use crate::compile::compile_text;
use crate::lexer::{
    lemma_next_quote_bounds, lemma_run_end_bounds, lex_from, lex_text, next_quote, run_end,
    text_between,
};
use crate::parser::{
    bare_rule, block_rules, declared_rule, empty_frame, initial, inner, lemma_step_wf, run,
    with_declared, with_made, with_more, FrameKind, FrameModel, Mode, ParserModel,
};
use crate::render::render_text;
use crate::round_trip::lemma_round_trip;
use crate::rules::{
    is_quotable, is_word, strategy_of, well_formed, well_formed_root, RuleModel, RuleStrategy,
};
use crate::token::{Symbol, Token};

verus! {

/// Whether a token is one that the lexer can give.
pub open spec fn proper_token(token: Token) -> bool {
    match token {
        Token::Identifier(word) => is_word(word),
        Token::Text(quoted) => is_quotable(quoted),
        _ => true,
    }
}

/// Whether all tokens are such as the lexer can give.
pub open spec fn proper(tokens: Seq<Token>) -> bool {
    forall|i: int| 0 <= i < tokens.len() ==> proper_token(#[trigger] tokens[i])
}

/// Every identifier that the lexer gives is made of letters and digits, and
/// no quoted string that it gives holds a quote.
pub proof fn lemma_lexed_proper(text: Seq<char>, from: int)
    requires
        0 <= from,
        lex_from(classified(text), from) is Ok,
    ensures
        proper(lex_from(classified(text), from)->Ok_0),
    decreases text.len() - from,
{
    let input = classified(text);
    if from < input.len() {
        let tokens = lex_from(input, from)->Ok_0;
        match input[from].1 {
            CharClass::Alphanumeric => {
                let end = run_end(input, CharClass::Alphanumeric, from + 1);
                lemma_run_end_bounds(input, CharClass::Alphanumeric, from + 1);
                lemma_lexed_proper(text, end);
                let word = text_between(input, from, end);
                assert forall|i: int| 0 <= i < word.len() implies char_class(#[trigger] word[i])
                    == CharClass::Alphanumeric by {
                    assert(input[from + i].1 == CharClass::Alphanumeric);
                }
                lemma_proper_first(Token::Identifier(word), lex_from(input, end)->Ok_0);
            },
            CharClass::LeftCurly | CharClass::RightCurly | CharClass::Comma | CharClass::Colon
            | CharClass::SemiColon => {
                lemma_lexed_proper(text, from + 1);
                lemma_proper_first(tokens[0], lex_from(input, from + 1)->Ok_0);
            },
            CharClass::Equals => {
                lemma_lexed_proper(text, from + 2);
                lemma_proper_first(tokens[0], lex_from(input, from + 2)->Ok_0);
            },
            CharClass::Whitespace => {
                let end = run_end(input, CharClass::Whitespace, from + 1);
                lemma_run_end_bounds(input, CharClass::Whitespace, from + 1);
                lemma_lexed_proper(text, end);
                lemma_proper_first(Token::Space, lex_from(input, end)->Ok_0);
            },
            CharClass::Quote => {
                let close = next_quote(input, from + 1);
                lemma_next_quote_bounds(input, from + 1);
                lemma_lexed_proper(text, close + 1);
                let quoted = text_between(input, from + 1, close);
                assert forall|i: int| 0 <= i < quoted.len() implies #[trigger] quoted[i]
                    != '\'' by {
                    assert(input[from + 1 + i].1 != CharClass::Quote);
                }
                lemma_proper_first(Token::Text(quoted), lex_from(input, close + 1)->Ok_0);
            },
            CharClass::Greater | CharClass::Other => {},
        }
    }
}

proof fn lemma_proper_first(token: Token, rest: Seq<Token>)
    requires
        proper_token(token),
        proper(rest),
    ensures
        proper(seq![token] + rest),
{
    let all = seq![token] + rest;
    assert forall|i: int| 0 <= i < all.len() implies proper_token(#[trigger] all[i]) by {
        if i > 0 {
            assert(all[i] == rest[i - 1]);
        }
    }
}

/// Whether what a frame holds can become part of a well-formed tree: its
/// rules are well-formed, the label of a block names its strategy, and the
/// keys read so far are identifiers, differ from each other and are among
/// those that the block has claimed; the directory can be quoted.
pub open spec fn sound_frame(frame: FrameModel) -> bool {
    &&& forall|i: int| 0 <= i < frame.rules.len() ==> well_formed(#[trigger] frame.rules[i])
    &&& forall|i: int| 0 <= i < frame.nested.len() ==> well_formed(#[trigger] frame.nested[i])
    &&& frame.kind == FrameKind::Block ==> strategy_of(frame.label) == Some(frame.strategy)
    &&& forall|i: int| 0 <= i < frame.keys.len() ==> is_word(#[trigger] frame.keys[i])
    &&& forall|i: int| 0 <= i < frame.keys.len() ==> frame.seen.contains(#[trigger] frame.keys[i])
    &&& frame.keys.no_duplicates()
    &&& is_quotable(frame.dir)
}

/// The frame at `i`, where it holds sub-rules, stands in a block whose
/// declaration has a key.
pub open spec fn keyed(stack: Seq<FrameModel>, i: int) -> bool {
    stack[i].kind == FrameKind::Body ==> stack[i - 1].keys.len() > 0
}

/// Whether everything on the stack can become part of a well-formed tree.
pub open spec fn sound_stack(stack: Seq<FrameModel>) -> bool {
    &&& forall|i: int| 0 <= i < stack.len() ==> sound_frame(#[trigger] stack[i])
    &&& forall|i: int| 1 <= i < stack.len() ==> #[trigger] keyed(stack, i)
}

/// Whether the parser, in this state, can only build well-formed trees.
pub open spec fn sound(state: ParserModel) -> bool {
    &&& state.wf()
    &&& sound_stack(state.stack)
    &&& match state.mode {
        Mode::AfterLabel | Mode::AfterName => is_word(state.name),
        Mode::AfterComma | Mode::AfterKey | Mode::AfterArrow | Mode::AfterDir => state.top().keys.len()
            > 0,
        _ => true,
    }
}

proof fn lemma_sound_push(stack: Seq<FrameModel>, frame: FrameModel)
    requires
        sound_stack(stack),
        stack.len() >= 1,
        sound_frame(frame),
        frame.kind == FrameKind::Body ==> stack.last().keys.len() > 0,
    ensures
        sound_stack(stack.push(frame)),
{
    let pushed = stack.push(frame);
    assert forall|i: int| 0 <= i < pushed.len() implies sound_frame(#[trigger] pushed[i]) by {
        if i < stack.len() {
            assert(pushed[i] == stack[i]);
        }
    }
    assert forall|i: int| 1 <= i < pushed.len() implies #[trigger] keyed(pushed, i) by {
        if i < stack.len() {
            assert(keyed(stack, i));
        }
    }
}

proof fn lemma_sound_drop(stack: Seq<FrameModel>)
    requires
        sound_stack(stack),
        stack.len() >= 1,
    ensures
        sound_stack(stack.drop_last()),
{
    let dropped = stack.drop_last();
    assert forall|i: int| 0 <= i < dropped.len() implies sound_frame(#[trigger] dropped[i]) by {
        assert(dropped[i] == stack[i]);
    }
    assert forall|i: int| 1 <= i < dropped.len() implies #[trigger] keyed(dropped, i) by {
        assert(keyed(stack, i));
    }
}

proof fn lemma_sound_replace(stack: Seq<FrameModel>, frame: FrameModel)
    requires
        sound_stack(stack),
        stack.len() >= 1,
        sound_frame(frame),
        frame.kind == stack.last().kind,
    ensures
        sound_stack(stack.drop_last().push(frame)),
{
    let replaced = stack.drop_last().push(frame);
    assert forall|i: int| 0 <= i < replaced.len() implies sound_frame(#[trigger] replaced[i]) by {
        if i < stack.len() - 1 {
            assert(replaced[i] == stack[i]);
        }
    }
    assert forall|i: int| 1 <= i < replaced.len() implies #[trigger] keyed(replaced, i) by {
        assert(keyed(stack, i));
    }
}

proof fn lemma_sound_claim(frame: FrameModel, key: Seq<char>)
    requires
        sound_frame(frame),
        is_word(key),
        !frame.seen.contains(key),
    ensures
        sound_frame(
            FrameModel { seen: frame.seen.push(key), keys: frame.keys.push(key), ..frame },
        ),
{
    let keys = frame.keys.push(key);
    let seen = frame.seen.push(key);
    assert forall|i: int| 0 <= i < keys.len() implies is_word(#[trigger] keys[i]) by {
        if i < frame.keys.len() {
            assert(keys[i] == frame.keys[i]);
        }
    }
    assert forall|i: int| 0 <= i < keys.len() implies seen.contains(#[trigger] keys[i]) by {
        if i < frame.keys.len() {
            assert(frame.seen.contains(frame.keys[i]));
            let j = choose|j: int| 0 <= j < frame.seen.len() && frame.seen[j] == frame.keys[i];
            assert(seen[j] == keys[i]);
        } else {
            assert(seen[frame.seen.len() as int] == key);
        }
    }
    assert forall|i: int, j: int| 0 <= i < keys.len() && 0 <= j < keys.len() && i != j implies keys[i]
        != keys[j] by {
        if i < frame.keys.len() {
            assert(frame.seen.contains(frame.keys[i]));
        }
        if j < frame.keys.len() {
            assert(frame.seen.contains(frame.keys[j]));
        }
    }
}

proof fn lemma_sound_declared(block: FrameModel, sub_rules: Seq<RuleModel>)
    requires
        sound_frame(block),
        block.kind == FrameKind::Block,
        block.keys.len() > 0,
        forall|i: int| 0 <= i < sub_rules.len() ==> well_formed(#[trigger] sub_rules[i]),
    ensures
        sound_frame(with_declared(block, sub_rules)),
{
    let rule = declared_rule(block, sub_rules);
    assert(well_formed(rule));
    let after = with_declared(block, sub_rules);
    assert forall|i: int| 0 <= i < after.rules.len() implies well_formed(
        #[trigger] after.rules[i],
    ) by {
        if i < block.rules.len() {
            assert(after.rules[i] == block.rules[i]);
        }
    }
}

proof fn lemma_sound_open_block(state: ParserModel)
    requires
        sound(state),
        state.mode == Mode::AfterLabel || state.mode == Mode::AfterName,
        state.open_block() is Ok,
    ensures
        sound(state.open_block()->Ok_0),
{
    let frame = empty_frame(FrameKind::Block, state.name, strategy_of(state.name)->Some_0);
    lemma_step_wf(state, Token::Symbol(Symbol::LeftCurly));
    lemma_sound_push(state.stack, frame);
}

proof fn lemma_sound_claim_key(state: ParserModel, key: Seq<char>, mode: Mode, token: Token)
    requires
        sound(state),
        state.top().kind == FrameKind::Block,
        is_word(key),
        state.claim_key(key, mode) is Ok,
        state.step(token) == state.claim_key(key, mode),
        mode == Mode::AfterComma || mode == Mode::AfterKey || mode == Mode::AfterArrow,
    ensures
        sound(state.claim_key(key, mode)->Ok_0),
{
    let top = state.top();
    lemma_step_wf(state, token);
    lemma_sound_claim(top, key);
    lemma_sound_replace(
        state.stack,
        FrameModel { seen: top.seen.push(key), keys: top.keys.push(key), ..top },
    );
}

proof fn lemma_sound_close_body(state: ParserModel)
    requires
        sound(state),
        state.mode == Mode::Rulesets,
        state.top().kind == FrameKind::Body,
    ensures
        sound(state.close_body()),
{
    let stack = state.stack;
    lemma_step_wf(state, Token::Symbol(Symbol::RightCurly));
    assert(inner(stack, stack.len() - 1));
    assert(keyed(stack, stack.len() - 1));
    let block = stack[stack.len() - 2];
    assert(sound_frame(stack.last()));
    assert(sound_frame(block));
    lemma_sound_declared(block, stack.last().rules);
    lemma_sound_drop(stack);
    lemma_sound_replace(stack.drop_last(), with_declared(block, stack.last().rules));
}

proof fn lemma_sound_close_block(state: ParserModel)
    requires
        sound(state),
        state.mode == Mode::Decls,
    ensures
        sound(state.close_block()),
{
    let stack = state.stack;
    lemma_step_wf(state, Token::Symbol(Symbol::RightCurly));
    assert(stack.len() >= 2) by {
        if stack.len() == 1 {
            assert(stack[0].kind == FrameKind::Top);
        }
    }
    let block = stack.last();
    let parent = stack[stack.len() - 2];
    assert(sound_frame(block));
    assert(sound_frame(parent));
    let made = block_rules(block);
    lemma_made_well_formed(block);
    let joined = with_made(parent, made);
    assert forall|i: int| 0 <= i < joined.rules.len() implies well_formed(
        #[trigger] joined.rules[i],
    ) by {
        if i < parent.rules.len() {
            assert(joined.rules[i] == parent.rules[i]);
        } else {
            assert(joined.rules[i] == made[i - parent.rules.len()]);
        }
    }
    assert forall|i: int| 0 <= i < joined.nested.len() implies well_formed(
        #[trigger] joined.nested[i],
    ) by {
        if i < parent.nested.len() {
            assert(joined.nested[i] == parent.nested[i]);
        } else {
            assert(joined.nested[i] == made[i - parent.nested.len()]);
        }
    }
    lemma_sound_drop(stack);
    lemma_sound_replace(stack.drop_last(), joined);
}

/// A well-formed rule with well-formed rules behind its sub-rules is
/// well-formed.
proof fn lemma_more_well_formed(rule: RuleModel, more: Seq<RuleModel>)
    requires
        well_formed(rule),
        forall|i: int| 0 <= i < more.len() ==> well_formed(#[trigger] more[i]),
    ensures
        well_formed(with_more(rule, more)),
{
    let all = rule.sub_rules + more;
    assert forall|i: int| 0 <= i < all.len() implies well_formed(#[trigger] all[i]) by {
        if i < rule.sub_rules.len() {
            assert(all[i] == rule.sub_rules[i]);
        } else {
            assert(all[i] == more[i - rule.sub_rules.len()]);
        }
    }
}

/// The rules that a sound block makes are well-formed.
proof fn lemma_made_well_formed(block: FrameModel)
    requires
        sound_frame(block),
        block.kind == FrameKind::Block,
    ensures
        forall|i: int|
            0 <= i < block_rules(block).len() ==> well_formed(#[trigger] block_rules(block)[i]),
{
    let made = block_rules(block);
    assert forall|i: int| 0 <= i < made.len() implies well_formed(#[trigger] made[i]) by {
        if block.rules.len() == 0 {
            assert(made[i] == bare_rule(block));
            assert(bare_rule(block).match_keys.no_duplicates());
        } else {
            lemma_more_well_formed(block.rules[i], block.nested);
        }
    }
}

/// A step on a token that the lexer can give keeps the parser sound.
pub proof fn lemma_step_sound(state: ParserModel, token: Token)
    requires
        sound(state),
        proper_token(token),
        state.step(token) is Ok,
    ensures
        sound(state.step(token)->Ok_0),
{
    let stack = state.stack;
    let top = state.top();
    lemma_step_wf(state, token);
    assert(sound_frame(top));
    if token != Token::Space {
        match state.mode {
            Mode::Rulesets => {
                if token is Identifier {
                } else if top.kind == FrameKind::Top {
                } else {
                    lemma_sound_close_body(state);
                }
            },
            Mode::AfterLabel => {
                lemma_sound_open_block(state);
            },
            Mode::Decls => {
                if token is Identifier {
                } else {
                    lemma_sound_close_block(state);
                }
            },
            Mode::AfterName => {
                if token == Token::Symbol(Symbol::LeftCurly) {
                    lemma_sound_open_block(state);
                } else if token == Token::Symbol(Symbol::Comma) {
                    lemma_sound_claim_key(state, state.name, Mode::AfterComma, token);
                } else {
                    lemma_sound_claim_key(state, state.name, Mode::AfterArrow, token);
                }
            },
            Mode::AfterComma => {
                lemma_sound_claim_key(state, token->Identifier_0, Mode::AfterKey, token);
            },
            Mode::AfterKey => {},
            Mode::AfterArrow => {
                lemma_sound_replace(stack, FrameModel { dir: token->Text_0, ..top });
            },
            Mode::AfterDir => {
                if token == Token::Symbol(Symbol::SemiColon) {
                    lemma_sound_declared(top, Seq::empty());
                    lemma_sound_replace(stack, with_declared(top, Seq::empty()));
                } else {
                    lemma_sound_push(
                        stack,
                        empty_frame(FrameKind::Body, Seq::empty(), RuleStrategy::ByExt),
                    );
                }
            },
            Mode::Done => {},
        }
    }
}

/// From tokens that the lexer can give, a sound parser builds only
/// well-formed trees.
pub proof fn lemma_run_sound(tokens: Seq<Token>, state: ParserModel)
    requires
        sound(state),
        proper(tokens),
        run(tokens, state) is Ok,
    ensures
        well_formed_root(run(tokens, state)->Ok_0),
    decreases tokens.len(),
{
    if tokens.len() == 0 || state.mode == Mode::Done {
        assert(sound_frame(state.top()));
    } else {
        let next = state.step(tokens.first())->Ok_0;
        lemma_step_sound(state, tokens.first());
        let rest = tokens.drop_first();
        assert forall|i: int| 0 <= i < rest.len() implies proper_token(#[trigger] rest[i]) by {
            assert(rest[i] == tokens[i + 1]);
        }
        lemma_run_sound(rest, next);
    }
}

/// Whatever compiles is a well-formed tree.
pub proof fn lemma_compiled_well_formed(text: Seq<char>)
    requires
        compile_text(text) is Ok,
    ensures
        well_formed_root(compile_text(text)->Ok_0),
{
    let tokens = lex_text(text)->Ok_0;
    lemma_lexed_proper(text, 0);
    let start = initial();
    assert(sound_frame(start.top()));
    assert(sound(start));
    lemma_run_sound(tokens, start);
}

/// The tree that a source text compiles to is stable under writing and
/// reading: written as text and compiled again, it comes out the same.
pub proof fn lemma_compile_stable(text: Seq<char>)
    requires
        compile_text(text) is Ok,
    ensures
        compile_text(render_text(compile_text(text)->Ok_0)) == compile_text(text),
{
    lemma_compiled_well_formed(text);
    lemma_round_trip(compile_text(text)->Ok_0);
}

} // verus!

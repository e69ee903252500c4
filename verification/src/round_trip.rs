//! What is written by [`render`](crate::render::render) is read back as the
//! same rule tree.

use vstd::prelude::*;
use crate::chars::{char_class, classified, CharClass};
use crate::compile::{compile_text, CompileFailure};
use crate::layout::{lemma_lex_one, stands_at};
use crate::lexer::{lex_from, lex_text, LexError};
use crate::parser::{
    bare_rule, block_rules, declared_rule, empty_frame, initial, lemma_nested_push,
    lemma_nested_replace, lemma_nothing_more, lemma_spaces_insignificant, nested, parse_tokens,
    run, with_declared, with_made, without_spaces, FrameKind, FrameModel, Mode, ParseFailure,
    ParserModel,
};
use crate::render::{
    body_tokens, keys_tokens, lemma_rules_text, render_text, rule_tokens, rules_tokens,
    symbol_text, token_text, tokens_text,
};
use crate::rules::{
    is_quotable, is_word, lemma_labels_are_words, strategy_of, well_formed, well_formed_root,
    RuleModel, RuleStrategy,
};
use crate::token::{Symbol, Token};

verus! {

/// Whether the token at `i` is read back as written: an identifier is made
/// of letters and digits and has a punctuation mark behind it, a quoted
/// string holds no quote, and a space is not written at all.
pub open spec fn tidy_at(tokens: Seq<Token>, i: int) -> bool {
    match tokens[i] {
        Token::Identifier(text) => is_word(text) && i + 1 < tokens.len() && tokens[i + 1] is Symbol,
        Token::Symbol(_) => true,
        Token::Text(text) => is_quotable(text),
        Token::Space => false,
    }
}

/// Whether every token is read back as written.
pub open spec fn tidy(tokens: Seq<Token>) -> bool {
    forall|i: int| 0 <= i < tokens.len() ==> #[trigger] tidy_at(tokens, i)
}

/// Tidy tokens followed by tidy tokens are tidy.
pub proof fn lemma_tidy_concat(a: Seq<Token>, b: Seq<Token>)
    requires
        tidy(a),
        tidy(b),
    ensures
        tidy(a + b),
{
    let all = a + b;
    assert forall|i: int| 0 <= i < all.len() implies #[trigger] tidy_at(all, i) by {
        if i < a.len() {
            assert(tidy_at(a, i));
            assert(all[i] == a[i]);
            if i + 1 < a.len() {
                assert(all[i + 1] == a[i + 1]);
            }
        } else {
            assert(tidy_at(b, i - a.len()));
            assert(all[i] == b[i - a.len()]);
            if i + 1 < all.len() {
                assert(all[i + 1] == b[i + 1 - a.len()]);
            }
        }
    }
}

/// The first character of a punctuation mark is neither letter nor digit.
proof fn lemma_symbol_starts(symbol: Symbol)
    ensures
        symbol_text(symbol).len() >= 1,
        char_class(symbol_text(symbol)[0]) != CharClass::Alphanumeric,
{
}

/// Lexing the text of tidy tokens gives the tokens back: where `text` from
/// `pos` on is the text of `tokens` from `from` on, the lexer reads exactly
/// those tokens there.
pub proof fn lemma_lex_tokens(text: Seq<char>, pos: int, tokens: Seq<Token>, from: int)
    requires
        tidy(tokens),
        0 <= from <= tokens.len(),
        0 <= pos <= text.len(),
        text.skip(pos) == tokens_text(tokens, from),
    ensures
        lex_from(classified(text), pos) == Ok::<Seq<Token>, LexError>(tokens.skip(from)),
    decreases tokens.len() - from,
{
    let input = classified(text);
    if from == tokens.len() {
        assert(text.skip(pos).len() == 0);
        assert(tokens.skip(from) =~= Seq::<Token>::empty());
    } else {
        let token = tokens[from];
        let here = token_text(token);
        let rest = tokens_text(tokens, from + 1);
        assert(tidy_at(tokens, from));
        assert(text.skip(pos) == here + rest);
        assert(text.skip(pos).len() == here.len() + rest.len());
        assert forall|k: int| 0 <= k < here.len() implies text[pos + k] == here[k] by {
            assert(text.skip(pos)[k] == here[k]);
        }
        assert forall|k: int| 0 <= k < rest.len() implies text[pos + here.len() + k]
            == rest[k] by {
            assert(text.skip(pos)[here.len() + k] == rest[k]);
        }
        assert(text.skip(pos + here.len()) =~= rest);
        lemma_lex_tokens(text, pos + here.len(), tokens, from + 1);
        let after = lex_from(input, pos + here.len());
        assert(seq![token] + tokens.skip(from + 1) =~= tokens.skip(from));
        if token is Identifier {
            let next = tokens[from + 1];
            assert(tidy_at(tokens, from + 1));
            assert(rest == token_text(next) + tokens_text(tokens, from + 2));
            lemma_symbol_starts(next->Symbol_0);
            assert(rest[0] == symbol_text(next->Symbol_0)[0]);
            assert(text[pos + here.len() + 0] == rest[0]);
        }
        assert(stands_at(text, pos, here));
        lemma_lex_one(text, pos, token);
    }
}

/// The key tokens of identifiers are tidy.
pub proof fn lemma_keys_tidy(keys: Seq<Seq<char>>, from: int)
    requires
        0 <= from,
        forall|i: int| 0 <= i < keys.len() ==> is_word(#[trigger] keys[i]),
    ensures
        tidy(keys_tokens(keys, from)),
    decreases keys.len() - from,
{
    if from < keys.len() {
        let pair = if from == keys.len() - 1 {
            seq![Token::Identifier(keys[from]), Token::Symbol(Symbol::Arrow)]
        } else {
            seq![Token::Identifier(keys[from]), Token::Symbol(Symbol::Comma)]
        };
        assert forall|i: int| 0 <= i < pair.len() implies #[trigger] tidy_at(pair, i) by {}
        if from < keys.len() - 1 {
            lemma_keys_tidy(keys, from + 1);
            lemma_tidy_concat(pair, keys_tokens(keys, from + 1));
        }
    }
}

/// The tokens of a well-formed rule are tidy.
pub proof fn lemma_rule_tidy(rule: RuleModel)
    requires
        well_formed(rule),
    ensures
        tidy(rule_tokens(rule)),
    decreases rule, 2int,
{
    let head = seq![Token::Identifier(rule.src), Token::Symbol(Symbol::LeftCurly)];
    let close = seq![Token::Symbol(Symbol::RightCurly)];
    lemma_labels_are_words(rule.strategy);
    assert forall|i: int| 0 <= i < head.len() implies #[trigger] tidy_at(head, i) by {}
    assert forall|i: int| 0 <= i < close.len() implies #[trigger] tidy_at(close, i) by {}
    if rule.match_keys.len() == 0 {
        let inner = rules_tokens(rule.sub_rules, 0);
        lemma_rules_tidy(rule.sub_rules, 0);
        lemma_tidy_concat(head, inner);
        lemma_tidy_concat(head + inner, close);
    } else {
        let keys = keys_tokens(rule.match_keys, 0);
        let dir = seq![Token::Text(rule.dir_name)];
        let body = body_tokens(rule);
        assert forall|i: int| 0 <= i < dir.len() implies #[trigger] tidy_at(dir, i) by {}
        lemma_keys_tidy(rule.match_keys, 0);
        lemma_body_tidy(rule);
        lemma_tidy_concat(head, keys);
        lemma_tidy_concat(head + keys, dir);
        lemma_tidy_concat(head + keys + dir, body);
        lemma_tidy_concat(head + keys + dir + body, close);
    }
}

proof fn lemma_body_tidy(rule: RuleModel)
    requires
        well_formed(rule),
    ensures
        tidy(body_tokens(rule)),
    decreases rule, 1int,
{
    if rule.sub_rules.len() == 0 {
        let semi = seq![Token::Symbol(Symbol::SemiColon)];
        assert forall|i: int| 0 <= i < semi.len() implies #[trigger] tidy_at(semi, i) by {}
    } else {
        let open = seq![Token::Symbol(Symbol::LeftCurly)];
        let inner = rules_tokens(rule.sub_rules, 0);
        let close = seq![Token::Symbol(Symbol::RightCurly)];
        assert forall|i: int| 0 <= i < open.len() implies #[trigger] tidy_at(open, i) by {}
        assert forall|i: int| 0 <= i < close.len() implies #[trigger] tidy_at(close, i) by {}
        lemma_rules_tidy(rule.sub_rules, 0);
        lemma_tidy_concat(open, inner);
        lemma_tidy_concat(open + inner, close);
    }
}

/// The tokens of well-formed rules are tidy.
pub proof fn lemma_rules_tidy(rules: Seq<RuleModel>, from: int)
    requires
        0 <= from,
        forall|i: int| 0 <= i < rules.len() ==> well_formed(#[trigger] rules[i]),
    ensures
        tidy(rules_tokens(rules, from)),
    decreases rules, rules.len() - from,
{
    if from < rules.len() {
        lemma_rule_tidy(rules[from]);
        lemma_rules_tidy(rules, from + 1);
        lemma_tidy_concat(rule_tokens(rules[from]), rules_tokens(rules, from + 1));
    }
}

/// The lexer reads the text of a well-formed tree as the tokens that the
/// tree was written from.
pub proof fn lemma_lex_rendered(root: RuleModel)
    requires
        well_formed_root(root),
    ensures
        lex_text(render_text(root)) == Ok::<Seq<Token>, LexError>(
            rules_tokens(root.sub_rules, 0),
        ),
{
    let tokens = rules_tokens(root.sub_rules, 0);
    let text = render_text(root);
    lemma_rules_tidy(root.sub_rules, 0);
    lemma_rules_text(root.sub_rules, 0);
    assert(text.skip(0) =~= text);
    lemma_lex_tokens(text, 0, tokens, 0);
    assert(tokens.skip(0) =~= tokens);
}

/// Reading one token.
pub proof fn lemma_run_one(token: Token, rest: Seq<Token>, state: ParserModel)
    ensures
        run(seq![token] + rest, state) == (if state.mode == Mode::Done {
            state.finish()
        } else {
            match state.step(token) {
                Ok(next) => run(rest, next),
                Err(e) => Err(e),
            }
        }),
{
    let all = seq![token] + rest;
    assert(all.first() == token);
    assert(all.drop_first() =~= rest);
}

/// The state in which the innermost frame, a block that had claimed `seen`,
/// has claimed the first `count` of `keys` for the declaration that is
/// being read.
pub open spec fn with_keys(
    stack: Seq<FrameModel>,
    seen: Seq<Seq<char>>,
    keys: Seq<Seq<char>>,
    count: int,
    mode: Mode,
) -> ParserModel {
    ParserModel {
        mode,
        name: Seq::empty(),
        stack: stack.drop_last().push(
            FrameModel { seen: seen + keys.take(count), keys: keys.take(count), ..stack.last() },
        ),
    }
}

/// The mode in which a list of blocks is read in the innermost frame.
pub open spec fn list_mode(state: ParserModel) -> Mode {
    if state.top().kind == FrameKind::Block {
        Mode::Decls
    } else {
        Mode::Rulesets
    }
}

/// The state in which blocks that make `rules` have been read in the
/// innermost frame.
pub open spec fn with_rules(state: ParserModel, rules: Seq<RuleModel>) -> ParserModel {
    ParserModel {
        mode: list_mode(state),
        name: Seq::empty(),
        stack: state.stack.drop_last().push(with_made(state.top(), rules)),
    }
}

/// The state inside a block with the given label and strategy, with
/// nothing read in it.
pub open spec fn opened(stack: Seq<FrameModel>, label: Seq<char>, strategy: RuleStrategy) -> ParserModel {
    ParserModel {
        mode: Mode::Decls,
        name: Seq::empty(),
        stack: stack.push(empty_frame(FrameKind::Block, label, strategy)),
    }
}

/// The state inside the block of `rule`, behind its directory.
spec fn before_body(stack: Seq<FrameModel>, rule: RuleModel) -> ParserModel {
    ParserModel {
        mode: Mode::AfterDir,
        name: Seq::empty(),
        stack: stack.push(
            FrameModel {
                kind: FrameKind::Block,
                label: rule.src,
                strategy: rule.strategy,
                seen: rule.match_keys,
                keys: rule.match_keys,
                dir: rule.dir_name,
                rules: Seq::empty(),
                nested: Seq::empty(),
            },
        ),
    }
}

proof fn lemma_fresh_key(seen: Seq<Seq<char>>, keys: Seq<Seq<char>>, count: int)
    requires
        (seen + keys).no_duplicates(),
        0 <= count < keys.len(),
    ensures
        !(seen + keys.take(count)).contains(keys[count]),
        (seen + keys.take(count)).push(keys[count]) == seen + keys.take(count + 1),
        keys.take(count).push(keys[count]) == keys.take(count + 1),
{
    let all = seen + keys;
    let before = seen + keys.take(count);
    if before.contains(keys[count]) {
        let j = choose|j: int| 0 <= j < before.len() && before[j] == keys[count];
        assert(all[j] == before[j]);
        assert(all[seen.len() + count] == keys[count]);
    }
    assert(before.push(keys[count]) =~= seen + keys.take(count + 1));
    assert(keys.take(count).push(keys[count]) =~= keys.take(count + 1));
}

/// Reading the keys behind the first.
proof fn lemma_run_more_keys(
    keys: Seq<Seq<char>>,
    from: int,
    rest: Seq<Token>,
    stack: Seq<FrameModel>,
    seen: Seq<Seq<char>>,
)
    requires
        1 <= from < keys.len(),
        (seen + keys).no_duplicates(),
        stack.len() >= 1,
    ensures
        run(
            keys_tokens(keys, from) + rest,
            with_keys(stack, seen, keys, from, Mode::AfterComma),
        ) == run(rest, with_keys(stack, seen, keys, keys.len() as int, Mode::AfterArrow)),
    decreases keys.len() - from,
{
    let state = with_keys(stack, seen, keys, from, Mode::AfterComma);
    let key = Token::Identifier(keys[from]);
    lemma_fresh_key(seen, keys, from);
    let read = with_keys(stack, seen, keys, from + 1, Mode::AfterKey);
    assert(state.step(key) == Ok::<ParserModel, ParseFailure>(read)) by {
        assert(state.step(key)->Ok_0.stack =~= read.stack);
    }
    if from == keys.len() - 1 {
        let arrow = Token::Symbol(Symbol::Arrow);
        assert(keys_tokens(keys, from) + rest =~= seq![key] + (seq![arrow] + rest));
        lemma_run_one(key, seq![arrow] + rest, state);
        lemma_run_one(arrow, rest, read);
    } else {
        let comma = Token::Symbol(Symbol::Comma);
        let more = keys_tokens(keys, from + 1) + rest;
        assert(keys_tokens(keys, from) + rest =~= seq![key] + (seq![comma] + more));
        lemma_run_one(key, seq![comma] + more, state);
        lemma_run_one(comma, more, read);
        lemma_run_more_keys(keys, from + 1, rest, stack, seen);
    }
}

/// Reading the keys of a declaration, from the first key to the arrow, in a
/// block that has claimed none of them.
pub proof fn lemma_run_keys(keys: Seq<Seq<char>>, rest: Seq<Token>, stack: Seq<FrameModel>)
    requires
        keys.len() >= 1,
        stack.len() >= 1,
        (stack.last().seen + keys).no_duplicates(),
        stack.last().keys == Seq::<Seq<char>>::empty(),
    ensures
        run(
            keys_tokens(keys, 0) + rest,
            ParserModel { mode: Mode::Decls, name: Seq::empty(), stack },
        ) == run(
            rest,
            with_keys(stack, stack.last().seen, keys, keys.len() as int, Mode::AfterArrow),
        ),
{
    let seen = stack.last().seen;
    let state = ParserModel { mode: Mode::Decls, name: Seq::empty(), stack };
    let key = Token::Identifier(keys[0]);
    let named = ParserModel { mode: Mode::AfterName, name: keys[0], stack };
    assert(state.step(key) == Ok::<ParserModel, ParseFailure>(named));
    lemma_fresh_key(seen, keys, 0);
    assert(keys.take(0) =~= Seq::<Seq<char>>::empty());
    assert(seen + keys.take(0) =~= seen);
    if keys.len() == 1 {
        let arrow = Token::Symbol(Symbol::Arrow);
        let read = with_keys(stack, seen, keys, 1, Mode::AfterArrow);
        assert(named.step(arrow) == Ok::<ParserModel, ParseFailure>(read)) by {
            assert(named.step(arrow)->Ok_0.stack =~= read.stack);
        }
        assert(keys_tokens(keys, 0) + rest =~= seq![key] + (seq![arrow] + rest));
        lemma_run_one(key, seq![arrow] + rest, state);
        lemma_run_one(arrow, rest, named);
    } else {
        let comma = Token::Symbol(Symbol::Comma);
        let read = with_keys(stack, seen, keys, 1, Mode::AfterComma);
        assert(named.step(comma) == Ok::<ParserModel, ParseFailure>(read)) by {
            assert(named.step(comma)->Ok_0.stack =~= read.stack);
        }
        let more = keys_tokens(keys, 1) + rest;
        assert(keys_tokens(keys, 0) + rest =~= seq![key] + (seq![comma] + more));
        lemma_run_one(key, seq![comma] + more, state);
        lemma_run_one(comma, more, named);
        lemma_run_more_keys(keys, 1, rest, stack, seen);
    }
}

/// Reading the label of a block and the brace that opens it.
pub proof fn lemma_run_open(
    label: Seq<char>,
    strategy: RuleStrategy,
    rest: Seq<Token>,
    state: ParserModel,
)
    requires
        strategy_of(label) == Some(strategy),
        state.mode == list_mode(state),
        state.stack.len() >= 1,
    ensures
        run(seq![Token::Identifier(label), Token::Symbol(Symbol::LeftCurly)] + rest, state)
            == run(rest, opened(state.stack, label, strategy)),
{
    let name = Token::Identifier(label);
    let open = Token::Symbol(Symbol::LeftCurly);
    assert(seq![name, open] + rest =~= seq![name] + (seq![open] + rest));
    let labelled = ParserModel {
        mode: if state.mode == Mode::Decls {
            Mode::AfterName
        } else {
            Mode::AfterLabel
        },
        name: label,
        stack: state.stack,
    };
    lemma_run_one(name, seq![open] + rest, state);
    assert(state.step(name) == Ok::<ParserModel, ParseFailure>(labelled));
    lemma_run_one(open, rest, labelled);
    assert(labelled.step(open) == Ok::<ParserModel, ParseFailure>(
        opened(state.stack, label, strategy),
    ));
}

/// Reading a declaration from its first key to its directory.
proof fn lemma_run_to_dir(rule: RuleModel, rest: Seq<Token>, stack: Seq<FrameModel>)
    requires
        well_formed(rule),
        rule.match_keys.len() > 0,
    ensures
        run(
            keys_tokens(rule.match_keys, 0) + seq![Token::Text(rule.dir_name)] + rest,
            opened(stack, rule.src, rule.strategy),
        ) == run(rest, before_body(stack, rule)),
{
    let dir = Token::Text(rule.dir_name);
    let keys = rule.match_keys;
    let inside = opened(stack, rule.src, rule.strategy).stack;
    let after_dir = seq![dir] + rest;
    assert(keys_tokens(keys, 0) + seq![dir] + rest =~= keys_tokens(keys, 0) + after_dir);
    assert(Seq::<Seq<char>>::empty() + keys =~= keys);
    lemma_run_keys(keys, after_dir, inside);
    let keyed = with_keys(inside, Seq::empty(), keys, keys.len() as int, Mode::AfterArrow);
    assert(keys.take(keys.len() as int) =~= keys);
    assert(Seq::<Seq<char>>::empty() + keys.take(keys.len() as int) =~= keys);
    lemma_run_one(dir, rest, keyed);
    assert(keyed.step(dir) == Ok::<ParserModel, ParseFailure>(before_body(stack, rule))) by {
        assert(keyed.step(dir)->Ok_0.stack =~= before_body(stack, rule).stack);
    }
}

/// Closing a block: what it makes is added to what the frame around it
/// holds.
pub proof fn lemma_run_close(block: FrameModel, rest: Seq<Token>, state: ParserModel)
    requires
        state.stack.len() >= 1,
        block.kind == FrameKind::Block,
    ensures
        run(
            seq![Token::Symbol(Symbol::RightCurly)] + rest,
            ParserModel { mode: Mode::Decls, name: Seq::empty(), stack: state.stack.push(block) },
        ) == run(rest, with_rules(state, block_rules(block))),
{
    let close = Token::Symbol(Symbol::RightCurly);
    let inside = ParserModel {
        mode: Mode::Decls,
        name: Seq::empty(),
        stack: state.stack.push(block),
    };
    lemma_run_one(close, rest, inside);
    assert(inside.step(close) == Ok::<ParserModel, ParseFailure>(
        with_rules(state, block_rules(block)),
    )) by {
        assert(inside.stack[inside.stack.len() - 2] == state.top());
        assert(inside.step(close)->Ok_0.stack =~= with_rules(state, block_rules(block)).stack);
    }
}

/// Reading what stands behind the directory of `rule`, and the end of its
/// block.
proof fn lemma_run_body(rule: RuleModel, rest: Seq<Token>, state: ParserModel)
    requires
        well_formed(rule),
        rule.match_keys.len() > 0,
        nested(state.stack),
    ensures
        run(
            body_tokens(rule) + seq![Token::Symbol(Symbol::RightCurly)] + rest,
            before_body(state.stack, rule),
        ) == run(rest, with_rules(state, seq![rule])),
    decreases rule, 1int,
{
    let close = Token::Symbol(Symbol::RightCurly);
    let start = before_body(state.stack, rule);
    let after_body = seq![close] + rest;
    let block = with_declared(start.top(), rule.sub_rules);
    let declared = ParserModel {
        mode: Mode::Decls,
        name: Seq::empty(),
        stack: state.stack.push(block),
    };
    assert(declared_rule(start.top(), rule.sub_rules) == rule);
    assert(block.rules =~= seq![rule]);
    lemma_nothing_more(block.rules);
    assert(block_rules(block) == seq![rule]);
    lemma_run_close(block, rest, state);
    if rule.sub_rules.len() == 0 {
        let semi = Token::Symbol(Symbol::SemiColon);
        assert(body_tokens(rule) + seq![close] + rest =~= seq![semi] + after_body);
        lemma_run_one(semi, after_body, start);
        assert(rule.sub_rules =~= Seq::<RuleModel>::empty());
        assert(start.step(semi) == Ok::<ParserModel, ParseFailure>(declared)) by {
            assert(start.step(semi)->Ok_0.stack =~= declared.stack);
        }
    } else {
        let open = Token::Symbol(Symbol::LeftCurly);
        let inner = rules_tokens(rule.sub_rules, 0);
        let after_inner = seq![close] + after_body;
        assert(body_tokens(rule) + seq![close] + rest =~= seq![open] + (inner + after_inner));
        let body = start.open_body();
        lemma_run_one(open, inner + after_inner, start);
        assert(start.step(open) == Ok::<ParserModel, ParseFailure>(body));
        lemma_nested_push(state.stack, start.top());
        lemma_nested_push(start.stack, body.top());
        lemma_run_rules(rule.sub_rules, 0, after_inner, body);
        let filled = with_rules(body, rule.sub_rules.skip(0));
        assert(rule.sub_rules.skip(0) =~= rule.sub_rules);
        assert(filled.top().rules =~= rule.sub_rules);
        lemma_run_one(close, after_body, filled);
        assert(filled.step(close) == Ok::<ParserModel, ParseFailure>(declared)) by {
            assert(filled.stack[filled.stack.len() - 2] == start.top());
            assert(filled.close_body().stack =~= declared.stack);
        }
    }
}

/// Reading a rule: it is added to what the innermost frame holds.
proof fn lemma_run_rule(rule: RuleModel, rest: Seq<Token>, state: ParserModel)
    requires
        well_formed(rule),
        state.mode == list_mode(state),
        nested(state.stack),
    ensures
        run(rule_tokens(rule) + rest, state) == run(rest, with_rules(state, seq![rule])),
    decreases rule, 2int,
{
    let head = seq![Token::Identifier(rule.src), Token::Symbol(Symbol::LeftCurly)];
    let close = seq![Token::Symbol(Symbol::RightCurly)];
    let inside = opened(state.stack, rule.src, rule.strategy);
    if rule.match_keys.len() == 0 {
        let inner = rules_tokens(rule.sub_rules, 0);
        let after_inner = close + rest;
        assert(rule_tokens(rule) + rest =~= head + (inner + after_inner));
        lemma_run_open(rule.src, rule.strategy, inner + after_inner, state);
        lemma_nested_push(state.stack, inside.top());
        lemma_run_rules(rule.sub_rules, 0, after_inner, inside);
        let filled = with_rules(inside, rule.sub_rules.skip(0));
        let block = filled.top();
        assert(rule.sub_rules.skip(0) =~= rule.sub_rules);
        assert(block.nested =~= rule.sub_rules);
        assert(rule.match_keys =~= Seq::<Seq<char>>::empty());
        assert(rule.dir_name =~= Seq::<char>::empty());
        assert(bare_rule(block) == rule);
        assert(filled.stack =~= state.stack.push(block));
        assert(block_rules(block) == seq![rule]);
        lemma_run_close(block, rest, state);
    } else {
        let tail = body_tokens(rule) + close + rest;
        let declaration = keys_tokens(rule.match_keys, 0) + seq![Token::Text(rule.dir_name)]
            + tail;
        assert(rule_tokens(rule) + rest =~= head + declaration);
        lemma_run_open(rule.src, rule.strategy, declaration, state);
        lemma_run_to_dir(rule, tail, state.stack);
        lemma_run_body(rule, rest, state);
    }
}

/// Reading the rules from `from` on: they are added, in order, to what the
/// innermost frame holds.
proof fn lemma_run_rules(rules: Seq<RuleModel>, from: int, rest: Seq<Token>, state: ParserModel)
    requires
        0 <= from <= rules.len(),
        forall|i: int| 0 <= i < rules.len() ==> well_formed(#[trigger] rules[i]),
        state.mode == list_mode(state),
        state.name == Seq::<char>::empty(),
        nested(state.stack),
    ensures
        run(rules_tokens(rules, from) + rest, state) == run(
            rest,
            with_rules(state, rules.skip(from)),
        ),
    decreases rules, rules.len() - from,
{
    let top = state.top();
    if from == rules.len() {
        assert(rules_tokens(rules, from) + rest =~= rest);
        assert(top.rules + rules.skip(from) =~= top.rules);
        assert(top.nested + rules.skip(from) =~= top.nested);
        assert(with_made(top, rules.skip(from)) == top);
        assert(with_rules(state, rules.skip(from)).stack =~= state.stack);
    } else {
        let rule = rules[from];
        let more = rules_tokens(rules, from + 1) + rest;
        assert(rules_tokens(rules, from) + rest =~= rule_tokens(rule) + more);
        lemma_run_rule(rule, more, state);
        let added = with_rules(state, seq![rule]);
        lemma_nested_replace(state.stack, added.top());
        lemma_run_rules(rules, from + 1, rest, added);
        assert(top.rules + seq![rule] + rules.skip(from + 1) =~= top.rules + rules.skip(from));
        assert(top.nested + seq![rule] + rules.skip(from + 1) =~= top.nested + rules.skip(
            from,
        ));
        assert(with_made(added.top(), rules.skip(from + 1)) == with_made(top, rules.skip(from)));
        assert(with_rules(added, rules.skip(from + 1)).stack =~= with_rules(
            state,
            rules.skip(from),
        ).stack);
    }
}

/// The parser reads the tokens of a well-formed tree as that tree.
pub proof fn lemma_parse_rendered(root: RuleModel)
    requires
        well_formed_root(root),
    ensures
        parse_tokens(rules_tokens(root.sub_rules, 0)) == Ok::<RuleModel, ParseFailure>(root),
{
    let tokens = rules_tokens(root.sub_rules, 0);
    let start = initial();
    assert(nested(start.stack));
    lemma_run_rules(root.sub_rules, 0, Seq::empty(), start);
    assert(tokens + Seq::<Token>::empty() =~= tokens);
    let end = with_rules(start, root.sub_rules.skip(0));
    assert(end.top().rules =~= root.sub_rules);
}

/// However the tokens of a well-formed tree are spaced, the parser reads
/// them as that tree.
pub proof fn lemma_parse_spaced(tokens: Seq<Token>, root: RuleModel)
    requires
        well_formed_root(root),
        without_spaces(tokens) == rules_tokens(root.sub_rules, 0),
    ensures
        parse_tokens(tokens) == Ok::<RuleModel, ParseFailure>(root),
{
    lemma_spaces_insignificant(tokens, initial());
    lemma_parse_rendered(root);
}

/// Writing and reading again changes nothing: the text that a well-formed
/// tree is written as compiles, and what it compiles to is the tree itself,
/// with every label, key, directory and sub-rule in its place.
pub proof fn lemma_round_trip(root: RuleModel)
    requires
        well_formed_root(root),
    ensures
        compile_text(render_text(root)) == Ok::<RuleModel, CompileFailure>(root),
{
    lemma_lex_rendered(root);
    lemma_parse_rendered(root);
}

} // verus!

//! The grammar of the rule language and what its sentences mean.
//!
//! A source is a list of [`Block`]s. Its tokens are given by
//! [`blocks_tokens`], the rules that it declares by [`blocks_meaning`].
//! The parser reads the tokens of every valid source, however they are
//! spaced, as the root of those rules.

use vstd::prelude::*;
use crate::compile::{compile_text, CompileFailure};
use crate::layout::{
    gaps_fit, lemma_layout_round_trip, lemma_lex_spaced, lemma_spaces_out, spaced_text,
    spaced_tokens,
};
use crate::parser::{
    block_rules, empty_frame, initial, lemma_nested_push, lemma_nested_replace,
    lemma_spaces_insignificant, nested, parse_tokens, run, with_declared, with_made, FrameKind,
    FrameModel, Mode, ParseFailure, ParserModel,
};
use crate::render::{keys_tokens, rules_tokens};
use crate::soundness::lemma_compiled_well_formed;
use crate::round_trip::{
    lemma_keys_tidy, lemma_run_close, lemma_run_keys, lemma_run_one, lemma_run_open,
    lemma_tidy_concat, list_mode, opened, tidy, tidy_at, with_keys, with_rules,
};
use crate::rules::{
    is_quotable, is_word, lemma_labels_are_words, root_of, strategy_of, RuleModel, RuleStrategy,
};
use crate::token::{Symbol, Token};

verus! {

/// What a block holds: a declaration or another block.
pub enum Item {
    /// `keys => 'dir';`, or, with braces, `keys => 'dir' { body }`.
    Declaration { keys: Seq<Seq<char>>, dir: Seq<char>, braces: bool, body: Seq<Block> },
    /// A block written directly in the block.
    Nested { block: Block },
}

/// `label { items }`.
pub struct Block {
    pub label: Seq<char>,
    pub items: Seq<Item>,
}

/// The tokens of an item.
pub open spec fn item_tokens(item: Item) -> Seq<Token>
    decreases item, 0int,
{
    match item {
        Item::Declaration { keys, dir, braces, body } => {
            if braces {
                keys_tokens(keys, 0) + seq![Token::Text(dir), Token::Symbol(Symbol::LeftCurly)]
                    + blocks_tokens(body, 0) + seq![Token::Symbol(Symbol::RightCurly)]
            } else {
                keys_tokens(keys, 0) + seq![Token::Text(dir), Token::Symbol(Symbol::SemiColon)]
            }
        },
        Item::Nested { block } => block_tokens(block),
    }
}

/// The tokens of the items from `from` on.
pub open spec fn items_tokens(items: Seq<Item>, from: int) -> Seq<Token>
    decreases items, items.len() - from,
{
    if from < 0 || from >= items.len() {
        Seq::empty()
    } else {
        item_tokens(items[from]) + items_tokens(items, from + 1)
    }
}

/// The tokens of a block.
pub open spec fn block_tokens(block: Block) -> Seq<Token>
    decreases block, 0int,
{
    seq![Token::Identifier(block.label), Token::Symbol(Symbol::LeftCurly)] + items_tokens(
        block.items,
        0,
    ) + seq![Token::Symbol(Symbol::RightCurly)]
}

/// The tokens of the blocks from `from` on.
pub open spec fn blocks_tokens(blocks: Seq<Block>, from: int) -> Seq<Token>
    decreases blocks, blocks.len() - from,
{
    if from < 0 || from >= blocks.len() {
        Seq::empty()
    } else {
        block_tokens(blocks[from]) + blocks_tokens(blocks, from + 1)
    }
}

/// The keys that the first `count` items claim, in their order.
pub open spec fn claimed(items: Seq<Item>, count: int) -> Seq<Seq<char>>
    decreases count,
{
    if count <= 0 {
        Seq::empty()
    } else {
        match items[count - 1] {
            Item::Declaration { keys, .. } => claimed(items, count - 1) + keys,
            Item::Nested { .. } => claimed(items, count - 1),
        }
    }
}

/// The rules that the declarations among the first `count` items make in a
/// block with the given label and strategy: one for each, with the rules of
/// its braces as sub-rules.
pub open spec fn declared(
    label: Seq<char>,
    strategy: RuleStrategy,
    items: Seq<Item>,
    count: int,
) -> Seq<RuleModel>
    decreases items, count,
{
    if count <= 0 || count > items.len() {
        Seq::empty()
    } else {
        match items[count - 1] {
            Item::Declaration { keys, dir, body, .. } => declared(
                label,
                strategy,
                items,
                count - 1,
            ).push(
                RuleModel {
                    src: label,
                    dir_name: dir,
                    strategy,
                    match_keys: keys,
                    sub_rules: blocks_meaning(body, 0),
                },
            ),
            Item::Nested { .. } => declared(label, strategy, items, count - 1),
        }
    }
}

/// The rules that the blocks among the first `count` items make.
pub open spec fn made_inside(items: Seq<Item>, count: int) -> Seq<RuleModel>
    decreases items, count,
{
    if count <= 0 || count > items.len() {
        Seq::empty()
    } else {
        match items[count - 1] {
            Item::Declaration { .. } => made_inside(items, count - 1),
            Item::Nested { block } => made_inside(items, count - 1) + block_meaning(block),
        }
    }
}

/// What is known of a block after its first `count` items.
pub open spec fn frame_after(block: Block, count: int) -> FrameModel
    decreases block, 1int,
{
    let strategy = strategy_of(block.label)->Some_0;
    FrameModel {
        kind: FrameKind::Block,
        label: block.label,
        strategy,
        seen: claimed(block.items, count),
        keys: Seq::empty(),
        dir: Seq::empty(),
        rules: declared(block.label, strategy, block.items, count),
        nested: made_inside(block.items, count),
    }
}

/// The rules that a block makes: one for each of its declarations, with the
/// rules of the blocks written directly in it behind the declaration's own
/// sub-rules; or, where it declares nothing, one rule without keys that
/// holds the rules of those blocks.
pub open spec fn block_meaning(block: Block) -> Seq<RuleModel>
    decreases block, 2int,
{
    block_rules(frame_after(block, block.items.len() as int))
}

/// The rules that the blocks from `from` on make, in their order.
pub open spec fn blocks_meaning(blocks: Seq<Block>, from: int) -> Seq<RuleModel>
    decreases blocks, blocks.len() - from,
{
    if from < 0 || from >= blocks.len() {
        Seq::empty()
    } else {
        block_meaning(blocks[from]) + blocks_meaning(blocks, from + 1)
    }
}

/// Whether an item is one of the language: a declaration has at least one
/// key, its keys are identifiers, its directory holds no quote, and the
/// blocks in its braces are valid; a block in a block is valid.
pub open spec fn valid_item(item: Item) -> bool
    decreases item, 0int,
{
    match item {
        Item::Declaration { keys, dir, braces, body } => {
            &&& keys.len() > 0
            &&& forall|i: int| 0 <= i < keys.len() ==> is_word(#[trigger] keys[i])
            &&& is_quotable(dir)
            &&& !braces ==> body.len() == 0
            &&& forall|i: int| 0 <= i < body.len() ==> valid_block(#[trigger] body[i])
        },
        Item::Nested { block } => valid_block(block),
    }
}

/// Whether a block is one of the language: its label names a strategy, its
/// items are valid, and no key is claimed twice in it.
pub open spec fn valid_block(block: Block) -> bool
    decreases block, 0int,
{
    &&& strategy_of(block.label) is Some
    &&& forall|i: int| 0 <= i < block.items.len() ==> valid_item(#[trigger] block.items[i])
    &&& claimed(block.items, block.items.len() as int).no_duplicates()
}

/// Whether a source is one of the language: all its blocks are valid.
pub open spec fn valid_source(blocks: Seq<Block>) -> bool {
    forall|i: int| 0 <= i < blocks.len() ==> valid_block(#[trigger] blocks[i])
}

/// The keys claimed by fewer items stand at the front of the keys claimed
/// by more.
proof fn lemma_claimed_prefix(items: Seq<Item>, fewer: int, more: int)
    requires
        0 <= fewer <= more,
    ensures
        claimed(items, fewer).len() <= claimed(items, more).len(),
        forall|j: int|
            0 <= j < claimed(items, fewer).len() ==> claimed(items, more)[j] == #[trigger] claimed(
                items,
                fewer,
            )[j],
    decreases more - fewer,
{
    if fewer < more {
        lemma_claimed_prefix(items, fewer, more - 1);
    }
}

/// What the items up to one claim has no key twice, if that holds of all
/// the items.
proof fn lemma_claimed_distinct(items: Seq<Item>, count: int)
    requires
        0 <= count <= items.len(),
        claimed(items, items.len() as int).no_duplicates(),
    ensures
        claimed(items, count).no_duplicates(),
{
    let all = claimed(items, items.len() as int);
    let some = claimed(items, count);
    lemma_claimed_prefix(items, count, items.len() as int);
    assert forall|i: int, j: int| 0 <= i < some.len() && 0 <= j < some.len() && i != j implies some[i]
        != some[j] by {
        assert(all[i] == some[i]);
        assert(all[j] == some[j]);
    }
}

/// The state inside `block` behind its first `count` items.
pub open spec fn inside(stack: Seq<FrameModel>, block: Block, count: int) -> ParserModel {
    ParserModel { mode: Mode::Decls, name: Seq::empty(), stack: stack.push(frame_after(block, count)) }
}

/// Reading one item of a block.
proof fn lemma_run_item(block: Block, at: int, rest: Seq<Token>, stack: Seq<FrameModel>)
    requires
        valid_block(block),
        0 <= at < block.items.len(),
        nested(stack),
    ensures
        run(item_tokens(block.items[at]) + rest, inside(stack, block, at)) == run(
            rest,
            inside(stack, block, at + 1),
        ),
    decreases block, 0int, 0int,
{
    let items = block.items;
    let item = items[at];
    let start = inside(stack, block, at);
    let frame = frame_after(block, at);
    let next = frame_after(block, at + 1);
    assert(valid_item(item));
    lemma_nested_push(stack, frame);
    match item {
        Item::Declaration { keys, dir, braces, body } => {
            let text = Token::Text(dir);
            let close = Token::Symbol(Symbol::RightCurly);
            let meaning = blocks_meaning(body, 0);
            lemma_claimed_distinct(items, at + 1);
            let keyed = with_keys(start.stack, frame.seen, keys, keys.len() as int, Mode::AfterArrow);
            assert(keys.take(keys.len() as int) =~= keys);
            let with_dir = FrameModel { dir, ..keyed.top() };
            let read = keyed.replace_top(with_dir, Mode::AfterDir);
            assert(keyed.step(text) == Ok::<ParserModel, ParseFailure>(read));
            let done = with_declared(with_dir, meaning);
            assert(done == next) by {
                assert(done.rules =~= next.rules);
                assert(done.seen =~= next.seen);
                assert(done.nested =~= next.nested);
            }
            if braces {
                let open = Token::Symbol(Symbol::LeftCurly);
                let inner = blocks_tokens(body, 0);
                let after_inner = seq![close] + rest;
                let after_open = inner + after_inner;
                let after_text = seq![open] + after_open;
                let after_keys = seq![text] + after_text;
                assert(item_tokens(item) + rest =~= keys_tokens(keys, 0) + after_keys);
                lemma_run_keys(keys, after_keys, start.stack);
                lemma_run_one(text, after_text, keyed);
                let body_open = read.open_body();
                lemma_run_one(open, after_open, read);
                assert(read.step(open) == Ok::<ParserModel, ParseFailure>(body_open));
                lemma_nested_replace(start.stack, with_dir);
                assert(read.stack =~= start.stack.drop_last().push(with_dir));
                lemma_nested_push(read.stack, body_open.top());
                lemma_run_blocks(body, 0, after_inner, body_open);
                let filled = with_rules(body_open, meaning);
                assert(filled.top().rules =~= meaning);
                lemma_run_one(close, rest, filled);
                assert(filled.step(close) == Ok::<ParserModel, ParseFailure>(
                    inside(stack, block, at + 1),
                )) by {
                    assert(filled.stack[filled.stack.len() - 2] == with_dir);
                    assert(filled.close_body().stack =~= inside(stack, block, at + 1).stack);
                }
            } else {
                let semi = Token::Symbol(Symbol::SemiColon);
                let after_text = seq![semi] + rest;
                let after_keys = seq![text] + after_text;
                assert(item_tokens(item) + rest =~= keys_tokens(keys, 0) + after_keys);
                lemma_run_keys(keys, after_keys, start.stack);
                lemma_run_one(text, after_text, keyed);
                lemma_run_one(semi, rest, read);
                assert(meaning =~= Seq::<RuleModel>::empty());
                assert(read.step(semi) == Ok::<ParserModel, ParseFailure>(
                    inside(stack, block, at + 1),
                )) by {
                    assert(read.step(semi)->Ok_0.stack =~= inside(stack, block, at + 1).stack);
                }
            }
        },
        Item::Nested { block: inner } => {
            lemma_run_block(inner, rest, start);
            let added = with_made(frame, block_meaning(inner));
            assert(added == next) by {
                assert(added.nested =~= next.nested);
            }
            assert(with_rules(start, block_meaning(inner)).stack =~= inside(
                stack,
                block,
                at + 1,
            ).stack);
        },
    }
}

/// Reading the items of a block from `from` on.
proof fn lemma_run_items(block: Block, from: int, rest: Seq<Token>, stack: Seq<FrameModel>)
    requires
        valid_block(block),
        0 <= from <= block.items.len(),
        nested(stack),
    ensures
        run(items_tokens(block.items, from) + rest, inside(stack, block, from)) == run(
            rest,
            inside(stack, block, block.items.len() as int),
        ),
    decreases block, 1int, block.items.len() - from,
{
    if from == block.items.len() {
        assert(items_tokens(block.items, from) + rest =~= rest);
    } else {
        let more = items_tokens(block.items, from + 1) + rest;
        assert(items_tokens(block.items, from) + rest =~= item_tokens(block.items[from]) + more);
        lemma_run_item(block, from, more, stack);
        lemma_run_items(block, from + 1, rest, stack);
    }
}

/// Reading a block: what it makes is added to what the innermost frame
/// holds.
proof fn lemma_run_block(block: Block, rest: Seq<Token>, state: ParserModel)
    requires
        valid_block(block),
        state.mode == list_mode(state),
        nested(state.stack),
    ensures
        run(block_tokens(block) + rest, state) == run(
            rest,
            with_rules(state, block_meaning(block)),
        ),
    decreases block, 2int, 0int,
{
    let strategy = strategy_of(block.label)->Some_0;
    let close = seq![Token::Symbol(Symbol::RightCurly)];
    let after_items = close + rest;
    let after_open = items_tokens(block.items, 0) + after_items;
    assert(block_tokens(block) + rest =~= seq![
        Token::Identifier(block.label),
        Token::Symbol(Symbol::LeftCurly),
    ] + after_open);
    lemma_run_open(block.label, strategy, after_open, state);
    assert(frame_after(block, 0) == empty_frame(FrameKind::Block, block.label, strategy));
    assert(opened(state.stack, block.label, strategy) == inside(state.stack, block, 0));
    lemma_run_items(block, 0, after_items, state.stack);
    lemma_run_close(frame_after(block, block.items.len() as int), rest, state);
}

/// Reading the blocks from `from` on: what they make is added, in order, to
/// what the innermost frame holds.
proof fn lemma_run_blocks(blocks: Seq<Block>, from: int, rest: Seq<Token>, state: ParserModel)
    requires
        0 <= from <= blocks.len(),
        forall|i: int| 0 <= i < blocks.len() ==> valid_block(#[trigger] blocks[i]),
        state.mode == list_mode(state),
        state.name == Seq::<char>::empty(),
        nested(state.stack),
    ensures
        run(blocks_tokens(blocks, from) + rest, state) == run(
            rest,
            with_rules(state, blocks_meaning(blocks, from)),
        ),
    decreases blocks, 0int, blocks.len() - from,
{
    let top = state.top();
    if from == blocks.len() {
        let none = blocks_meaning(blocks, from);
        assert(blocks_tokens(blocks, from) + rest =~= rest);
        assert(top.rules + none =~= top.rules);
        assert(top.nested + none =~= top.nested);
        assert(with_made(top, none) == top);
        assert(with_rules(state, none).stack =~= state.stack);
    } else {
        let block = blocks[from];
        let first = block_meaning(block);
        let others = blocks_meaning(blocks, from + 1);
        let more = blocks_tokens(blocks, from + 1) + rest;
        assert(blocks_tokens(blocks, from) + rest =~= block_tokens(block) + more);
        lemma_run_block(block, more, state);
        let added = with_rules(state, first);
        lemma_nested_replace(state.stack, added.top());
        lemma_run_blocks(blocks, from + 1, rest, added);
        assert(top.rules + first + others =~= top.rules + (first + others));
        assert(top.nested + first + others =~= top.nested + (first + others));
        assert(with_made(added.top(), others) == with_made(top, first + others));
        assert(with_rules(added, others).stack =~= with_rules(state, first + others).stack);
    }
}

/// The parser reads the tokens of a valid source as the root of the rules
/// that the source declares.
pub proof fn lemma_parse_source(blocks: Seq<Block>)
    requires
        valid_source(blocks),
    ensures
        parse_tokens(blocks_tokens(blocks, 0)) == Ok::<RuleModel, ParseFailure>(
            root_of(blocks_meaning(blocks, 0)),
        ),
{
    let tokens = blocks_tokens(blocks, 0);
    let start = initial();
    assert(nested(start.stack));
    lemma_run_blocks(blocks, 0, Seq::empty(), start);
    assert(tokens + Seq::<Token>::empty() =~= tokens);
    let end = with_rules(start, blocks_meaning(blocks, 0));
    assert(end.top().rules =~= blocks_meaning(blocks, 0));
}

/// The tokens of a valid item are tidy.
proof fn lemma_item_tidy(item: Item)
    requires
        valid_item(item),
    ensures
        tidy(item_tokens(item)),
    decreases item, 0int,
{
    match item {
        Item::Declaration { keys, dir, braces, body } => {
            lemma_keys_tidy(keys, 0);
            if braces {
                let open = seq![Token::Text(dir), Token::Symbol(Symbol::LeftCurly)];
                let close = seq![Token::Symbol(Symbol::RightCurly)];
                assert forall|i: int| 0 <= i < open.len() implies #[trigger] tidy_at(open, i) by {}
                assert forall|i: int| 0 <= i < close.len() implies #[trigger] tidy_at(
                    close,
                    i,
                ) by {}
                lemma_blocks_tidy(body, 0);
                lemma_tidy_concat(keys_tokens(keys, 0), open);
                lemma_tidy_concat(keys_tokens(keys, 0) + open, blocks_tokens(body, 0));
                lemma_tidy_concat(keys_tokens(keys, 0) + open + blocks_tokens(body, 0), close);
            } else {
                let end = seq![Token::Text(dir), Token::Symbol(Symbol::SemiColon)];
                assert forall|i: int| 0 <= i < end.len() implies #[trigger] tidy_at(end, i) by {}
                lemma_tidy_concat(keys_tokens(keys, 0), end);
            }
        },
        Item::Nested { block } => {
            lemma_block_tidy(block);
        },
    }
}

proof fn lemma_items_tidy(items: Seq<Item>, from: int)
    requires
        0 <= from,
        forall|i: int| 0 <= i < items.len() ==> valid_item(#[trigger] items[i]),
    ensures
        tidy(items_tokens(items, from)),
    decreases items, items.len() - from,
{
    if from < items.len() {
        lemma_item_tidy(items[from]);
        lemma_items_tidy(items, from + 1);
        lemma_tidy_concat(item_tokens(items[from]), items_tokens(items, from + 1));
    }
}

proof fn lemma_block_tidy(block: Block)
    requires
        valid_block(block),
    ensures
        tidy(block_tokens(block)),
    decreases block, 0int,
{
    let head = seq![Token::Identifier(block.label), Token::Symbol(Symbol::LeftCurly)];
    let close = seq![Token::Symbol(Symbol::RightCurly)];
    lemma_labels_are_words(strategy_of(block.label)->Some_0);
    assert forall|i: int| 0 <= i < head.len() implies #[trigger] tidy_at(head, i) by {}
    assert forall|i: int| 0 <= i < close.len() implies #[trigger] tidy_at(close, i) by {}
    lemma_items_tidy(block.items, 0);
    lemma_tidy_concat(head, items_tokens(block.items, 0));
    lemma_tidy_concat(head + items_tokens(block.items, 0), close);
}

/// The tokens of a valid source are tidy.
pub proof fn lemma_blocks_tidy(blocks: Seq<Block>, from: int)
    requires
        0 <= from,
        forall|i: int| 0 <= i < blocks.len() ==> valid_block(#[trigger] blocks[i]),
    ensures
        tidy(blocks_tokens(blocks, from)),
    decreases blocks, blocks.len() - from,
{
    if from < blocks.len() {
        lemma_block_tidy(blocks[from]);
        lemma_blocks_tidy(blocks, from + 1);
        lemma_tidy_concat(block_tokens(blocks[from]), blocks_tokens(blocks, from + 1));
    }
}

/// Every valid source compiles, however its tokens are laid out with
/// blanks, and what it compiles to is the root of the rules that it
/// declares.
pub proof fn lemma_source_compiles(blocks: Seq<Block>, gaps: Seq<Seq<char>>)
    requires
        valid_source(blocks),
        gaps_fit(gaps, blocks_tokens(blocks, 0).len()),
    ensures
        compile_text(spaced_text(blocks_tokens(blocks, 0), gaps, 0)) == Ok::<
            RuleModel,
            CompileFailure,
        >(root_of(blocks_meaning(blocks, 0))),
{
    let tokens = blocks_tokens(blocks, 0);
    let text = spaced_text(tokens, gaps, 0);
    let spaced = spaced_tokens(tokens, gaps, 0);
    lemma_blocks_tidy(blocks, 0);
    assert(text.skip(0) =~= text);
    lemma_lex_spaced(text, 0, tokens, gaps, 0);
    lemma_spaces_out(tokens, gaps, 0);
    assert(tokens.skip(0) =~= tokens);
    lemma_spaces_insignificant(spaced, initial());
    lemma_parse_source(blocks);
}

/// A valid source is stable under writing and reading: the tree that it
/// compiles to, written as text in any layout, compiles to the same tree.
pub proof fn lemma_source_stable(blocks: Seq<Block>, gaps: Seq<Seq<char>>, again: Seq<Seq<char>>)
    requires
        valid_source(blocks),
        gaps_fit(gaps, blocks_tokens(blocks, 0).len()),
        gaps_fit(again, rules_tokens(blocks_meaning(blocks, 0), 0).len()),
    ensures
        compile_text(
            spaced_text(rules_tokens(blocks_meaning(blocks, 0), 0), again, 0),
        ) == compile_text(spaced_text(blocks_tokens(blocks, 0), gaps, 0)),
{
    let root = root_of(blocks_meaning(blocks, 0));
    lemma_source_compiles(blocks, gaps);
    lemma_compiled_well_formed(spaced_text(blocks_tokens(blocks, 0), gaps, 0));
    lemma_layout_round_trip(root, again);
}

/// A block without items makes one rule: it has the block's label and
/// strategy, no key, no directory and no sub-rule.
pub proof fn lemma_empty_block(block: Block)
    requires
        block.items.len() == 0,
    ensures
        block_meaning(block) == seq![
            RuleModel {
                src: block.label,
                dir_name: Seq::empty(),
                strategy: strategy_of(block.label)->Some_0,
                match_keys: Seq::empty(),
                sub_rules: Seq::empty(),
            },
        ],
{
}

} // verus!

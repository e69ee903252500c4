//! Blanks between tokens: however a source text is laid out, it is read as
//! the same tokens, and so as the same rule tree.

use vstd::prelude::*;
use crate::chars::{char_class, classified, CharClass};
use crate::compile::{compile_text, CompileFailure};
use crate::lexer::{lex_from, next_quote, prefixed, run_end, text_between, LexError};
use crate::parser::without_spaces;
use crate::render::{rules_tokens, token_text};
use crate::round_trip::{lemma_parse_spaced, lemma_rules_tidy, tidy, tidy_at};
use crate::rules::{is_quotable, is_word, well_formed_root, RuleModel};
use crate::token::{Symbol, Token};

verus! {

/// Whether `gap` is made of blanks only; it may be empty.
pub open spec fn is_blank_run(gap: Seq<char>) -> bool {
    forall|i: int| 0 <= i < gap.len() ==> char_class(#[trigger] gap[i]) == CharClass::Whitespace
}

/// Whether `gaps` can stand around `count` tokens: one run of blanks before
/// each token and one behind the last.
pub open spec fn gaps_fit(gaps: Seq<Seq<char>>, count: nat) -> bool {
    &&& gaps.len() == count + 1
    &&& forall|i: int| 0 <= i < gaps.len() ==> is_blank_run(#[trigger] gaps[i])
}

/// The text of the tokens from `from` on with the gaps around them: the
/// gap at `i` stands before the token at `i`, the last gap at the end.
pub open spec fn spaced_text(tokens: Seq<Token>, gaps: Seq<Seq<char>>, from: int) -> Seq<char>
    decreases tokens.len() - from,
{
    if from < 0 || from >= tokens.len() {
        gaps[tokens.len() as int]
    } else {
        gaps[from] + token_text(tokens[from]) + spaced_text(tokens, gaps, from + 1)
    }
}

/// The space token that a gap is read as, if it is not empty.
pub open spec fn gap_tokens(gap: Seq<char>) -> Seq<Token> {
    if gap.len() > 0 {
        seq![Token::Space]
    } else {
        Seq::empty()
    }
}

/// The tokens from `from` on with a space token for every gap that is not
/// empty.
pub open spec fn spaced_tokens(tokens: Seq<Token>, gaps: Seq<Seq<char>>, from: int) -> Seq<Token>
    decreases tokens.len() - from,
{
    if from < 0 || from >= tokens.len() {
        gap_tokens(gaps[tokens.len() as int])
    } else {
        gap_tokens(gaps[from]) + seq![tokens[from]] + spaced_tokens(tokens, gaps, from + 1)
    }
}

proof fn lemma_run_end_exact(input: Seq<(char, CharClass)>, class: CharClass, from: int, end: int)
    requires
        0 <= from <= end <= input.len(),
        forall|k: int| from <= k < end ==> (#[trigger] input[k]).1 == class,
        end < input.len() ==> input[end].1 != class,
    ensures
        run_end(input, class, from) == end,
    decreases end - from,
{
    if from < end {
        lemma_run_end_exact(input, class, from + 1, end);
    }
}

proof fn lemma_next_quote_exact(input: Seq<(char, CharClass)>, from: int, end: int)
    requires
        0 <= from <= end < input.len(),
        forall|k: int| from <= k < end ==> (#[trigger] input[k]).1 != CharClass::Quote,
        input[end].1 == CharClass::Quote,
    ensures
        next_quote(input, from) == end,
    decreases end - from,
{
    if from < end {
        lemma_next_quote_exact(input, from + 1, end);
    }
}

/// Whether `part` stands in `text` at `pos`.
pub open spec fn stands_at(text: Seq<char>, pos: int, part: Seq<char>) -> bool {
    &&& 0 <= pos
    &&& pos + part.len() <= text.len()
    &&& forall|k: int| 0 <= k < part.len() ==> text[pos + k] == #[trigger] part[k]
}

/// The lexer reads a token where its text stands, if an identifier is not
/// followed by a letter or a digit.
pub proof fn lemma_lex_one(text: Seq<char>, pos: int, token: Token)
    requires
        stands_at(text, pos, token_text(token)),
        match token {
            Token::Identifier(word) => is_word(word) && (pos + word.len() < text.len()
                ==> char_class(text[pos + word.len()]) != CharClass::Alphanumeric),
            Token::Symbol(_) => true,
            Token::Text(quoted) => is_quotable(quoted),
            Token::Space => false,
        },
    ensures
        lex_from(classified(text), pos) == prefixed(
            seq![token],
            lex_from(classified(text), pos + token_text(token).len()),
        ),
{
    let input = classified(text);
    let here = token_text(token);
    match token {
        Token::Identifier(word) => {
            let end = pos + word.len();
            assert(word[0] == text[pos + 0]);
            assert forall|k: int| pos + 1 <= k < end implies (#[trigger] input[k]).1
                == CharClass::Alphanumeric by {
                assert(text[pos + (k - pos)] == word[k - pos]);
            }
            lemma_run_end_exact(input, CharClass::Alphanumeric, pos + 1, end);
            assert(text_between(input, pos, end) =~= word) by {
                assert forall|k: int| 0 <= k < word.len() implies text_between(input, pos, end)[k]
                    == word[k] by {
                    assert(text[pos + k] == word[k]);
                }
            }
        },
        Token::Symbol(symbol) => {
            assert(text[pos + 0] == here[0]);
            if symbol == Symbol::Arrow {
                assert(text[pos + 1] == here[1]);
            }
        },
        Token::Text(quoted) => {
            let end = pos + 1 + quoted.len();
            assert(text[pos + 0] == here[0]);
            assert(text[pos + (1 + quoted.len())] == here[1 + quoted.len() as int]);
            assert forall|k: int| pos + 1 <= k < end implies (#[trigger] input[k]).1
                != CharClass::Quote by {
                assert(text[pos + (k - pos)] == here[k - pos]);
                assert(here[k - pos] == quoted[k - pos - 1]);
            }
            lemma_next_quote_exact(input, pos + 1, end);
            assert(text_between(input, pos + 1, end) =~= quoted) by {
                assert forall|k: int| 0 <= k < quoted.len() implies text_between(
                    input,
                    pos + 1,
                    end,
                )[k] == quoted[k] by {
                    assert(text[pos + (1 + k)] == here[1 + k]);
                }
            }
        },
        Token::Space => {},
    }
}

/// The lexer reads a run of blanks as one space token, if no blank
/// follows it.
pub proof fn lemma_lex_gap(text: Seq<char>, pos: int, gap: Seq<char>)
    requires
        gap.len() > 0,
        is_blank_run(gap),
        stands_at(text, pos, gap),
        pos + gap.len() < text.len() ==> char_class(text[pos + gap.len()])
            != CharClass::Whitespace,
    ensures
        lex_from(classified(text), pos) == prefixed(
            seq![Token::Space],
            lex_from(classified(text), pos + gap.len()),
        ),
{
    let input = classified(text);
    let end = pos + gap.len();
    assert(gap[0] == text[pos + 0]);
    assert forall|k: int| pos + 1 <= k < end implies (#[trigger] input[k]).1
        == CharClass::Whitespace by {
        assert(text[pos + (k - pos)] == gap[k - pos]);
    }
    lemma_run_end_exact(input, CharClass::Whitespace, pos + 1, end);
}

/// The first character of the text of a tidy token is no blank, and that of
/// a punctuation mark is neither letter nor digit.
proof fn lemma_token_starts(tokens: Seq<Token>, i: int)
    requires
        0 <= i < tokens.len(),
        tidy_at(tokens, i),
    ensures
        token_text(tokens[i]).len() > 0,
        char_class(token_text(tokens[i])[0]) != CharClass::Whitespace,
        tokens[i] is Symbol ==> char_class(token_text(tokens[i])[0]) != CharClass::Alphanumeric,
{
}

/// The lexer reads a text that is laid out with blanks as the tokens with a
/// space for every gap: where `text` from `pos` on is the spaced text of
/// `tokens` from `from` on, it reads exactly those tokens and spaces.
pub proof fn lemma_lex_spaced(
    text: Seq<char>,
    pos: int,
    tokens: Seq<Token>,
    gaps: Seq<Seq<char>>,
    from: int,
)
    requires
        tidy(tokens),
        gaps_fit(gaps, tokens.len()),
        0 <= from <= tokens.len(),
        0 <= pos <= text.len(),
        text.skip(pos) == spaced_text(tokens, gaps, from),
    ensures
        lex_from(classified(text), pos) == Ok::<Seq<Token>, LexError>(
            spaced_tokens(tokens, gaps, from),
        ),
    decreases tokens.len() - from,
{
    let input = classified(text);
    let gap = gaps[from];
    let tail = text.skip(pos);
    assert(is_blank_run(gap));
    assert forall|k: int| 0 <= k < tail.len() implies text[pos + k] == tail[k] by {}
    if from == tokens.len() {
        if gap.len() > 0 {
            assert(stands_at(text, pos, gap));
            lemma_lex_gap(text, pos, gap);
            assert(seq![Token::Space] + Seq::<Token>::empty() =~= seq![Token::Space]);
        }
    } else {
        let token = tokens[from];
        let here = token_text(token);
        let rest = spaced_text(tokens, gaps, from + 1);
        let at = pos + gap.len();
        let after = at + here.len();
        assert(tidy_at(tokens, from));
        lemma_token_starts(tokens, from);
        assert(tail == gap + here + rest);
        assert forall|k: int| 0 <= k < gap.len() implies text[pos + k] == #[trigger] gap[k] by {
            assert(tail[k] == gap[k]);
        }
        assert forall|k: int| 0 <= k < here.len() implies text[at + k] == #[trigger] here[k] by {
            assert(tail[gap.len() + k] == here[k]);
        }
        assert forall|k: int| 0 <= k < rest.len() implies text[after + k] == rest[k] by {
            assert(tail[gap.len() + here.len() + k] == rest[k]);
        }
        assert(text.skip(after) =~= rest);
        lemma_lex_spaced(text, after, tokens, gaps, from + 1);
        if token is Identifier && after < text.len() {
            let next_gap = gaps[from + 1];
            assert(is_blank_run(next_gap));
            assert(text[after + 0] == rest[0]);
            if next_gap.len() > 0 {
                assert(rest[0] == next_gap[0]) by {
                    if from + 1 < tokens.len() {
                        assert(rest == next_gap + token_text(tokens[from + 1]) + spaced_text(
                            tokens,
                            gaps,
                            from + 2,
                        ));
                    }
                }
            } else {
                assert(from + 1 < tokens.len());
                assert(tidy_at(tokens, from + 1));
                lemma_token_starts(tokens, from + 1);
                assert(rest == next_gap + token_text(tokens[from + 1]) + spaced_text(
                    tokens,
                    gaps,
                    from + 2,
                ));
                assert(rest[0] == token_text(tokens[from + 1])[0]);
            }
        }
        assert(stands_at(text, at, here));
        lemma_lex_one(text, at, token);
        let read = spaced_tokens(tokens, gaps, from + 1);
        assert(seq![token] + read =~= Seq::<Token>::empty() + seq![token] + read);
        if gap.len() > 0 {
            assert(stands_at(text, pos, gap));
            assert(text[at] == here[0]) by {
                assert(text[at + 0] == here[0]);
            }
            lemma_lex_gap(text, pos, gap);
            assert(seq![Token::Space] + (seq![token] + read) =~= seq![Token::Space] + seq![
                token,
            ] + read);
        }
    }
}

/// Taking the spaces out of spaced tokens gives the tokens back.
pub proof fn lemma_spaces_out(tokens: Seq<Token>, gaps: Seq<Seq<char>>, from: int)
    requires
        tidy(tokens),
        0 <= from <= tokens.len(),
    ensures
        without_spaces(spaced_tokens(tokens, gaps, from)) == tokens.skip(from),
    decreases tokens.len() - from,
{
    reveal_with_fuel(without_spaces, 3);
    let spaced = spaced_tokens(tokens, gaps, from);
    if from == tokens.len() {
        assert(tokens.skip(from) =~= Seq::<Token>::empty());
    } else {
        let token = tokens[from];
        let read = spaced_tokens(tokens, gaps, from + 1);
        assert(tidy_at(tokens, from));
        lemma_spaces_out(tokens, gaps, from + 1);
        assert(seq![token] + tokens.skip(from + 1) =~= tokens.skip(from));
        let behind = seq![token] + read;
        assert(behind.first() == token);
        assert(behind.drop_first() =~= read);
        if gaps[from].len() > 0 {
            assert(spaced =~= seq![Token::Space] + behind);
            assert(spaced.first() == Token::Space);
            assert(spaced.drop_first() =~= behind);
        } else {
            assert(spaced =~= behind);
        }
    }
}

/// However the text of a well-formed tree is laid out with blanks between
/// its tokens, it compiles to that tree.
pub proof fn lemma_layout_round_trip(root: RuleModel, gaps: Seq<Seq<char>>)
    requires
        well_formed_root(root),
        gaps_fit(gaps, rules_tokens(root.sub_rules, 0).len()),
    ensures
        compile_text(spaced_text(rules_tokens(root.sub_rules, 0), gaps, 0)) == Ok::<
            RuleModel,
            CompileFailure,
        >(root),
{
    let tokens = rules_tokens(root.sub_rules, 0);
    let text = spaced_text(tokens, gaps, 0);
    lemma_rules_tidy(root.sub_rules, 0);
    assert(text.skip(0) =~= text);
    lemma_lex_spaced(text, 0, tokens, gaps, 0);
    lemma_spaces_out(tokens, gaps, 0);
    assert(tokens.skip(0) =~= tokens);
    lemma_parse_spaced(spaced_tokens(tokens, gaps, 0), root);
}

} // verus!

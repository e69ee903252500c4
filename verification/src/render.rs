//! Writing a rule tree back as source text.
//!
//! Every rule is written as a block of its own,
//! `LABEL{key,key=>'dir';}`, with its sub-rules, if it has any, in braces in
//! place of the semicolon. A rule without keys is written as a block
//! without declarations, `LABEL{}`, with its sub-rules directly in it. No
//! blanks are written.

use vstd::prelude::*;
use crate::rules::{lemma_sub_rules_view, Rule, RuleModel};
use crate::token::{Symbol, Token};

verus! {

/// The keys from `from` on as tokens: a comma behind each key but the last,
/// the arrow behind the last.
pub open spec fn keys_tokens(keys: Seq<Seq<char>>, from: int) -> Seq<Token>
    decreases keys.len() - from,
{
    if from < 0 || from >= keys.len() {
        Seq::empty()
    } else if from == keys.len() - 1 {
        seq![Token::Identifier(keys[from]), Token::Symbol(Symbol::Arrow)]
    } else {
        seq![Token::Identifier(keys[from]), Token::Symbol(Symbol::Comma)] + keys_tokens(
            keys,
            from + 1,
        )
    }
}

/// What stands behind the directory of a rule: a semicolon, or the
/// sub-rules in braces.
pub open spec fn body_tokens(rule: RuleModel) -> Seq<Token>
    decreases rule, 1int,
{
    if rule.sub_rules.len() == 0 {
        seq![Token::Symbol(Symbol::SemiColon)]
    } else {
        seq![Token::Symbol(Symbol::LeftCurly)] + rules_tokens(rule.sub_rules, 0)
            + seq![Token::Symbol(Symbol::RightCurly)]
    }
}

/// A rule as tokens: a block that holds the one declaration, or, for a
/// rule without keys, a block that holds the sub-rules.
pub open spec fn rule_tokens(rule: RuleModel) -> Seq<Token>
    decreases rule, 2int,
{
    if rule.match_keys.len() == 0 {
        seq![Token::Identifier(rule.src), Token::Symbol(Symbol::LeftCurly)] + rules_tokens(
            rule.sub_rules,
            0,
        ) + seq![Token::Symbol(Symbol::RightCurly)]
    } else {
        seq![Token::Identifier(rule.src), Token::Symbol(Symbol::LeftCurly)] + keys_tokens(
            rule.match_keys,
            0,
        ) + seq![Token::Text(rule.dir_name)] + body_tokens(rule)
            + seq![Token::Symbol(Symbol::RightCurly)]
    }
}

/// The rules from `from` on as tokens, one block after the other.
pub open spec fn rules_tokens(rules: Seq<RuleModel>, from: int) -> Seq<Token>
    decreases rules, rules.len() - from,
{
    if from < 0 || from >= rules.len() {
        Seq::empty()
    } else {
        rule_tokens(rules[from]) + rules_tokens(rules, from + 1)
    }
}

/// The characters of a punctuation mark.
pub open spec fn symbol_text(symbol: Symbol) -> Seq<char> {
    match symbol {
        Symbol::LeftCurly => seq!['{'],
        Symbol::RightCurly => seq!['}'],
        Symbol::Comma => seq![','],
        Symbol::Colon => seq![':'],
        Symbol::Arrow => seq!['=', '>'],
        Symbol::SemiColon => seq![';'],
    }
}

/// The characters of a token; a space stands for any run of blanks.
pub open spec fn token_text(token: Token) -> Seq<char> {
    match token {
        Token::Identifier(text) => text,
        Token::Symbol(symbol) => symbol_text(symbol),
        Token::Text(text) => seq!['\''] + text + seq!['\''],
        Token::Space => seq![' '],
    }
}

/// The characters of the tokens from `from` on, with nothing between them.
pub open spec fn tokens_text(tokens: Seq<Token>, from: int) -> Seq<char>
    decreases tokens.len() - from,
{
    if from < 0 || from >= tokens.len() {
        Seq::empty()
    } else {
        token_text(tokens[from]) + tokens_text(tokens, from + 1)
    }
}

/// The text of tokens behind other tokens is not changed by those.
pub proof fn lemma_text_shift(a: Seq<Token>, b: Seq<Token>, from: int)
    requires
        0 <= from <= b.len(),
    ensures
        tokens_text(a + b, a.len() + from) == tokens_text(b, from),
    decreases b.len() - from,
{
    if from < b.len() {
        lemma_text_shift(a, b, from + 1);
        assert((a + b)[a.len() + from] == b[from]);
    }
}

/// The text of two token sequences in a row is the text of the first
/// followed by the text of the second.
pub proof fn lemma_text_concat(a: Seq<Token>, b: Seq<Token>, from: int)
    requires
        0 <= from <= a.len(),
    ensures
        tokens_text(a + b, from) == tokens_text(a, from) + tokens_text(b, 0),
    decreases a.len() - from,
{
    if from < a.len() {
        lemma_text_concat(a, b, from + 1);
        assert((a + b)[from] == a[from]);
        assert(tokens_text(a + b, from) =~= tokens_text(a, from) + tokens_text(b, 0));
    } else {
        lemma_text_shift(a, b, 0);
        assert(tokens_text(a, from) + tokens_text(b, 0) =~= tokens_text(b, 0));
    }
}

/// The text of one token.
pub proof fn lemma_text_one(token: Token)
    ensures
        tokens_text(seq![token], 0) == token_text(token),
{
    reveal_with_fuel(tokens_text, 2);
    assert(token_text(token) + Seq::<char>::empty() =~= token_text(token));
}

/// The text of the keys from `from` on.
pub open spec fn keys_text(keys: Seq<Seq<char>>, from: int) -> Seq<char>
    decreases keys.len() - from,
{
    if from < 0 || from >= keys.len() {
        Seq::empty()
    } else if from == keys.len() - 1 {
        keys[from] + seq!['=', '>']
    } else {
        keys[from] + seq![','] + keys_text(keys, from + 1)
    }
}

/// The text of a rule.
pub open spec fn rule_text(rule: RuleModel) -> Seq<char>
    decreases rule, 2int,
{
    if rule.match_keys.len() == 0 {
        rule.src + seq!['{'] + rules_text(rule.sub_rules, 0) + seq!['}']
    } else {
        rule.src + seq!['{'] + keys_text(rule.match_keys, 0) + seq!['\''] + rule.dir_name
            + seq!['\''] + body_text(rule) + seq!['}']
    }
}

/// The text of what stands behind the directory of a rule.
pub open spec fn body_text(rule: RuleModel) -> Seq<char>
    decreases rule, 1int,
{
    if rule.sub_rules.len() == 0 {
        seq![';']
    } else {
        seq!['{'] + rules_text(rule.sub_rules, 0) + seq!['}']
    }
}

/// The text of the rules from `from` on.
pub open spec fn rules_text(rules: Seq<RuleModel>, from: int) -> Seq<char>
    decreases rules, rules.len() - from,
{
    if from < 0 || from >= rules.len() {
        Seq::empty()
    } else {
        rule_text(rules[from]) + rules_text(rules, from + 1)
    }
}

/// The source text of the rule set below `root`.
pub open spec fn render_text(root: RuleModel) -> Seq<char> {
    rules_text(root.sub_rules, 0)
}

/// The text of the key tokens is the text of the keys.
pub proof fn lemma_keys_text(keys: Seq<Seq<char>>, from: int)
    requires
        0 <= from,
    ensures
        tokens_text(keys_tokens(keys, from), 0) == keys_text(keys, from),
    decreases keys.len() - from,
{
    if from >= keys.len() {
    } else {
        let key = Token::Identifier(keys[from]);
        if from == keys.len() - 1 {
            reveal_with_fuel(tokens_text, 3);
            assert(tokens_text(keys_tokens(keys, from), 0) =~= keys_text(keys, from));
        } else {
            let head = seq![key, Token::Symbol(Symbol::Comma)];
            lemma_keys_text(keys, from + 1);
            lemma_text_concat(head, keys_tokens(keys, from + 1), 0);
            assert(tokens_text(head, 0) =~= keys[from] + seq![',']) by {
                reveal_with_fuel(tokens_text, 3);
            }
            assert(tokens_text(keys_tokens(keys, from), 0) =~= keys_text(keys, from));
        }
    }
}

/// The text of a rule's tokens is the text of the rule.
pub proof fn lemma_rule_text(rule: RuleModel)
    ensures
        tokens_text(rule_tokens(rule), 0) == rule_text(rule),
    decreases rule, 2int,
{
    let head = seq![Token::Identifier(rule.src), Token::Symbol(Symbol::LeftCurly)];
    let keys = keys_tokens(rule.match_keys, 0);
    let dir = seq![Token::Text(rule.dir_name)];
    let body = body_tokens(rule);
    let close = seq![Token::Symbol(Symbol::RightCurly)];
    lemma_text_one(Token::Symbol(Symbol::RightCurly));
    assert(tokens_text(head, 0) =~= rule.src + seq!['{']) by {
        reveal_with_fuel(tokens_text, 3);
    }
    if rule.match_keys.len() == 0 {
        let inner = rules_tokens(rule.sub_rules, 0);
        lemma_text_concat(head + inner, close, 0);
        lemma_text_concat(head, inner, 0);
        lemma_rules_text(rule.sub_rules, 0);
    } else {
        lemma_text_concat(head + keys + dir + body, close, 0);
        lemma_text_concat(head + keys + dir, body, 0);
        lemma_text_concat(head + keys, dir, 0);
        lemma_text_concat(head, keys, 0);
        lemma_keys_text(rule.match_keys, 0);
        lemma_body_text(rule);
        lemma_text_one(Token::Text(rule.dir_name));
    }
    assert(tokens_text(rule_tokens(rule), 0) =~= rule_text(rule));
}

/// The text of the tokens behind a rule's directory.
pub proof fn lemma_body_text(rule: RuleModel)
    ensures
        tokens_text(body_tokens(rule), 0) == body_text(rule),
    decreases rule, 1int,
{
    if rule.sub_rules.len() == 0 {
        lemma_text_one(Token::Symbol(Symbol::SemiColon));
    } else {
        let open = seq![Token::Symbol(Symbol::LeftCurly)];
        let inner = rules_tokens(rule.sub_rules, 0);
        let close = seq![Token::Symbol(Symbol::RightCurly)];
        lemma_text_concat(open + inner, close, 0);
        lemma_text_concat(open, inner, 0);
        lemma_rules_text(rule.sub_rules, 0);
        lemma_text_one(Token::Symbol(Symbol::LeftCurly));
        lemma_text_one(Token::Symbol(Symbol::RightCurly));
    }
}

/// The text of the tokens of a list of rules is the text of the rules.
pub proof fn lemma_rules_text(rules: Seq<RuleModel>, from: int)
    requires
        0 <= from,
    ensures
        tokens_text(rules_tokens(rules, from), 0) == rules_text(rules, from),
    decreases rules, rules.len() - from,
{
    if from < rules.len() {
        lemma_rule_text(rules[from]);
        lemma_rules_text(rules, from + 1);
        lemma_text_concat(rule_tokens(rules[from]), rules_tokens(rules, from + 1), 0);
    }
}

fn write_keys(out: &mut String, keys: &Vec<String>)
    ensures
        final(out)@ == old(out)@ + keys_text(keys.deep_view(), 0),
{
    let n = keys.len();
    let mut i: usize = 0;
    assert(old(out)@ + Seq::<char>::empty() =~= old(out)@);
    while i < n
        invariant
            i <= n,
            n == keys@.len(),
            out@ + keys_text(keys.deep_view(), i as int) == old(out)@ + keys_text(
                keys.deep_view(),
                0,
            ),
        decreases n - i,
    {
        let ghost before = out@;
        assert(keys.deep_view()[i as int] == keys@[i as int]@);
        out.append(keys[i].as_str());
        if i + 1 < n {
            out.push(',');
            assert(out@ + keys_text(keys.deep_view(), i + 1) =~= before + keys_text(
                keys.deep_view(),
                i as int,
            ));
        } else {
            out.push('=');
            out.push('>');
            assert(out@ + keys_text(keys.deep_view(), i + 1) =~= before + keys_text(
                keys.deep_view(),
                i as int,
            ));
        }
        i += 1;
    }
    assert(out@ + Seq::<char>::empty() =~= out@);
}

fn write_rule(out: &mut String, rule: &Rule)
    ensures
        final(out)@ == old(out)@ + rule_text(rule@),
    decreases rule, 2int,
{
    proof {
        lemma_sub_rules_view(*rule);
    }
    out.append(rule.src.as_str());
    out.push('{');
    if rule.match_keys.len() == 0 {
        write_rules(out, &rule.sub_rules, 0);
    } else {
        write_keys(out, &rule.match_keys);
        out.push('\'');
        out.append(rule.dir_name.as_str());
        out.push('\'');
        let ghost before_body = out@;
        if rule.sub_rules.len() == 0 {
            out.push(';');
        } else {
            out.push('{');
            write_rules(out, &rule.sub_rules, 0);
            out.push('}');
        }
        assert(out@ =~= before_body + body_text(rule@));
    }
    out.push('}');
    assert(out@ =~= old(out)@ + rule_text(rule@));
}

fn write_rules(out: &mut String, rules: &Vec<Rule>, from: usize)
    requires
        from <= rules@.len(),
    ensures
        final(out)@ == old(out)@ + rules_text(rules.deep_view(), from as int),
    decreases rules, rules@.len() - from,
{
    if from < rules.len() {
        assert(rules.deep_view()[from as int] == rules@[from as int]@);
        write_rule(out, &rules[from]);
        write_rules(out, rules, from + 1);
        assert(out@ =~= old(out)@ + rules_text(rules.deep_view(), from as int));
    } else {
        assert(out@ =~= old(out)@ + rules_text(rules.deep_view(), from as int));
    }
}

/// Writes the rule set below `root` as source text.
pub fn render(root: &Rule) -> (text: String)
    ensures
        text@ == render_text(root@),
{
    let mut text = String::new();
    proof {
        lemma_sub_rules_view(*root);
    }
    write_rules(&mut text, &root.sub_rules, 0);
    assert(text@ =~= render_text(root@));
    text
}

} // verus!

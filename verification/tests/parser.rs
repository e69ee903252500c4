use file_organizer::compile::{compile, rules_for, CompileError};
use file_organizer::defaults::default_ruleset;
use file_organizer::lexer::{tokenize, LexError};
use file_organizer::parser::{parse, ParseError, TokenClass};
use file_organizer::rules::{Rule, RuleStrategy};
use file_organizer::token::{Symbol, TokenKind};

fn texts(items: &[&str]) -> Vec<String> {
    items.iter().map(|s| s.to_string()).collect()
}

fn rule(src: &str, strategy: RuleStrategy, keys: &[&str], dir: &str, sub_rules: Vec<Rule>) -> Rule {
    Rule {
        src: src.to_string(),
        dir_name: dir.to_string(),
        strategy,
        match_keys: texts(keys),
        sub_rules,
    }
}

fn root(sub_rules: Vec<Rule>) -> Rule {
    rule("", RuleStrategy::ByExt, &[], "", sub_rules)
}

fn parse_source(source: &str) -> Result<Rule, ParseError> {
    parse(&tokenize(source).unwrap())
}

fn unexpected(expected: TokenClass, found: Option<TokenKind>) -> ParseError {
    ParseError::UnexpectedToken { expected, found }
}

#[test]
fn from_src_compiles_the_source() {
    assert_eq!(Rule::from_src(String::new()), Ok(root(vec![])));
    assert_eq!(
        Rule::from_src("EXT { }".to_string()),
        Ok(root(vec![rule("EXT", RuleStrategy::ByExt, &[], "", vec![])]))
    );
    assert_eq!(
        Rule::from_src("DATE { 2020 => 'Archive'; }".to_string()),
        Ok(root(vec![rule(
            "DATE",
            RuleStrategy::ByModifiedDate,
            &["2020"],
            "Archive",
            vec![]
        )]))
    );
    assert_eq!(
        Rule::from_src("EXT { pdf,doc => 'D'; jpg => 'I'; }".to_string()),
        Ok(root(vec![
            rule("EXT", RuleStrategy::ByExt, &["pdf", "doc"], "D", vec![]),
            rule("EXT", RuleStrategy::ByExt, &["jpg"], "I", vec![]),
        ]))
    );
}

#[test]
fn from_src_gives_the_first_error_and_no_tree() {
    assert_eq!(
        Rule::from_src("EXT { pdf => 'A'; pdf => 'B'; }".to_string()),
        Err(CompileError::Parse(ParseError::DuplicateKey("pdf".to_string())))
    );
    assert_eq!(
        Rule::from_src("ext { }".to_string()),
        Err(CompileError::Parse(ParseError::UnknownStrategy("ext".to_string())))
    );
    assert_eq!(
        Rule::from_src("EXT { pdf => 'A';".to_string()),
        Err(CompileError::Parse(ParseError::MissingClosingBrace))
    );
    assert_eq!(
        Rule::from_src("EXT { pdf => 'A' }".to_string()),
        Err(CompileError::Parse(ParseError::MissingSemicolon))
    );
    assert_eq!(
        Rule::from_src("EXT { pdf => 'A }".to_string()),
        Err(CompileError::Lex(LexError::UnterminatedString))
    );
}

#[test]
fn from_src_does_not_mind_the_layout() {
    let dense = Rule::from_src("EXT{pdf,doc=>'D'{DATE{2020=>'Old';}}}".to_string());
    let spaced = Rule::from_src(
        "\n EXT \t{ pdf ,\r\n doc => 'D' { DATE { 2020 => 'Old' ; } } }  ".to_string(),
    );
    assert!(dense.is_ok());
    assert_eq!(dense, spaced);
    assert_eq!(
        Rule::from_src(" EXT { a => 'A' } ".to_string()),
        Rule::from_src("EXT{a=>'A'}".to_string())
    );
}

#[test]
fn from_src_reads_back_what_render_writes() {
    let first = Rule::from_src("EXT { a, b => 'A'; DATE { 2020 => 'Old'; } } SIZE { }".to_string())
        .unwrap();
    assert_eq!(Rule::from_src(file_organizer::render::render(&first)), Ok(first));
}

#[test]
fn duplicate_copies_the_whole_tree() {
    let tree = parse_source("EXT { a, b => 'A' { DATE { 2020 => 'Old' { SIZE { } } } } }").unwrap();
    let copy = tree.duplicate();
    assert_eq!(copy, tree);
    assert_eq!(copy.sub_rules[0].sub_rules[0].sub_rules[0].src, "SIZE");
    assert_eq!(root(vec![]).duplicate(), root(vec![]));
}

#[test]
fn parse_no_tokens_gives_an_empty_root() {
    assert_eq!(parse(&vec![]), Ok(root(vec![])));
    assert_eq!(parse_source("  \n "), Ok(root(vec![])));
}

#[test]
fn parse_empty_block() {
    let tree = parse_source("EXT { }").unwrap();
    assert_eq!(tree.sub_rules.len(), 1);
    let block = &tree.sub_rules[0];
    assert_eq!(block.src, "EXT");
    assert_eq!(block.strategy, RuleStrategy::ByExt);
    assert_eq!(block.dir_name, "");
    assert!(block.match_keys.is_empty());
    assert!(block.sub_rules.is_empty());
    assert_eq!(tree, root(vec![rule("EXT", RuleStrategy::ByExt, &[], "", vec![])]));
}

#[test]
fn parse_empty_blocks_keep_their_order() {
    assert_eq!(
        parse_source("SIZE { } EXT { a => 'A'; } DATE { }"),
        Ok(root(vec![
            rule("SIZE", RuleStrategy::BySize, &[], "", vec![]),
            rule("EXT", RuleStrategy::ByExt, &["a"], "A", vec![]),
            rule("DATE", RuleStrategy::ByModifiedDate, &[], "", vec![]),
        ]))
    );
}

#[test]
fn parse_block_with_two_declarations() {
    let source = "EXT {\n pdf,doc,docx => 'Documents';\n mp3,mp4 => 'Music';\n}";
    assert_eq!(
        parse_source(source),
        Ok(root(vec![
            rule("EXT", RuleStrategy::ByExt, &["pdf", "doc", "docx"], "Documents", vec![]),
            rule("EXT", RuleStrategy::ByExt, &["mp3", "mp4"], "Music", vec![]),
        ]))
    );
}

#[test]
fn parse_every_strategy_label() {
    let source = "EXT{a=>'1';}DATE{2020=>'2';}NAME{README=>'3';}SIZE{MB=>'4';}";
    assert_eq!(
        parse_source(source),
        Ok(root(vec![
            rule("EXT", RuleStrategy::ByExt, &["a"], "1", vec![]),
            rule("DATE", RuleStrategy::ByModifiedDate, &["2020"], "2", vec![]),
            rule("NAME", RuleStrategy::ByFileName, &["README"], "3", vec![]),
            rule("SIZE", RuleStrategy::BySize, &["MB"], "4", vec![]),
        ]))
    );
}

#[test]
fn parse_blanks_do_not_matter() {
    let spaced = parse_source(" EXT { pdf , doc => 'Documents' ; } ");
    let dense = parse_source("EXT{pdf,doc=>'Documents';}");
    assert_eq!(spaced, dense);
    assert!(spaced.is_ok());
}

#[test]
fn parse_sub_rules_in_braces() {
    let source = "EXT { pdf => 'Documents' { DATE { 2020 => 'Archive'; } } }";
    assert_eq!(
        parse_source(source),
        Ok(root(vec![rule(
            "EXT",
            RuleStrategy::ByExt,
            &["pdf"],
            "Documents",
            vec![rule("DATE", RuleStrategy::ByModifiedDate, &["2020"], "Archive", vec![])],
        )]))
    );
}

#[test]
fn parse_block_inside_a_block_goes_below_what_the_block_declares() {
    let source = "EXT { pdf => 'Documents'; DATE { 2020 => 'Old'; } }";
    assert_eq!(
        parse_source(source),
        Ok(root(vec![rule(
            "EXT",
            RuleStrategy::ByExt,
            &["pdf"],
            "Documents",
            vec![rule("DATE", RuleStrategy::ByModifiedDate, &["2020"], "Old", vec![])],
        )]))
    );
}

#[test]
fn parse_block_inside_a_block_goes_below_every_declaration() {
    let source = "EXT { pdf => 'Documents'; DATE { 2020 => 'Archive'; } txt => 'Notes'; }";
    assert_eq!(
        parse_source(source),
        Ok(root(vec![
            rule(
                "EXT",
                RuleStrategy::ByExt,
                &["pdf"],
                "Documents",
                vec![rule("DATE", RuleStrategy::ByModifiedDate, &["2020"], "Archive", vec![])],
            ),
            rule(
                "EXT",
                RuleStrategy::ByExt,
                &["txt"],
                "Notes",
                vec![rule("DATE", RuleStrategy::ByModifiedDate, &["2020"], "Archive", vec![])],
            ),
        ]))
    );
}

#[test]
fn parse_block_inside_a_block_comes_behind_the_declaration_s_own_sub_rules() {
    let source = "SIZE { KB => 'Small'; } EXT { DATE { } pdf => 'D' { NAME { a => 'A'; } } SIZE { MB => 'M'; } }";
    assert_eq!(
        parse_source(source),
        Ok(root(vec![
            rule("SIZE", RuleStrategy::BySize, &["KB"], "Small", vec![]),
            rule(
                "EXT",
                RuleStrategy::ByExt,
                &["pdf"],
                "D",
                vec![
                    rule("NAME", RuleStrategy::ByFileName, &["a"], "A", vec![]),
                    rule("DATE", RuleStrategy::ByModifiedDate, &[], "", vec![]),
                    rule("SIZE", RuleStrategy::BySize, &["MB"], "M", vec![]),
                ],
            ),
        ]))
    );
}

#[test]
fn parse_block_with_blocks_only_makes_a_rule_without_keys() {
    assert_eq!(
        parse_source("EXT { DATE { 2020 => 'Old'; } NAME { } }"),
        Ok(root(vec![rule(
            "EXT",
            RuleStrategy::ByExt,
            &[],
            "",
            vec![
                rule("DATE", RuleStrategy::ByModifiedDate, &["2020"], "Old", vec![]),
                rule("NAME", RuleStrategy::ByFileName, &[], "", vec![]),
            ],
        )]))
    );
}

#[test]
fn parse_duplicate_key_in_one_block() {
    assert_eq!(
        parse_source("EXT { pdf => 'A'; pdf => 'B'; }"),
        Err(ParseError::DuplicateKey("pdf".to_string()))
    );
    assert_eq!(
        compile("EXT { pdf => 'A'; pdf => 'B'; }"),
        Err(CompileError::Parse(ParseError::DuplicateKey("pdf".to_string())))
    );
}

#[test]
fn parse_duplicate_key_in_one_list() {
    assert_eq!(
        parse_source("EXT { doc, pdf, doc => 'A'; }"),
        Err(ParseError::DuplicateKey("doc".to_string()))
    );
}

#[test]
fn parse_same_key_in_two_blocks_is_no_duplicate() {
    assert_eq!(
        parse_source("EXT { pdf => 'A'; } EXT { pdf => 'B'; }"),
        Ok(root(vec![
            rule("EXT", RuleStrategy::ByExt, &["pdf"], "A", vec![]),
            rule("EXT", RuleStrategy::ByExt, &["pdf"], "B", vec![]),
        ]))
    );
    assert!(parse_source("EXT { pdf => 'A' { EXT { pdf => 'B'; } } }").is_ok());
    assert!(parse_source("EXT { pdf => 'A'; EXT { pdf => 'B'; } }").is_ok());
}

#[test]
fn parse_unknown_strategy() {
    assert_eq!(
        parse_source("KIND { a => 'b'; }"),
        Err(ParseError::UnknownStrategy("KIND".to_string()))
    );
    assert_eq!(
        parse_source("ext { a => 'b'; }"),
        Err(ParseError::UnknownStrategy("ext".to_string()))
    );
    assert_eq!(
        parse_source("EXT { pdf { } }"),
        Err(ParseError::UnknownStrategy("pdf".to_string()))
    );
}

#[test]
fn parse_unexpected_token() {
    assert_eq!(
        parse_source("EXT pdf"),
        Err(unexpected(
            TokenClass::Symbol(Symbol::LeftCurly),
            Some(TokenKind::Identifier("pdf".to_string()))
        ))
    );
    assert_eq!(
        parse_source("EXT { ; }"),
        Err(unexpected(TokenClass::Identifier, Some(TokenKind::Symbol(Symbol::SemiColon))))
    );
    assert_eq!(
        parse_source("EXT { pdf 'x'; }"),
        Err(unexpected(
            TokenClass::Symbol(Symbol::Arrow),
            Some(TokenKind::String("x".to_string()))
        ))
    );
    assert_eq!(
        parse_source("EXT { pdf, => 'x'; }"),
        Err(unexpected(TokenClass::Identifier, Some(TokenKind::Symbol(Symbol::Arrow))))
    );
    assert_eq!(
        parse_source("EXT { pdf, doc ; }"),
        Err(unexpected(
            TokenClass::Symbol(Symbol::Arrow),
            Some(TokenKind::Symbol(Symbol::SemiColon))
        ))
    );
    assert_eq!(
        parse_source("EXT { pdf => docs; }"),
        Err(unexpected(
            TokenClass::QuotedString,
            Some(TokenKind::Identifier("docs".to_string()))
        ))
    );
    assert_eq!(
        parse_source("EXT { pdf => 'x' { ; } }"),
        Err(unexpected(TokenClass::Identifier, Some(TokenKind::Symbol(Symbol::SemiColon))))
    );
}

#[test]
fn parse_unexpected_end_of_input() {
    assert_eq!(
        parse_source("EXT"),
        Err(unexpected(TokenClass::Symbol(Symbol::LeftCurly), None))
    );
    assert_eq!(
        parse_source("EXT { pdf"),
        Err(unexpected(TokenClass::Symbol(Symbol::Arrow), None))
    );
    assert_eq!(
        parse_source("EXT { pdf, doc"),
        Err(unexpected(TokenClass::Symbol(Symbol::Arrow), None))
    );
    assert_eq!(parse_source("EXT { pdf,"), Err(unexpected(TokenClass::Identifier, None)));
    assert_eq!(parse_source("EXT { pdf =>"), Err(unexpected(TokenClass::QuotedString, None)));
}

#[test]
fn parse_missing_closing_brace() {
    assert_eq!(parse_source("EXT {"), Err(ParseError::MissingClosingBrace));
    assert_eq!(parse_source("EXT { pdf => 'x';"), Err(ParseError::MissingClosingBrace));
    assert_eq!(parse_source("EXT { pdf => 'x' {"), Err(ParseError::MissingClosingBrace));
    assert_eq!(
        parse_source("EXT { pdf => 'x' { DATE { } }"),
        Err(ParseError::MissingClosingBrace)
    );
}

#[test]
fn parse_missing_semicolon() {
    assert_eq!(parse_source("EXT { pdf => 'x' }"), Err(ParseError::MissingSemicolon));
    assert_eq!(
        parse_source("EXT { pdf => 'x' doc => 'y'; }"),
        Err(ParseError::MissingSemicolon)
    );
    assert_eq!(parse_source("EXT { pdf => 'x'"), Err(ParseError::MissingSemicolon));
}

#[test]
fn parse_ignores_what_follows_the_rule_sets() {
    let expected = root(vec![rule("EXT", RuleStrategy::ByExt, &["a"], "A", vec![])]);
    assert_eq!(parse_source("EXT { a => 'A'; } ; => 'junk' {"), Ok(expected));
    assert_eq!(parse_source("} EXT { a => 'A'; }"), Ok(root(vec![])));
    assert_eq!(parse_source(", EXT UNKNOWN"), Ok(root(vec![])));
}

#[test]
fn parse_reports_the_first_error() {
    assert_eq!(
        parse_source("EXT { a => 'A'; a => 'B'; } KIND { }"),
        Err(ParseError::DuplicateKey("a".to_string()))
    );
    assert_eq!(
        parse_source("KIND { a => 'A'; a => 'B'; }"),
        Err(ParseError::UnknownStrategy("KIND".to_string()))
    );
}

#[test]
fn compile_reports_lexer_errors_first() {
    assert_eq!(
        compile("KIND { a => 'unclosed }"),
        Err(CompileError::Lex(LexError::UnterminatedString))
    );
    assert_eq!(
        compile("EXT { a -> 'A'; }"),
        Err(CompileError::Lex(LexError::UnexpectedChar('-')))
    );
}

#[test]
fn compile_equals_parse_after_tokenize() {
    let source = "SIZE { KB, MB => 'Small'; GB => 'Large'; }";
    assert_eq!(compile(source).ok(), parse_source(source).ok());
    assert!(compile(source).is_ok());
}

#[test]
fn rules_for_no_source_is_the_built_in_rule_set() {
    assert_eq!(rules_for(None), Ok(default_ruleset()));
}

#[test]
fn rules_for_a_source_compiles_it() {
    assert_eq!(
        rules_for(Some("EXT { a => 'A'; }")),
        Ok(root(vec![rule("EXT", RuleStrategy::ByExt, &["a"], "A", vec![])]))
    );
}

#[test]
fn rules_for_a_bad_source_does_not_fall_back() {
    assert_eq!(
        rules_for(Some("EXT { a => 'A' }")),
        Err(CompileError::Parse(ParseError::MissingSemicolon))
    );
    assert_eq!(rules_for(Some("?")), Err(CompileError::Lex(LexError::UnexpectedChar('?'))));
}

#[test]
fn strategy_labels() {
    assert_eq!(RuleStrategy::ByExt.label(), "EXT");
    assert_eq!(RuleStrategy::ByModifiedDate.label(), "DATE");
    assert_eq!(RuleStrategy::ByFileName.label(), "NAME");
    assert_eq!(RuleStrategy::BySize.label(), "SIZE");
    assert_eq!(RuleStrategy::from_label(&"EXT".to_string()), Some(RuleStrategy::ByExt));
    assert_eq!(
        RuleStrategy::from_label(&"DATE".to_string()),
        Some(RuleStrategy::ByModifiedDate)
    );
    assert_eq!(RuleStrategy::from_label(&"NAME".to_string()), Some(RuleStrategy::ByFileName));
    assert_eq!(RuleStrategy::from_label(&"SIZE".to_string()), Some(RuleStrategy::BySize));
    assert_eq!(RuleStrategy::from_label(&"Size".to_string()), None);
    assert_eq!(RuleStrategy::from_label(&"".to_string()), None);
}

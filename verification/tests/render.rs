use file_organizer::compile::compile;
use file_organizer::defaults::default_ruleset;
use file_organizer::lexer::tokenize;
use file_organizer::parser::parse;
use file_organizer::render::render;
use file_organizer::rules::Rule;

#[test]
fn render_an_empty_rule_set() {
    assert_eq!(render(&Rule::from_src(String::new()).unwrap()), "");
    assert_eq!(render(&compile("").unwrap()), "");
}

#[test]
fn render_the_built_in_rule_set() {
    assert_eq!(
        render(&default_ruleset()),
        "EXT{pdf,doc,docx,xls,xlsx,ppt,pptx,txt=>'Documents';}\
         EXT{jpg,jpeg,png,gif=>'Images';}\
         EXT{mp4,mkv,avi=>'Videos';}\
         EXT{mp3,wav=>'Music';}"
    );
}

#[test]
fn render_blocks_without_declarations() {
    assert_eq!(render(&compile("EXT { } DATE { }").unwrap()), "EXT{}DATE{}");
    assert_eq!(
        render(&compile("NAME { SIZE { } EXT { a => 'A'; } }").unwrap()),
        "NAME{SIZE{}EXT{a=>'A';}}"
    );
}

#[test]
fn round_trip_of_blocks_in_blocks() {
    let source = "EXT { pdf => 'D'; txt => 'T'; DATE { 2020 => 'Old'; } } NAME { SIZE { } }";
    let first = compile(source).unwrap();
    let text = render(&first);
    assert_eq!(
        text,
        "EXT{pdf=>'D'{DATE{2020=>'Old';}}}EXT{txt=>'T'{DATE{2020=>'Old';}}}NAME{SIZE{}}"
    );
    assert_eq!(compile(&text), Ok(first));
}

#[test]
fn render_sub_rules_in_braces() {
    let rules =
        compile("EXT { pdf => 'Documents' { DATE { 2020 => 'Archive'; } } }").unwrap();
    assert_eq!(render(&rules), "EXT{pdf=>'Documents'{DATE{2020=>'Archive';}}}");
}

#[test]
fn round_trip_of_the_built_in_rule_set() {
    let rules = default_ruleset();
    assert_eq!(compile(&render(&rules)), Ok(rules));
}

#[test]
fn round_trip_keeps_keys_directories_and_nesting() {
    let source = "
        EXT {
            pdf, doc => 'My Documents' {
                DATE { 2019, 2020 => 'Old' { SIZE { GB => 'Huge'; } } 2021 => 'New'; }
                NAME { README => 'Read Me'; }
            }
            caf\u{e9} => 'Bo\u{ee}te';
        }
        SIZE { B => ''; }
    ";
    let first = compile(source).unwrap();
    let text = render(&first);
    let second = compile(&text).unwrap();
    assert_eq!(first, second);
    assert_eq!(render(&second), text);
    assert_eq!(
        text,
        "EXT{pdf,doc=>'My Documents'{DATE{2019,2020=>'Old'{SIZE{GB=>'Huge';}}}\
         DATE{2021=>'New';}NAME{README=>'Read Me';}}}\
         EXT{caf\u{e9}=>'Bo\u{ee}te';}SIZE{B=>'';}"
    );
}

#[test]
fn rendered_text_has_the_tokens_of_the_tree() {
    let rules = compile("DATE{2020=>'Archive';}").unwrap();
    let tokens = tokenize(&render(&rules)).unwrap();
    assert_eq!(tokens.len(), 7);
    assert_eq!(parse(&tokens), Ok(rules));
}

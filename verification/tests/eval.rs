use file_organizer::calendar::{decimal_string, year_of};
use file_organizer::compile::compile;
use file_organizer::defaults::{category_for, default_ruleset};
use file_organizer::eval::{categorize, file_stem, size_unit, FileDescriptor};
use file_organizer::rules::{Rule, RuleStrategy};

fn file(name: &str, extension: Option<&str>, size: u64, modified: u64) -> FileDescriptor {
    FileDescriptor {
        extension: extension.map(|e| e.to_string()),
        name: name.to_string(),
        size,
        modified,
    }
}

fn with_extension(extension: &str) -> FileDescriptor {
    file(&format!("report.{}", extension), Some(extension), 10, 0)
}

fn path(segments: &[&str]) -> Vec<String> {
    segments.iter().map(|s| s.to_string()).collect()
}

const IN_2020: u64 = 1592179200;
const IN_2021: u64 = 1614556800;

#[test]
fn default_rules_sort_documents() {
    let rules = default_ruleset();
    for extension in ["pdf", "doc", "docx", "xls", "xlsx", "ppt", "pptx", "txt"] {
        assert_eq!(categorize(&rules, &with_extension(extension)), path(&["Documents"]));
    }
}

#[test]
fn default_rules_sort_images() {
    let rules = default_ruleset();
    for extension in ["jpg", "jpeg", "png", "gif"] {
        assert_eq!(categorize(&rules, &with_extension(extension)), path(&["Images"]));
    }
}

#[test]
fn default_rules_sort_videos() {
    let rules = default_ruleset();
    for extension in ["mp4", "mkv", "avi"] {
        assert_eq!(categorize(&rules, &with_extension(extension)), path(&["Videos"]));
    }
}

#[test]
fn default_rules_sort_music() {
    let rules = default_ruleset();
    for extension in ["mp3", "wav"] {
        assert_eq!(categorize(&rules, &with_extension(extension)), path(&["Music"]));
    }
}

#[test]
fn default_rules_leave_other_extensions_alone() {
    let rules = default_ruleset();
    for extension in ["rs", "zip", "PDF", "", "pd", "pdfx"] {
        assert_eq!(categorize(&rules, &with_extension(extension)), path(&[]));
    }
}

#[test]
fn default_rules_leave_a_file_without_extension_alone() {
    let rules = default_ruleset();
    assert_eq!(categorize(&rules, &file("README", None, 120, IN_2020)), path(&[]));
}

#[test]
fn default_rules_are_what_the_equivalent_source_compiles_to() {
    let source = "EXT {
        pdf, doc, docx, xls, xlsx, ppt, pptx, txt => 'Documents';
        jpg, jpeg, png, gif => 'Images';
        mp4, mkv, avi => 'Videos';
        mp3, wav => 'Music';
    }";
    assert_eq!(compile(source), Ok(default_ruleset()));
}

#[test]
fn category_table() {
    assert_eq!(category_for(&"pdf".to_string()), Some("Documents".to_string()));
    assert_eq!(category_for(&"pptx".to_string()), Some("Documents".to_string()));
    assert_eq!(category_for(&"gif".to_string()), Some("Images".to_string()));
    assert_eq!(category_for(&"mkv".to_string()), Some("Videos".to_string()));
    assert_eq!(category_for(&"wav".to_string()), Some("Music".to_string()));
    assert_eq!(category_for(&"exe".to_string()), None);
    assert_eq!(category_for(&"".to_string()), None);
}

#[test]
fn empty_block_sorts_nothing() {
    let rules = compile("EXT { }").unwrap();
    assert_eq!(categorize(&rules, &with_extension("pdf")), path(&[]));
    assert_eq!(categorize(&rules, &file("README", None, 0, 0)), path(&[]));
    assert_eq!(categorize(&rules, &file("a.b", Some("b"), u64::MAX, u64::MAX)), path(&[]));
}

#[test]
fn nested_rules_add_segments() {
    let rules =
        compile("EXT { pdf => 'Documents' { DATE { 2020 => 'Archive'; } } }").unwrap();
    assert_eq!(
        categorize(&rules, &file("a.pdf", Some("pdf"), 1, IN_2020)),
        path(&["Documents", "Archive"])
    );
    assert_eq!(
        categorize(&rules, &file("a.pdf", Some("pdf"), 1, IN_2021)),
        path(&["Documents"])
    );
    assert_eq!(categorize(&rules, &file("a.txt", Some("txt"), 1, IN_2020)), path(&[]));
}

#[test]
fn first_match_wins_and_order_matters() {
    let one = compile("EXT { pdf => 'A'; } EXT { pdf => 'B'; }").unwrap();
    let other = compile("EXT { pdf => 'B'; } EXT { pdf => 'A'; }").unwrap();
    assert_eq!(categorize(&one, &with_extension("pdf")), path(&["A"]));
    assert_eq!(categorize(&other, &with_extension("pdf")), path(&["B"]));
}

#[test]
fn rules_of_different_strategies_share_a_level() {
    let rules = compile("EXT { pdf => 'Documents'; } DATE { 2020 => 'Old'; }").unwrap();
    assert_eq!(
        categorize(&rules, &file("a.pdf", Some("pdf"), 1, IN_2020)),
        path(&["Documents"])
    );
    assert_eq!(categorize(&rules, &file("a.txt", Some("txt"), 1, IN_2020)), path(&["Old"]));
    assert_eq!(categorize(&rules, &file("a.txt", Some("txt"), 1, IN_2021)), path(&[]));
}

#[test]
fn a_block_in_a_block_subdivides_what_the_block_declares() {
    let rules = compile("EXT { pdf => 'Documents'; DATE { 2020 => 'Old'; } }").unwrap();
    assert_eq!(
        categorize(&rules, &file("a.pdf", Some("pdf"), 1, IN_2020)),
        path(&["Documents", "Old"])
    );
    assert_eq!(
        categorize(&rules, &file("a.pdf", Some("pdf"), 1, IN_2021)),
        path(&["Documents"])
    );
    assert_eq!(categorize(&rules, &file("a.txt", Some("txt"), 1, IN_2020)), path(&[]));
}

#[test]
fn a_block_in_a_block_subdivides_every_declaration() {
    let rules =
        compile("EXT { pdf => 'Documents'; mp3 => 'Music'; DATE { 2020 => 'Old'; } }").unwrap();
    assert_eq!(
        categorize(&rules, &file("a.pdf", Some("pdf"), 1, IN_2020)),
        path(&["Documents", "Old"])
    );
    assert_eq!(
        categorize(&rules, &file("a.mp3", Some("mp3"), 1, IN_2020)),
        path(&["Music", "Old"])
    );
    assert_eq!(categorize(&rules, &file("a.mp3", Some("mp3"), 1, IN_2021)), path(&["Music"]));
}

#[test]
fn a_block_without_declarations_claims_nothing() {
    let rules = compile("EXT { DATE { 2020 => 'Old'; } }").unwrap();
    assert_eq!(categorize(&rules, &file("a.pdf", Some("pdf"), 1, IN_2020)), path(&[]));
    assert_eq!(categorize(&rules, &file("README", None, 1, IN_2020)), path(&[]));
}

#[test]
fn rules_by_name_compare_the_stem() {
    let rules = compile("NAME { README, LICENSE => 'Docs'; }").unwrap();
    assert_eq!(categorize(&rules, &file("README", None, 1, 0)), path(&["Docs"]));
    assert_eq!(categorize(&rules, &file("README.md", Some("md"), 1, 0)), path(&["Docs"]));
    assert_eq!(categorize(&rules, &file("LICENSE.txt", Some("txt"), 1, 0)), path(&["Docs"]));
    assert_eq!(categorize(&rules, &file("README2", None, 1, 0)), path(&[]));
    assert_eq!(categorize(&rules, &file("md.README", Some("README"), 1, 0)), path(&[]));
}

#[test]
fn rules_by_size_compare_the_unit() {
    let rules = compile("SIZE { B, KB => 'Small'; GB, TB => 'Large'; }").unwrap();
    assert_eq!(categorize(&rules, &file("a", None, 0, 0)), path(&["Small"]));
    assert_eq!(categorize(&rules, &file("a", None, 1023, 0)), path(&["Small"]));
    assert_eq!(categorize(&rules, &file("a", None, 1024 * 1024 - 1, 0)), path(&["Small"]));
    assert_eq!(categorize(&rules, &file("a", None, 1024 * 1024, 0)), path(&[]));
    assert_eq!(categorize(&rules, &file("a", None, 1 << 30, 0)), path(&["Large"]));
    assert_eq!(categorize(&rules, &file("a", None, 1 << 50, 0)), path(&[]));
}

#[test]
fn a_rule_without_keys_claims_nothing() {
    let bare = Rule {
        src: "EXT".to_string(),
        dir_name: "Everything".to_string(),
        strategy: RuleStrategy::ByExt,
        match_keys: vec![],
        sub_rules: vec![],
    };
    let mut rules = Rule::from_src(String::new()).unwrap();
    rules.sub_rules.push(bare);
    assert_eq!(categorize(&rules, &with_extension("pdf")), path(&[]));
    assert_eq!(categorize(&rules, &file("README", None, 1, 0)), path(&[]));
}

#[test]
fn the_root_s_own_keys_do_not_count() {
    let mut rules = default_ruleset();
    rules.match_keys.push("zip".to_string());
    rules.dir_name = "Root".to_string();
    assert_eq!(categorize(&rules, &with_extension("zip")), path(&[]));
    assert_eq!(categorize(&rules, &with_extension("png")), path(&["Images"]));
}

#[test]
fn stem_of_a_file_name() {
    assert_eq!(file_stem(&"report.pdf".to_string()), "report");
    assert_eq!(file_stem(&"archive.tar.gz".to_string()), "archive.tar");
    assert_eq!(file_stem(&"README".to_string()), "README");
    assert_eq!(file_stem(&".bashrc".to_string()), ".bashrc");
    assert_eq!(file_stem(&".config.toml".to_string()), ".config");
    assert_eq!(file_stem(&"trailing.".to_string()), "trailing");
    assert_eq!(file_stem(&"".to_string()), "");
    assert_eq!(file_stem(&".".to_string()), ".");
    assert_eq!(file_stem(&"caf\u{e9}.txt".to_string()), "caf\u{e9}");
}

#[test]
fn unit_of_a_size() {
    assert_eq!(size_unit(0), "B");
    assert_eq!(size_unit(1023), "B");
    assert_eq!(size_unit(1024), "KB");
    assert_eq!(size_unit((1 << 20) - 1), "KB");
    assert_eq!(size_unit(1 << 20), "MB");
    assert_eq!(size_unit((1 << 30) - 1), "MB");
    assert_eq!(size_unit(1 << 30), "GB");
    assert_eq!(size_unit((1 << 40) - 1), "GB");
    assert_eq!(size_unit(1 << 40), "TB");
    assert_eq!(size_unit((1 << 50) - 1), "TB");
    assert_eq!(size_unit(1 << 50), "PB");
    assert_eq!(size_unit((1 << 60) - 1), "PB");
    assert_eq!(size_unit(1 << 60), "EB");
    assert_eq!(size_unit(u64::MAX), "EB");
}

#[test]
fn year_of_a_timestamp() {
    assert_eq!(year_of(0), 1970);
    assert_eq!(year_of(86399), 1970);
    assert_eq!(year_of(31535999), 1970);
    assert_eq!(year_of(31536000), 1971);
    assert_eq!(year_of(951782400), 2000);
    assert_eq!(year_of(1577836799), 2019);
    assert_eq!(year_of(1577836800), 2020);
    assert_eq!(year_of(1609459199), 2020);
    assert_eq!(year_of(1609459200), 2021);
    assert_eq!(year_of(4102444799), 2099);
    assert_eq!(year_of(4102444800), 2100);
    assert_eq!(year_of(253402300799), 9999);
    assert_eq!(year_of(253402300800), 10000);
    assert_eq!(year_of(u64::MAX), 584554051223);
}

#[test]
fn numbers_in_decimal() {
    assert_eq!(decimal_string(0), "0");
    assert_eq!(decimal_string(7), "7");
    assert_eq!(decimal_string(10), "10");
    assert_eq!(decimal_string(2020), "2020");
    assert_eq!(decimal_string(1234567890), "1234567890");
    assert_eq!(decimal_string(u64::MAX), "18446744073709551615");
}

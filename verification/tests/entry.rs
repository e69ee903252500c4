use file_organizer::args::Args;
use file_organizer::compile::compile;
use file_organizer::defaults::default_ruleset;
use file_organizer::entry::{OrganizeEntry, OrganizeStrategy};
use file_organizer::text::contains_text;

fn entry(parent: &str, file_name: &str, extension: Option<&str>) -> OrganizeEntry {
    OrganizeEntry::new(
        parent.to_string(),
        file_name.to_string(),
        extension.map(|e| e.to_string()),
    )
}

fn path(segments: &[&str]) -> Vec<String> {
    segments.iter().map(|s| s.to_string()).collect()
}

#[test]
fn new_entry_is_sorted_by_extension() {
    let made = entry("/home/me", "a.pdf", Some("pdf"));
    assert_eq!(made.parent, "/home/me");
    assert_eq!(made.file_name, "a.pdf");
    assert_eq!(made.extension, Some("pdf".to_string()));
    assert_eq!(made.strategy, OrganizeStrategy::ByExt);
}

#[test]
fn source_is_directory_and_file_name() {
    assert_eq!(entry("/home/me", "a.pdf", Some("pdf")).get_src(), path(&["/home/me", "a.pdf"]));
}

#[test]
fn destination_goes_through_the_category() {
    assert_eq!(
        entry("/home/me", "a.pdf", Some("pdf")).get_dst(),
        path(&["/home/me", "Documents", "a.pdf"])
    );
    assert_eq!(
        entry("/home/me", "song.mp3", Some("mp3")).get_dst(),
        path(&["/home/me", "Music", "song.mp3"])
    );
}

#[test]
fn destination_without_category_is_the_source() {
    assert_eq!(entry("/home/me", "a.rs", Some("rs")).get_dst(), path(&["/home/me", "a.rs"]));
    assert_eq!(entry("/home/me", "README", None).get_dst(), path(&["/home/me", "README"]));
    assert_eq!(entry("", "x.", Some("")).get_dst(), path(&["", "x."]));
}

#[test]
fn destination_by_date_has_no_category() {
    let mut dated = entry("/home/me", "a.pdf", Some("pdf"));
    dated.strategy = OrganizeStrategy::ByDate;
    assert_eq!(dated.get_dst(), path(&["/home/me", "a.pdf"]));
    assert_eq!(dated.get_category_from_ext(), Some("Documents".to_string()));
}

#[test]
fn destination_under_the_built_in_rules_is_the_destination() {
    let rules = default_ruleset();
    for made in [
        entry("/d", "a.pdf", Some("pdf")),
        entry("/d", "a.gif", Some("gif")),
        entry("/d", "a.rs", Some("rs")),
        entry("/d", "README", None),
    ] {
        assert_eq!(made.get_dst_with_rules(&rules, 1, 0), made.get_dst());
    }
}

#[test]
fn destination_under_an_empty_block_is_the_source() {
    let rules = compile("EXT { }").unwrap();
    assert_eq!(
        entry("/d", "a.pdf", Some("pdf")).get_dst_with_rules(&rules, 10, 1592179200),
        path(&["/d", "a.pdf"])
    );
    assert_eq!(
        entry("/d", "README", None).get_dst_with_rules(&rules, 0, 0),
        path(&["/d", "README"])
    );
}

#[test]
fn destination_under_nested_rules_has_every_segment() {
    let rules = compile("EXT { pdf => 'Documents'; DATE { 2020 => 'Old'; } }").unwrap();
    let made = entry("/d", "a.pdf", Some("pdf"));
    assert_eq!(
        made.get_dst_with_rules(&rules, 10, 1592179200),
        path(&["/d", "Documents", "Old", "a.pdf"])
    );
    assert_eq!(
        made.get_dst_with_rules(&rules, 10, 1614556800),
        path(&["/d", "Documents", "a.pdf"])
    );
    assert_eq!(
        entry("/d", "a.PDF", Some("PDF")).get_dst_with_rules(&rules, 10, 1592179200),
        path(&["/d", "a.PDF"])
    );
}

#[test]
fn category_from_extension() {
    assert_eq!(
        entry("d", "a.docx", Some("docx")).get_category_from_ext(),
        Some("Documents".to_string())
    );
    assert_eq!(
        entry("d", "a.jpeg", Some("jpeg")).get_category_from_ext(),
        Some("Images".to_string())
    );
    assert_eq!(
        entry("d", "a.avi", Some("avi")).get_category_from_ext(),
        Some("Videos".to_string())
    );
    assert_eq!(
        entry("d", "a.wav", Some("wav")).get_category_from_ext(),
        Some("Music".to_string())
    );
    assert_eq!(entry("d", "a.zip", Some("zip")).get_category_from_ext(), None);
    assert_eq!(entry("d", "README", None).get_category_from_ext(), None);
}

#[test]
fn default_shell_command() {
    assert_eq!(Args::get_default_shell_cmd(), "mv {} {}");
}

#[test]
fn default_settings() {
    let args = Args::with_defaults("/tmp/inbox".to_string());
    assert_eq!(args.shell_cmd, "mv {} {}");
    assert_eq!(args.cwd, "/tmp/inbox");
    assert!(args.create_dirs);
}

#[test]
fn text_lists() {
    let mut list = Vec::new();
    assert!(!contains_text(&list, &"a".to_string()));
    list.push("a".to_string());
    list.push("b".to_string());
    assert!(contains_text(&list, &"a".to_string()));
    assert!(contains_text(&list, &"b".to_string()));
    assert!(!contains_text(&list, &"ab".to_string()));
    assert_eq!(list, path(&["a", "b"]));
}

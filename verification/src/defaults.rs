//! The built-in rule set: a fixed table from file extensions to four
//! categories, used where no rule source is given.

use vstd::prelude::*;
use crate::eval::{destination, first_match, FileModel};
use crate::chars::{ascii_alphanumeric, char_class, CharClass};
use crate::compile::{compile_text, CompileFailure};
use crate::render::render_text;
use crate::round_trip::lemma_round_trip;
use crate::rules::{
    is_word, label_of, lemma_labels_are_words, lemma_sub_rules_view, no_rules, push_rule, root_of,
    well_formed, well_formed_root, Rule, RuleModel, RuleStrategy,
};
use crate::text::{contains_text, no_texts, push_text};

verus! {

/// The extensions of documents.
pub open spec fn document_extensions() -> Seq<Seq<char>> {
    seq!["pdf"@, "doc"@, "docx"@, "xls"@, "xlsx"@, "ppt"@, "pptx"@, "txt"@]
}

/// The extensions of images.
pub open spec fn image_extensions() -> Seq<Seq<char>> {
    seq!["jpg"@, "jpeg"@, "png"@, "gif"@]
}

/// The extensions of videos.
pub open spec fn video_extensions() -> Seq<Seq<char>> {
    seq!["mp4"@, "mkv"@, "avi"@]
}

/// The extensions of music.
pub open spec fn music_extensions() -> Seq<Seq<char>> {
    seq!["mp3"@, "wav"@]
}

/// The category of an extension, if it has one.
pub open spec fn category_of(extension: Seq<char>) -> Option<Seq<char>> {
    if document_extensions().contains(extension) {
        Some("Documents"@)
    } else if image_extensions().contains(extension) {
        Some("Images"@)
    } else if video_extensions().contains(extension) {
        Some("Videos"@)
    } else if music_extensions().contains(extension) {
        Some("Music"@)
    } else {
        None
    }
}

/// The rule that sends files with one of the extensions `keys` to `dir`.
pub open spec fn extension_rule(keys: Seq<Seq<char>>, dir: Seq<char>) -> RuleModel {
    RuleModel {
        src: label_of(RuleStrategy::ByExt),
        dir_name: dir,
        strategy: RuleStrategy::ByExt,
        match_keys: keys,
        sub_rules: Seq::empty(),
    }
}

/// The built-in rule set.
pub open spec fn default_rules() -> RuleModel {
    root_of(
        seq![
            extension_rule(document_extensions(), "Documents"@),
            extension_rule(image_extensions(), "Images"@),
            extension_rule(video_extensions(), "Videos"@),
            extension_rule(music_extensions(), "Music"@),
        ],
    )
}

fn documents() -> (list: Vec<String>)
    ensures
        list.deep_view() == document_extensions(),
{
    let mut list = no_texts();
    push_text(&mut list, String::from_str("pdf"));
    push_text(&mut list, String::from_str("doc"));
    push_text(&mut list, String::from_str("docx"));
    push_text(&mut list, String::from_str("xls"));
    push_text(&mut list, String::from_str("xlsx"));
    push_text(&mut list, String::from_str("ppt"));
    push_text(&mut list, String::from_str("pptx"));
    push_text(&mut list, String::from_str("txt"));
    assert(list.deep_view() =~= document_extensions());
    list
}

fn images() -> (list: Vec<String>)
    ensures
        list.deep_view() == image_extensions(),
{
    let mut list = no_texts();
    push_text(&mut list, String::from_str("jpg"));
    push_text(&mut list, String::from_str("jpeg"));
    push_text(&mut list, String::from_str("png"));
    push_text(&mut list, String::from_str("gif"));
    assert(list.deep_view() =~= image_extensions());
    list
}

fn videos() -> (list: Vec<String>)
    ensures
        list.deep_view() == video_extensions(),
{
    let mut list = no_texts();
    push_text(&mut list, String::from_str("mp4"));
    push_text(&mut list, String::from_str("mkv"));
    push_text(&mut list, String::from_str("avi"));
    assert(list.deep_view() =~= video_extensions());
    list
}

fn music() -> (list: Vec<String>)
    ensures
        list.deep_view() == music_extensions(),
{
    let mut list = no_texts();
    push_text(&mut list, String::from_str("mp3"));
    push_text(&mut list, String::from_str("wav"));
    assert(list.deep_view() =~= music_extensions());
    list
}

fn rule_for(keys: Vec<String>, dir: &str) -> (rule: Rule)
    ensures
        rule@ == extension_rule(keys.deep_view(), dir@),
{
    let rule = Rule {
        src: RuleStrategy::ByExt.label(),
        dir_name: String::from_str(dir),
        strategy: RuleStrategy::ByExt,
        match_keys: keys,
        sub_rules: no_rules(),
    };
    proof {
        lemma_sub_rules_view(rule);
    }
    rule
}

/// The category of a file extension in the built-in table.
pub fn category_for(extension: &String) -> (category: Option<String>)
    ensures
        match category {
            Some(name) => category_of(extension@) == Some(name@),
            None => category_of(extension@) is None,
        },
{
    if contains_text(&documents(), extension) {
        Some(String::from_str("Documents"))
    } else if contains_text(&images(), extension) {
        Some(String::from_str("Images"))
    } else if contains_text(&videos(), extension) {
        Some(String::from_str("Videos"))
    } else if contains_text(&music(), extension) {
        Some(String::from_str("Music"))
    } else {
        None
    }
}

/// Builds the built-in rule set.
pub fn default_ruleset() -> (root: Rule)
    ensures
        root@ == default_rules(),
{
    let mut rules = no_rules();
    push_rule(&mut rules, rule_for(documents(), "Documents"));
    push_rule(&mut rules, rule_for(images(), "Images"));
    push_rule(&mut rules, rule_for(videos(), "Videos"));
    push_rule(&mut rules, rule_for(music(), "Music"));
    assert(rules.deep_view() =~= default_rules().sub_rules);
    Rule::root_with(rules)
}

/// The segments of the destination that the category, if there is one,
/// makes.
pub open spec fn category_path(extension: Option<Seq<char>>) -> Seq<Seq<char>> {
    match extension {
        Some(e) => match category_of(e) {
            Some(category) => seq![category],
            None => Seq::empty(),
        },
        None => Seq::empty(),
    }
}

/// Under the built-in rule set a file goes into the directory of its
/// extension's category and no further; a file without an extension, or
/// with one that the table does not hold, goes nowhere.
pub proof fn lemma_default_destination(file: FileModel)
    ensures
        destination(default_rules(), file) == category_path(file.extension),
{
    let rules = default_rules().sub_rules;
    reveal_with_fuel(first_match, 6);
    reveal_with_fuel(destination, 3);
    assert(rules.len() == 4);
    assert(destination(default_rules(), file) =~= category_path(file.extension));
}

proof fn reveal_table()
    ensures
        "pdf"@ == seq!['p', 'd', 'f'],
        "doc"@ == seq!['d', 'o', 'c'],
        "docx"@ == seq!['d', 'o', 'c', 'x'],
        "xls"@ == seq!['x', 'l', 's'],
        "xlsx"@ == seq!['x', 'l', 's', 'x'],
        "ppt"@ == seq!['p', 'p', 't'],
        "pptx"@ == seq!['p', 'p', 't', 'x'],
        "txt"@ == seq!['t', 'x', 't'],
        "jpg"@ == seq!['j', 'p', 'g'],
        "jpeg"@ == seq!['j', 'p', 'e', 'g'],
        "png"@ == seq!['p', 'n', 'g'],
        "gif"@ == seq!['g', 'i', 'f'],
        "mp4"@ == seq!['m', 'p', '4'],
        "mkv"@ == seq!['m', 'k', 'v'],
        "avi"@ == seq!['a', 'v', 'i'],
        "mp3"@ == seq!['m', 'p', '3'],
        "wav"@ == seq!['w', 'a', 'v'],
{
    reveal_strlit("pdf");
    reveal_strlit("doc");
    reveal_strlit("docx");
    reveal_strlit("xls");
    reveal_strlit("xlsx");
    reveal_strlit("ppt");
    reveal_strlit("pptx");
    reveal_strlit("txt");
    reveal_strlit("jpg");
    reveal_strlit("jpeg");
    reveal_strlit("png");
    reveal_strlit("gif");
    reveal_strlit("mp4");
    reveal_strlit("mkv");
    reveal_strlit("avi");
    reveal_strlit("mp3");
    reveal_strlit("wav");
    assert("pdf"@ =~= seq!['p', 'd', 'f']);
    assert("doc"@ =~= seq!['d', 'o', 'c']);
    assert("docx"@ =~= seq!['d', 'o', 'c', 'x']);
    assert("xls"@ =~= seq!['x', 'l', 's']);
    assert("xlsx"@ =~= seq!['x', 'l', 's', 'x']);
    assert("ppt"@ =~= seq!['p', 'p', 't']);
    assert("pptx"@ =~= seq!['p', 'p', 't', 'x']);
    assert("txt"@ =~= seq!['t', 'x', 't']);
    assert("jpg"@ =~= seq!['j', 'p', 'g']);
    assert("jpeg"@ =~= seq!['j', 'p', 'e', 'g']);
    assert("png"@ =~= seq!['p', 'n', 'g']);
    assert("gif"@ =~= seq!['g', 'i', 'f']);
    assert("mp4"@ =~= seq!['m', 'p', '4']);
    assert("mkv"@ =~= seq!['m', 'k', 'v']);
    assert("avi"@ =~= seq!['a', 'v', 'i']);
    assert("mp3"@ =~= seq!['m', 'p', '3']);
    assert("wav"@ =~= seq!['w', 'a', 'v']);
}

/// A text is an identifier if its characters are letters and digits of
/// ASCII.
proof fn lemma_ascii_word(text: Seq<char>)
    requires
        text.len() > 0,
        forall|i: int| 0 <= i < text.len() ==> ascii_alphanumeric(#[trigger] text[i]),
    ensures
        is_word(text),
{
    assert forall|i: int| 0 <= i < text.len() implies char_class(#[trigger] text[i])
        == CharClass::Alphanumeric by {
        assert(ascii_alphanumeric(text[i]));
    }
}

/// Every extension of the table has the category of its row: an extension
/// of one row stands in no other.
pub proof fn lemma_default_table()
    ensures
        forall|i: int|
            0 <= i < document_extensions().len() ==> category_of(
                #[trigger] document_extensions()[i],
            ) == Some("Documents"@),
        forall|i: int|
            0 <= i < image_extensions().len() ==> category_of(#[trigger] image_extensions()[i])
                == Some("Images"@),
        forall|i: int|
            0 <= i < video_extensions().len() ==> category_of(#[trigger] video_extensions()[i])
                == Some("Videos"@),
        forall|i: int|
            0 <= i < music_extensions().len() ==> category_of(#[trigger] music_extensions()[i])
                == Some("Music"@),
{
    reveal_table();
    let documents = document_extensions();
    let images = image_extensions();
    let videos = video_extensions();
    let music = music_extensions();
    assert forall|i: int| 0 <= i < images.len() implies !documents.contains(
        #[trigger] images[i],
    ) by {
        lemma_apart(documents, images[i]);
    }
    assert forall|i: int| 0 <= i < videos.len() implies !documents.contains(
        #[trigger] videos[i],
    ) && !images.contains(videos[i]) by {
        lemma_apart(documents, videos[i]);
        lemma_apart(images, videos[i]);
    }
    assert forall|i: int| 0 <= i < music.len() implies !documents.contains(#[trigger] music[i])
        && !images.contains(music[i]) && !videos.contains(music[i]) by {
        lemma_apart(documents, music[i]);
        lemma_apart(images, music[i]);
        lemma_apart(videos, music[i]);
    }
}

/// A text that differs from every text of a list in its length, or where
/// both have a character, is not in the list.
proof fn lemma_apart(list: Seq<Seq<char>>, text: Seq<char>)
    requires
        forall|j: int|
            0 <= j < list.len() ==> {
                ||| (#[trigger] list[j]).len() != text.len()
                ||| list[j][0] != text[0]
                ||| list[j][1] != text[1]
                ||| list[j][2] != text[2]
            },
    ensures
        !list.contains(text),
{
}

/// The built-in rule set is one that a source text can declare.
pub proof fn lemma_default_well_formed()
    ensures
        well_formed_root(default_rules()),
{
    reveal_table();
    reveal_strlit("Documents");
    reveal_strlit("Images");
    reveal_strlit("Videos");
    reveal_strlit("Music");
    lemma_labels_are_words(RuleStrategy::ByExt);
    let rules = default_rules().sub_rules;
    assert forall|i: int| 0 <= i < rules.len() implies well_formed(#[trigger] rules[i]) by {
        let keys = rules[i].match_keys;
        assert forall|k: int| 0 <= k < keys.len() implies is_word(#[trigger] keys[k]) by {
            lemma_ascii_word(keys[k]);
        }
        assert forall|a: int, b: int| 0 <= a < keys.len() && 0 <= b < keys.len() && a
            != b implies keys[a] != keys[b] by {
            assert(keys[a].len() != keys[b].len() || keys[a][0] != keys[b][0] || keys[a][1]
                != keys[b][1] || keys[a][2] != keys[b][2]);
        }
    }
}

/// The built-in rule set is what the parser builds from the source text
/// that declares it.
pub proof fn lemma_default_compiles()
    ensures
        compile_text(render_text(default_rules())) == Ok::<RuleModel, CompileFailure>(
            default_rules(),
        ),
{
    lemma_default_well_formed();
    lemma_round_trip(default_rules());
}

} // verus!

//! One file of the directory that is being tidied, and where it goes.
//!
//! A path is held in its parts: the directory that the file lies in and the
//! file name. Putting the parts together into a path of the platform is
//! left to the caller.

use vstd::prelude::*;
use crate::defaults::{
    category_for, category_of, default_rules, lemma_default_destination,
};
use crate::eval::{
    categorize, destination, lemma_no_keys_no_destination, FileDescriptor, FileModel,
};
use crate::rules::{Rule, RuleModel};
use crate::text::{no_texts, push_text};

verus! {

/// How an entry is sorted.
#[derive(Debug, Clone, Copy, PartialEq, Eq, Structural)]
pub enum OrganizeStrategy {
    /// By the category of the file's extension.
    ByExt,
    /// By date; no category is defined for it.
    ByDate,
}

/// A file that is to be moved.
#[derive(Debug, Clone, PartialEq, Eq)]
pub struct OrganizeEntry {
    /// The directory that the file lies in.
    pub parent: String,
    /// The name of the file, extension included.
    pub file_name: String,
    /// The extension of the file, without the dot, if it has one. It is
    /// compared as it stands: the table of categories is in lower case, so
    /// `PDF` has no category.
    pub extension: Option<String>,
    pub strategy: OrganizeStrategy,
}

/// An entry as the contracts speak of it.
pub struct EntryModel {
    pub parent: Seq<char>,
    pub file_name: Seq<char>,
    pub extension: Option<Seq<char>>,
    pub strategy: OrganizeStrategy,
}

impl View for OrganizeEntry {
    type V = EntryModel;

    open spec fn view(&self) -> EntryModel {
        EntryModel {
            parent: self.parent@,
            file_name: self.file_name@,
            extension: match self.extension {
                Some(e) => Some(e@),
                None => None,
            },
            strategy: self.strategy,
        }
    }
}

/// The category that an entry is sorted into, if any.
pub open spec fn entry_category(entry: EntryModel) -> Option<Seq<char>> {
    match entry.strategy {
        OrganizeStrategy::ByExt => match entry.extension {
            Some(e) => category_of(e),
            None => None,
        },
        OrganizeStrategy::ByDate => None,
    }
}

/// The parts of the path that an entry is moved to: its directory, the
/// category where there is one, and the unchanged file name.
pub open spec fn entry_destination(entry: EntryModel) -> Seq<Seq<char>> {
    match entry_category(entry) {
        Some(category) => seq![entry.parent, category, entry.file_name],
        None => seq![entry.parent, entry.file_name],
    }
}

/// What the rules read of the entry's file, given its size and the time of
/// its last change.
pub open spec fn entry_file(entry: EntryModel, size: u64, modified: u64) -> FileModel {
    FileModel { extension: entry.extension, name: entry.file_name, size, modified }
}

/// The parts of the path that an entry is moved to under a rule set: its
/// directory, the directories that the rules send the file into, and the
/// unchanged file name.
pub open spec fn entry_destination_under(
    entry: EntryModel,
    rules: RuleModel,
    size: u64,
    modified: u64,
) -> Seq<Seq<char>> {
    seq![entry.parent] + destination(rules, entry_file(entry, size, modified)) + seq![
        entry.file_name,
    ]
}

/// An entry that is sorted by its extension goes where the built-in rule
/// set sends it.
pub proof fn lemma_destination_by_default(entry: EntryModel, size: u64, modified: u64)
    requires
        entry.strategy == OrganizeStrategy::ByExt,
    ensures
        entry_destination(entry) == entry_destination_under(
            entry,
            default_rules(),
            size,
            modified,
        ),
{
    lemma_default_destination(entry_file(entry, size, modified));
    assert(entry_destination(entry) =~= entry_destination_under(
        entry,
        default_rules(),
        size,
        modified,
    ));
}

/// Under rules that have no keys, such as those of blocks without
/// declarations, every entry stays where it is.
pub proof fn lemma_destination_without_keys(
    entry: EntryModel,
    rules: RuleModel,
    size: u64,
    modified: u64,
)
    requires
        forall|i: int|
            0 <= i < rules.sub_rules.len() ==> (#[trigger] rules.sub_rules[i]).match_keys.len()
                == 0,
    ensures
        entry_destination_under(entry, rules, size, modified) == seq![
            entry.parent,
            entry.file_name,
        ],
{
    lemma_no_keys_no_destination(rules, entry_file(entry, size, modified));
    assert(entry_destination_under(entry, rules, size, modified) =~= seq![
        entry.parent,
        entry.file_name,
    ]);
}

impl OrganizeEntry {
    /// An entry that is sorted by its extension.
    pub fn new(parent: String, file_name: String, extension: Option<String>) -> (entry: Self)
        ensures
            entry.parent == parent,
            entry.file_name == file_name,
            entry.extension == extension,
            entry.strategy == OrganizeStrategy::ByExt,
    {
        Self { parent, file_name, extension, strategy: OrganizeStrategy::ByExt }
    }

    /// The parts of the path that the file lies at.
    pub fn get_src(&self) -> (path: Vec<String>)
        ensures
            path.deep_view() == seq![self@.parent, self@.file_name],
    {
        let mut path = no_texts();
        push_text(&mut path, self.parent.clone());
        push_text(&mut path, self.file_name.clone());
        assert(path.deep_view() =~= seq![self@.parent, self@.file_name]);
        path
    }

    /// The parts of the path that the file is moved to.
    pub fn get_dst(&self) -> (path: Vec<String>)
        ensures
            path.deep_view() == entry_destination(self@),
    {
        let category = match self.strategy {
            OrganizeStrategy::ByExt => self.get_category_from_ext(),
            OrganizeStrategy::ByDate => None,
        };
        let mut path = no_texts();
        push_text(&mut path, self.parent.clone());
        match category {
            Some(name) => {
                push_text(&mut path, name);
            },
            None => {},
        }
        push_text(&mut path, self.file_name.clone());
        assert(path.deep_view() =~= entry_destination(self@));
        path
    }

    /// The parts of the path that the file is moved to under `rules`, for a
    /// file of the given size and time of last change. The rules compare
    /// the extension as it stands.
    pub fn get_dst_with_rules(&self, rules: &Rule, size: u64, modified: u64) -> (path: Vec<
        String,
    >)
        ensures
            path.deep_view() == entry_destination_under(self@, rules@, size, modified),
    {
        let file = FileDescriptor {
            extension: match &self.extension {
                Some(e) => Some(e.clone()),
                None => None,
            },
            name: self.file_name.clone(),
            size,
            modified,
        };
        assert(file@ == entry_file(self@, size, modified));
        let segments = categorize(rules, &file);
        let mut path = no_texts();
        push_text(&mut path, self.parent.clone());
        let mut i: usize = 0;
        while i < segments.len()
            invariant
                i <= segments@.len(),
                path.deep_view() == seq![self@.parent] + segments.deep_view().take(i as int),
            decreases segments@.len() - i,
        {
            push_text(&mut path, segments[i].clone());
            i += 1;
            assert(path.deep_view() =~= seq![self@.parent] + segments.deep_view().take(i as int));
        }
        assert(segments.deep_view().take(segments@.len() as int) =~= segments.deep_view());
        push_text(&mut path, self.file_name.clone());
        assert(path.deep_view() =~= entry_destination_under(self@, rules@, size, modified));
        path
    }

    /// The category of the file's extension in the built-in table; `None`
    /// for a file without an extension. The extension is compared as it
    /// stands, upper case and lower case apart.
    pub fn get_category_from_ext(&self) -> (category: Option<String>)
        ensures
            match category {
                Some(name) => self@.extension is Some && category_of(self@.extension->Some_0)
                    == Some(name@),
                None => self@.extension is None || category_of(self@.extension->Some_0) is None,
            },
    {
        match &self.extension {
            Some(e) => category_for(e),
            None => None,
        }
    }
}

} // verus!

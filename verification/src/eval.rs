//! The evaluator: from a rule tree and a file's metadata to the directories
//! that the file goes into.

use vstd::prelude::*;
use crate::calendar::{decimal, decimal_string, year_of, year_of_timestamp};
use crate::chars::chars_of;
use crate::rules::{lemma_sub_rules_view, Rule, RuleModel, RuleStrategy};
use crate::text::{contains_text, no_texts, push_text};

verus! {

/// What is known of a file when it is sorted.
#[derive(Debug, Clone, PartialEq, Eq)]
pub struct FileDescriptor {
    /// The extension in lower case, without the dot; `None` where the file
    /// has none.
    pub extension: Option<String>,
    /// The file name, extension included.
    pub name: String,
    /// The size in bytes.
    pub size: u64,
    /// The time of the last change, in seconds since the start of 1970 in
    /// UTC.
    pub modified: u64,
}

/// A file's metadata as the contracts speak of it.
pub struct FileModel {
    pub extension: Option<Seq<char>>,
    pub name: Seq<char>,
    pub size: u64,
    pub modified: u64,
}

impl View for FileDescriptor {
    type V = FileModel;

    open spec fn view(&self) -> FileModel {
        FileModel {
            extension: match self.extension {
                Some(e) => Some(e@),
                None => None,
            },
            name: self.name@,
            size: self.size,
            modified: self.modified,
        }
    }
}

/// The position of the last dot of `name` before `end`, or -1 if there is
/// none.
pub open spec fn last_dot(name: Seq<char>, end: int) -> int
    decreases end,
{
    if end <= 0 {
        -1
    } else if name[end - 1] == '.' {
        end - 1
    } else {
        last_dot(name, end - 1)
    }
}

/// The file name without its extension: what stands before the last dot.
/// A name without a dot, or with its only dot in front, is its own stem.
pub open spec fn stem(name: Seq<char>) -> Seq<char> {
    let dot = last_dot(name, name.len() as int);
    if dot <= 0 {
        name
    } else {
        name.subrange(0, dot)
    }
}

/// The unit in which a size is best given: `B` below 1024 bytes, `KB` below
/// 1024 times that, and so on up to `EB`.
pub open spec fn size_bucket(size: u64) -> Seq<char> {
    if size < 0x400 {
        seq!['B']
    } else if size < 0x10_0000 {
        seq!['K', 'B']
    } else if size < 0x4000_0000 {
        seq!['M', 'B']
    } else if size < 0x100_0000_0000 {
        seq!['G', 'B']
    } else if size < 0x4_0000_0000_0000 {
        seq!['T', 'B']
    } else if size < 0x1000_0000_0000_0000 {
        seq!['P', 'B']
    } else {
        seq!['E', 'B']
    }
}

/// What a rule of the given strategy compares with its keys: the extension,
/// the stem of the file name, the unit of the size, or the year of the last
/// change in decimal.
pub open spec fn projection(strategy: RuleStrategy, file: FileModel) -> Option<Seq<char>> {
    match strategy {
        RuleStrategy::ByExt => file.extension,
        RuleStrategy::ByFileName => Some(stem(file.name)),
        RuleStrategy::BySize => Some(size_bucket(file.size)),
        RuleStrategy::ByModifiedDate => Some(decimal(year_of_timestamp(file.modified) as nat)),
    }
}

/// Whether `rule` claims `file`: one of its keys is what its strategy reads
/// off the file.
pub open spec fn claims(rule: RuleModel, file: FileModel) -> bool {
    match projection(rule.strategy, file) {
        Some(value) => rule.match_keys.contains(value),
        None => false,
    }
}

/// The position of the first rule at or after `from` that claims `file`.
pub open spec fn first_match(rules: Seq<RuleModel>, file: FileModel, from: int) -> Option<int>
    decreases rules.len() - from,
{
    if from < 0 || from >= rules.len() {
        None
    } else if claims(rules[from], file) {
        Some(from)
    } else {
        first_match(rules, file, from + 1)
    }
}

/// The directories that `file` goes into below `rule`: the directory of the
/// first sub-rule that claims it, then what that sub-rule's own sub-rules
/// give, and nothing where no sub-rule claims it.
pub open spec fn destination(rule: RuleModel, file: FileModel) -> Seq<Seq<char>>
    decreases rule,
{
    match first_match(rule.sub_rules, file, 0) {
        Some(i) => {
            if 0 <= i < rule.sub_rules.len() {
                seq![rule.sub_rules[i].dir_name] + destination(rule.sub_rules[i], file)
            } else {
                Seq::empty()
            }
        },
        None => Seq::empty(),
    }
}

/// The first match, where there is one, is a rule of the list that claims
/// the file, and no rule between `from` and it does.
pub proof fn lemma_first_match(rules: Seq<RuleModel>, file: FileModel, from: int)
    requires
        0 <= from,
    ensures
        match first_match(rules, file, from) {
            Some(i) => {
                &&& from <= i < rules.len()
                &&& claims(rules[i], file)
                &&& forall|k: int| from <= k < i ==> !claims(#[trigger] rules[k], file)
            },
            None => forall|k: int| from <= k < rules.len() ==> !claims(#[trigger] rules[k], file),
        },
    decreases rules.len() - from,
{
    if from < rules.len() && !claims(rules[from], file) {
        lemma_first_match(rules, file, from + 1);
    }
}

/// Rules without keys claim no file: where no rule below `root` has a
/// key, every file stays where it is.
pub proof fn lemma_no_keys_no_destination(root: RuleModel, file: FileModel)
    requires
        forall|i: int|
            0 <= i < root.sub_rules.len() ==> (#[trigger] root.sub_rules[i]).match_keys.len() == 0,
    ensures
        destination(root, file) == Seq::<Seq<char>>::empty(),
{
    lemma_first_match(root.sub_rules, file, 0);
}

/// What the four strategies read off one file.
struct Projections {
    extension: Option<String>,
    stem: String,
    size: String,
    year: String,
}

impl Projections {
    spec fn of(&self, file: FileModel) -> bool {
        &&& match self.extension {
            Some(e) => file.extension == Some(e@),
            None => file.extension is None,
        }
        &&& self.stem@ == stem(file.name)
        &&& self.size@ == size_bucket(file.size)
        &&& self.year@ == decimal(year_of_timestamp(file.modified) as nat)
    }
}

/// The stem of a file name.
pub fn file_stem(name: &String) -> (result: String)
    ensures
        result@ == stem(name@),
{
    let chars = chars_of(name.as_str());
    let mut dot: usize = chars.len();
    while dot > 0 && chars[dot - 1] != '.'
        invariant
            dot <= chars@.len(),
            last_dot(chars@, dot as int) == last_dot(chars@, chars@.len() as int),
        decreases dot,
    {
        dot -= 1;
    }
    if dot <= 1 {
        return name.clone();
    }
    let end = dot - 1;
    let mut result = String::new();
    let mut i: usize = 0;
    while i < end
        invariant
            i <= end < chars@.len(),
            result@ == chars@.subrange(0, i as int),
        decreases end - i,
    {
        result.push(chars[i]);
        i += 1;
        assert(result@ =~= chars@.subrange(0, i as int));
    }
    result
}

/// The unit of a size.
pub fn size_unit(size: u64) -> (unit: String)
    ensures
        unit@ == size_bucket(size),
{
    proof {
        reveal_strlit("B");
        reveal_strlit("KB");
        reveal_strlit("MB");
        reveal_strlit("GB");
        reveal_strlit("TB");
        reveal_strlit("PB");
        reveal_strlit("EB");
    }
    let unit = if size < 0x400 {
        String::from_str("B")
    } else if size < 0x10_0000 {
        String::from_str("KB")
    } else if size < 0x4000_0000 {
        String::from_str("MB")
    } else if size < 0x100_0000_0000 {
        String::from_str("GB")
    } else if size < 0x4_0000_0000_0000 {
        String::from_str("TB")
    } else if size < 0x1000_0000_0000_0000 {
        String::from_str("PB")
    } else {
        String::from_str("EB")
    };
    assert(unit@ =~= size_bucket(size));
    unit
}

fn project(file: &FileDescriptor) -> (all: Projections)
    ensures
        all.of(file@),
{
    Projections {
        extension: match &file.extension {
            Some(e) => Some(e.clone()),
            None => None,
        },
        stem: file_stem(&file.name),
        size: size_unit(file.size),
        year: decimal_string(year_of(file.modified)),
    }
}

fn rule_matches(rule: &Rule, all: &Projections, Ghost(file): Ghost<FileModel>) -> (found: bool)
    requires
        all.of(file),
    ensures
        found == claims(rule@, file),
{
    match rule.strategy {
        RuleStrategy::ByExt => match &all.extension {
            Some(e) => contains_text(&rule.match_keys, e),
            None => false,
        },
        RuleStrategy::ByFileName => contains_text(&rule.match_keys, &all.stem),
        RuleStrategy::BySize => contains_text(&rule.match_keys, &all.size),
        RuleStrategy::ByModifiedDate => contains_text(&rule.match_keys, &all.year),
    }
}

fn find_first(rules: &Vec<Rule>, all: &Projections, Ghost(file): Ghost<FileModel>) -> (found:
    Option<usize>)
    requires
        all.of(file),
    ensures
        match found {
            Some(i) => first_match(rules.deep_view(), file, 0) == Some(i as int) && i
                < rules@.len(),
            None => first_match(rules.deep_view(), file, 0) is None,
        },
{
    let mut i: usize = 0;
    while i < rules.len()
        invariant
            i <= rules@.len(),
            all.of(file),
            first_match(rules.deep_view(), file, 0) == first_match(
                rules.deep_view(),
                file,
                i as int,
            ),
        decreases rules@.len() - i,
    {
        assert(rules.deep_view()[i as int] == rules@[i as int]@);
        if rule_matches(&rules[i], all, Ghost(file)) {
            return Some(i);
        }
        i += 1;
    }
    None
}

/// Sorts one file: the directories, outermost first, that the rules below
/// `root` send it into. The result is empty where no rule claims the file.
///
/// At every level the first rule that claims the file decides, and the
/// search goes on among that rule's own sub-rules.
pub fn categorize(root: &Rule, file: &FileDescriptor) -> (path: Vec<String>)
    ensures
        path.deep_view() == destination(root@, file@),
{
    let all = project(file);
    let mut path = no_texts();
    let mut current: &Rule = root;
    loop
        invariant
            all.of(file@),
            destination(root@, file@) == path.deep_view() + destination(current@, file@),
        ensures
            path.deep_view() == destination(root@, file@),
        decreases current,
    {
        proof {
            lemma_sub_rules_view(*current);
        }
        match find_first(&current.sub_rules, &all, Ghost(file@)) {
            Some(i) => {
                let next = &current.sub_rules[i];
                proof {
                    assert(current@.sub_rules[i as int] == next@);
                    assert(path.deep_view().push(next@.dir_name) + destination(next@, file@)
                        =~= path.deep_view() + destination(current@, file@));
                }
                push_text(&mut path, next.dir_name.clone());
                current = next;
            },
            None => {
                assert(path.deep_view() + Seq::<Seq<char>>::empty() =~= path.deep_view());
                break;
            },
        }
    }
    path
}

} // verus!

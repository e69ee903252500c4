//! The rule tree: what the parser builds and the evaluator reads.

use vstd::prelude::*;
use crate::chars::{ascii_alphanumeric, char_class, CharClass};
use crate::compile::{compile, compile_text, CompileError, CompileFailure};
use crate::text::{duplicate_texts, empty_text, no_texts};

verus! {

/// The property of a file that a rule looks at.
#[derive(Debug, Clone, Copy, PartialEq, Eq, Structural)]
pub enum RuleStrategy {
    ByExt,
    ByModifiedDate,
    ByFileName,
    BySize,
}

/// A node of the rule tree.
///
/// The root stands for the whole rule set: it matches nothing itself and
/// owns the top-level rules. Every other node says that a file whose
/// property, chosen by `strategy`, is one of `match_keys` goes into the
/// directory `dir_name`, and is then sorted further by `sub_rules`. A node
/// without keys claims no file; it is what a block without declarations
/// leaves.
#[derive(Debug, PartialEq, Eq)]
pub struct Rule {
    /// The label of the block that declared the rule; empty for the root.
    pub src: String,
    /// The directory that matching files go to; empty for the root.
    pub dir_name: String,
    pub strategy: RuleStrategy,
    /// The keys that this rule claims, in the order of their declaration.
    pub match_keys: Vec<String>,
    /// The rules that sort the files of `dir_name` further, in the order of
    /// their declaration.
    pub sub_rules: Vec<Rule>,
}

/// A rule tree as the contracts speak of it.
pub struct RuleModel {
    pub src: Seq<char>,
    pub dir_name: Seq<char>,
    pub strategy: RuleStrategy,
    pub match_keys: Seq<Seq<char>>,
    pub sub_rules: Seq<RuleModel>,
}

impl View for Rule {
    type V = RuleModel;

    open spec fn view(&self) -> RuleModel
        decreases self,
    {
        RuleModel {
            src: self.src@,
            dir_name: self.dir_name@,
            strategy: self.strategy,
            match_keys: self.match_keys.deep_view(),
            sub_rules: Seq::new(
                self.sub_rules@.len(),
                |i: int|
                    if 0 <= i < self.sub_rules@.len() {
                        self.sub_rules@[i].view()
                    } else {
                        root_of(Seq::empty())
                    },
            ),
        }
    }
}

impl DeepView for Rule {
    type V = RuleModel;

    open spec fn deep_view(&self) -> RuleModel {
        self@
    }
}

/// The label that a block of the rule language carries for each strategy.
pub open spec fn label_of(strategy: RuleStrategy) -> Seq<char> {
    match strategy {
        RuleStrategy::ByExt => seq!['E', 'X', 'T'],
        RuleStrategy::ByModifiedDate => seq!['D', 'A', 'T', 'E'],
        RuleStrategy::ByFileName => seq!['N', 'A', 'M', 'E'],
        RuleStrategy::BySize => seq!['S', 'I', 'Z', 'E'],
    }
}

/// The strategy that a block label selects, if it is one of the four labels.
/// Labels are case-sensitive.
pub open spec fn strategy_of(label: Seq<char>) -> Option<RuleStrategy> {
    if label == label_of(RuleStrategy::ByExt) {
        Some(RuleStrategy::ByExt)
    } else if label == label_of(RuleStrategy::ByModifiedDate) {
        Some(RuleStrategy::ByModifiedDate)
    } else if label == label_of(RuleStrategy::ByFileName) {
        Some(RuleStrategy::ByFileName)
    } else if label == label_of(RuleStrategy::BySize) {
        Some(RuleStrategy::BySize)
    } else {
        None
    }
}

/// Whether `text` can stand as an identifier: it is not empty and all its
/// characters are letters or digits.
pub open spec fn is_word(text: Seq<char>) -> bool {
    &&& text.len() > 0
    &&& forall|i: int|
        0 <= i < text.len() ==> char_class(#[trigger] text[i]) == CharClass::Alphanumeric
}

/// Whether `text` can stand between quotes: it holds no quote.
pub open spec fn is_quotable(text: Seq<char>) -> bool {
    forall|i: int| 0 <= i < text.len() ==> #[trigger] text[i] != '\''
}

/// Whether a rule other than the root is one that a source text can
/// declare: its label names its strategy, its keys are identifiers and
/// differ from each other, its directory can be quoted and is empty where
/// the rule has no key, and its sub-rules are of the same kind.
pub open spec fn well_formed(rule: RuleModel) -> bool
    decreases rule,
{
    &&& strategy_of(rule.src) == Some(rule.strategy)
    &&& rule.match_keys.len() == 0 ==> rule.dir_name.len() == 0
    &&& rule.match_keys.no_duplicates()
    &&& forall|i: int|
        0 <= i < rule.match_keys.len() ==> is_word(#[trigger] rule.match_keys[i])
    &&& is_quotable(rule.dir_name)
    &&& forall|i: int|
        0 <= i < rule.sub_rules.len() ==> well_formed(#[trigger] rule.sub_rules[i])
}

/// Whether a tree is one that a source text can declare: a root with
/// well-formed rules below it.
pub open spec fn well_formed_root(root: RuleModel) -> bool {
    &&& root == root_of(root.sub_rules)
    &&& forall|i: int|
        0 <= i < root.sub_rules.len() ==> well_formed(#[trigger] root.sub_rules[i])
}

/// The labels of the four strategies are identifiers.
pub proof fn lemma_labels_are_words(strategy: RuleStrategy)
    ensures
        is_word(label_of(strategy)),
        strategy_of(label_of(strategy)) == Some(strategy),
{
    let label = label_of(strategy);
    assert forall|i: int| 0 <= i < label.len() implies char_class(#[trigger] label[i])
        == CharClass::Alphanumeric by {
        assert(ascii_alphanumeric(label[i]));
    }
    assert(label_of(RuleStrategy::ByExt).len() == 3);
    assert(label_of(RuleStrategy::ByModifiedDate)[0] == 'D');
    assert(label_of(RuleStrategy::ByFileName)[0] == 'N');
    assert(label_of(RuleStrategy::BySize)[0] == 'S');
}

/// The root of a rule tree that owns `rules`.
pub open spec fn root_of(rules: Seq<RuleModel>) -> RuleModel {
    RuleModel {
        src: Seq::empty(),
        dir_name: Seq::empty(),
        strategy: RuleStrategy::ByExt,
        match_keys: Seq::empty(),
        sub_rules: rules,
    }
}

impl RuleStrategy {
    /// The label that selects this strategy.
    pub fn label(&self) -> (label: String)
        ensures
            label@ == label_of(*self),
    {
        proof {
            reveal_strlit("EXT");
            reveal_strlit("DATE");
            reveal_strlit("NAME");
            reveal_strlit("SIZE");
        }
        let label = match self {
            RuleStrategy::ByExt => String::from_str("EXT"),
            RuleStrategy::ByModifiedDate => String::from_str("DATE"),
            RuleStrategy::ByFileName => String::from_str("NAME"),
            RuleStrategy::BySize => String::from_str("SIZE"),
        };
        assert(label@ =~= label_of(*self));
        label
    }

    /// The strategy that `label` selects, if any.
    pub fn from_label(label: &String) -> (strategy: Option<RuleStrategy>)
        ensures
            strategy == strategy_of(label@),
    {
        if *label == RuleStrategy::ByExt.label() {
            Some(RuleStrategy::ByExt)
        } else if *label == RuleStrategy::ByModifiedDate.label() {
            Some(RuleStrategy::ByModifiedDate)
        } else if *label == RuleStrategy::ByFileName.label() {
            Some(RuleStrategy::ByFileName)
        } else if *label == RuleStrategy::BySize.label() {
            Some(RuleStrategy::BySize)
        } else {
            None
        }
    }
}

/// The views of the rules of a list are the list of the rule's view.
pub proof fn lemma_sub_rules_view(rule: Rule)
    ensures
        rule@.sub_rules == rule.sub_rules.deep_view(),
{
    let ours = rule@.sub_rules;
    let theirs = rule.sub_rules.deep_view();
    assert(ours.len() == theirs.len());
    assert forall|i: int| 0 <= i < ours.len() implies ours[i] == theirs[i] by {
        assert(theirs[i] == rule.sub_rules@[i].deep_view());
    }
    assert(ours =~= theirs);
}

/// Appends `rule` to `list`.
pub(crate) fn push_rule(list: &mut Vec<Rule>, rule: Rule)
    ensures
        final(list).deep_view() == old(list).deep_view().push(rule@),
{
    list.push(rule);
    assert(list.deep_view() =~= old(list).deep_view().push(rule@));
}

/// Appends the rules of `more` to `list`.
pub(crate) fn append_rules(list: &mut Vec<Rule>, more: Vec<Rule>)
    ensures
        final(list).deep_view() == old(list).deep_view() + more.deep_view(),
{
    let ghost added = more.deep_view();
    let mut more = more;
    list.append(&mut more);
    assert(list.deep_view() =~= old(list).deep_view() + added);
}

/// A list of rules equal to `list`.
pub(crate) fn duplicate_rules(list: &Vec<Rule>) -> (copy: Vec<Rule>)
    ensures
        copy.deep_view() == list.deep_view(),
    decreases list, 1int,
{
    let mut copy = no_rules();
    let mut i: usize = 0;
    while i < list.len()
        invariant
            i <= list@.len(),
            copy.deep_view() == list.deep_view().take(i as int),
        decreases list@.len() - i,
    {
        push_rule(&mut copy, list[i].duplicate());
        i += 1;
        assert(copy.deep_view() =~= list.deep_view().take(i as int));
    }
    assert(copy.deep_view() =~= list.deep_view());
    copy
}

/// A list of rules with nothing in it.
pub(crate) fn no_rules() -> (list: Vec<Rule>)
    ensures
        list.deep_view() == Seq::<RuleModel>::empty(),
{
    let list: Vec<Rule> = Vec::new();
    assert(list.deep_view() =~= Seq::<RuleModel>::empty());
    list
}

impl Rule {
    /// A rule equal to this one, with copies of all the rules below it.
    pub fn duplicate(&self) -> (copy: Rule)
        ensures
            copy@ == self@,
        decreases self, 0int,
    {
        let copy = Rule {
            src: self.src.clone(),
            dir_name: self.dir_name.clone(),
            strategy: self.strategy,
            match_keys: duplicate_texts(&self.match_keys),
            sub_rules: duplicate_rules(&self.sub_rules),
        };
        proof {
            lemma_sub_rules_view(copy);
            lemma_sub_rules_view(*self);
        }
        copy
    }

    /// The rule tree that the source text `src` describes: the root, which
    /// owns the rules of the top-level blocks in their order. A text that
    /// is not a rule set gives the first error in it, of the lexer or of
    /// the parser, and no tree.
    pub fn from_src(src: String) -> (result: Result<Rule, CompileError>)
        ensures
            match result {
                Ok(root) => compile_text(src@) == Ok::<RuleModel, CompileFailure>(root@),
                Err(e) => compile_text(src@) == Err::<RuleModel, CompileFailure>(e@),
            },
    {
        compile(src.as_str())
    }

    /// The root that owns `sub_rules`.
    pub(crate) fn root_with(sub_rules: Vec<Rule>) -> (root: Rule)
        ensures
            root@ == root_of(sub_rules.deep_view()),
    {
        let root = Rule {
            src: empty_text(),
            dir_name: empty_text(),
            strategy: RuleStrategy::ByExt,
            match_keys: no_texts(),
            sub_rules,
        };
        proof {
            lemma_sub_rules_view(root);
        }
        root
    }
}

} // verus!

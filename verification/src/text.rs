//! Small helpers on owned strings and lists of them.

use vstd::prelude::*;

verus! {

/// Whether `text` is one of `list`.
pub fn contains_text(list: &Vec<String>, text: &String) -> (found: bool)
    ensures
        found == list.deep_view().contains(text@),
{
    let mut i: usize = 0;
    while i < list.len()
        invariant
            i <= list.len(),
            forall|k: int| 0 <= k < i ==> list.deep_view()[k] != text@,
        decreases list.len() - i,
    {
        if list[i] == *text {
            assert(list.deep_view()[i as int] == text@);
            return true;
        }
        i += 1;
    }
    false
}

/// Appends `text` to `list`.
pub(crate) fn push_text(list: &mut Vec<String>, text: String)
    ensures
        final(list).deep_view() == old(list).deep_view().push(text@),
{
    list.push(text);
    assert(list.deep_view() =~= old(list).deep_view().push(text@));
}

/// A list equal to `list`.
pub(crate) fn duplicate_texts(list: &Vec<String>) -> (copy: Vec<String>)
    ensures
        copy.deep_view() == list.deep_view(),
{
    let mut copy = no_texts();
    let mut i: usize = 0;
    while i < list.len()
        invariant
            i <= list@.len(),
            copy.deep_view() == list.deep_view().take(i as int),
        decreases list@.len() - i,
    {
        push_text(&mut copy, list[i].clone());
        i += 1;
        assert(copy.deep_view() =~= list.deep_view().take(i as int));
    }
    assert(copy.deep_view() =~= list.deep_view());
    copy
}

/// A list of strings with nothing in it.
pub(crate) fn no_texts() -> (list: Vec<String>)
    ensures
        list.deep_view() == Seq::<Seq<char>>::empty(),
{
    let list: Vec<String> = Vec::new();
    assert(list.deep_view() =~= Seq::<Seq<char>>::empty());
    list
}

/// The empty string.
pub(crate) fn empty_text() -> (text: String)
    ensures
        text@ == Seq::<char>::empty(),
{
    String::new()
}

} // verus!

//! Characters as the lexer sees them: each one paired with its class.

use vstd::prelude::*;

verus! {

/// What a character can mean at the start of a token.
#[derive(Debug, Clone, Copy, PartialEq, Eq, Structural)]
pub enum CharClass {
    /// A letter or a digit: part of an identifier.
    Alphanumeric,
    /// `{`
    LeftCurly,
    /// `}`
    RightCurly,
    /// `,`
    Comma,
    /// `:`
    Colon,
    /// `;`
    SemiColon,
    /// `=`, the first half of an arrow.
    Equals,
    /// `>`, the second half of an arrow.
    Greater,
    /// `'`, which opens and closes a quoted string.
    Quote,
    /// A blank of any kind.
    Whitespace,
    /// Anything else; no token starts with it.
    Other,
}

/// Whether the standard library's Unicode tables count `c` as a letter or a
/// number.
pub uninterp spec fn unicode_alphanumeric(c: char) -> bool;

/// Whether the standard library's Unicode tables give `c` the property
/// `White_Space`.
pub uninterp spec fn unicode_whitespace(c: char) -> bool;

/// `char::is_alphanumeric` of the standard library. Its answer depends on the
/// character alone and is taken on trust as [`unicode_alphanumeric`]; nothing
/// is claimed about which characters it accepts.
pub assume_specification[ char::is_alphanumeric ](c: char) -> (b: bool)
    ensures
        b == unicode_alphanumeric(c),
;

/// `char::is_whitespace` of the standard library. Its answer depends on the
/// character alone and is taken on trust as [`unicode_whitespace`]; nothing is
/// claimed about which characters it accepts.
pub assume_specification[ char::is_whitespace ](c: char) -> (b: bool)
    ensures
        b == unicode_whitespace(c),
;

/// `String::push` of the standard library: appends one character and leaves
/// the characters before it as they were.
pub assume_specification[ std::string::String::push ](s: &mut std::string::String, c: char)
    ensures
        final(s)@ == old(s)@.push(c),
;

/// The letters and digits of ASCII.
pub open spec fn ascii_alphanumeric(c: char) -> bool {
    ||| 'a' <= c <= 'z'
    ||| 'A' <= c <= 'Z'
    ||| '0' <= c <= '9'
}

/// Space, tab, line feed and carriage return.
pub open spec fn ascii_blank(c: char) -> bool {
    c == ' ' || c == '\t' || c == '\n' || c == '\r'
}

/// The class of a character. Punctuation is recognised first, then the
/// letters, digits and blanks of ASCII by their code, and only then every
/// other character by the Unicode tables.
pub open spec fn char_class(c: char) -> CharClass {
    if c == '{' {
        CharClass::LeftCurly
    } else if c == '}' {
        CharClass::RightCurly
    } else if c == ',' {
        CharClass::Comma
    } else if c == ':' {
        CharClass::Colon
    } else if c == ';' {
        CharClass::SemiColon
    } else if c == '=' {
        CharClass::Equals
    } else if c == '>' {
        CharClass::Greater
    } else if c == '\'' {
        CharClass::Quote
    } else if ascii_alphanumeric(c) {
        CharClass::Alphanumeric
    } else if ascii_blank(c) {
        CharClass::Whitespace
    } else if unicode_alphanumeric(c) {
        CharClass::Alphanumeric
    } else if unicode_whitespace(c) {
        CharClass::Whitespace
    } else {
        CharClass::Other
    }
}

/// A text with the class of each of its characters.
pub open spec fn classified(text: Seq<char>) -> Seq<(char, CharClass)> {
    Seq::new(text.len(), |i: int| (text[i], char_class(text[i])))
}

fn is_ascii_alphanumeric(c: char) -> (b: bool)
    ensures
        b == ascii_alphanumeric(c),
{
    ('a' <= c && c <= 'z') || ('A' <= c && c <= 'Z') || ('0' <= c && c <= '9')
}

/// Classifies one character.
pub fn classify(c: char) -> (class: CharClass)
    ensures
        class == char_class(c),
{
    if c == '{' {
        CharClass::LeftCurly
    } else if c == '}' {
        CharClass::RightCurly
    } else if c == ',' {
        CharClass::Comma
    } else if c == ':' {
        CharClass::Colon
    } else if c == ';' {
        CharClass::SemiColon
    } else if c == '=' {
        CharClass::Equals
    } else if c == '>' {
        CharClass::Greater
    } else if c == '\'' {
        CharClass::Quote
    } else if is_ascii_alphanumeric(c) {
        CharClass::Alphanumeric
    } else if c == ' ' || c == '\t' || c == '\n' || c == '\r' {
        CharClass::Whitespace
    } else if c.is_alphanumeric() {
        CharClass::Alphanumeric
    } else if c.is_whitespace() {
        CharClass::Whitespace
    } else {
        CharClass::Other
    }
}

/// Pairs every character of `data` with its class.
pub fn scan(data: &str) -> (out: Vec<(char, CharClass)>)
    ensures
        out@ == classified(data@),
{
    let mut out: Vec<(char, CharClass)> = Vec::new();
    assert(classified(data@.take(0)) =~= Seq::<(char, CharClass)>::empty());
    for c in it: data.chars()
        invariant
            it.seq() == data@,
            out@ == classified(it.seq().take(it.index() as int)),
    {
        proof {
            let seen = it.seq().take(it.index() as int);
            assert(it.seq().take(it.index() + 1) =~= seen.push(c));
            lemma_classified_push(seen, c);
        }
        out.push((c, classify(c)));
    }
    assert(data@.take(data@.len() as int) =~= data@);
    out
}

/// Classifying a text is done character by character.
pub proof fn lemma_classified_push(text: Seq<char>, c: char)
    ensures
        classified(text.push(c)) == classified(text).push((c, char_class(c))),
{
    assert(classified(text.push(c)) =~= classified(text).push((c, char_class(c))));
}

/// The characters of `data`, one by one.
pub(crate) fn chars_of(data: &str) -> (out: Vec<char>)
    ensures
        out@ == data@,
{
    let mut out: Vec<char> = Vec::new();
    for c in it: data.chars()
        invariant
            it.seq() == data@,
            out@ == it.seq().take(it.index() as int),
    {
        out.push(c);
    }
    out
}

} // verus!

//! Character classes of the ixl grammar, and the predicates that the
//! scanner's consumption primitives are driven by.
use vstd::prelude::*;

verus! {

/// Whether `char::is_alphanumeric` accepts a character. The Unicode
/// classification is far too large to restate, so it is only named here;
/// variable names are maximal runs of these characters (plus `-` and `_`).
pub uninterp spec fn alphanumeric(c: char) -> bool;

/// Relies on char::is_alphanumeric: the classification of a character is a
/// fixed function of that character alone.
#[verifier::external_body]
pub fn char_is_alphanumeric(c: char) -> (b: bool)
    ensures
        b == alphanumeric(c),
{
    c.is_alphanumeric()
}

/// Plain space characters: space and tab.
pub open spec fn is_space_char(c: char) -> bool {
    c == ' ' || c == '\t'
}

/// Separators between grammar units ("termspace"): spaces, newline,
/// carriage return and `;`.
pub open spec fn is_termspace_char(c: char) -> bool {
    is_space_char(c) || c == '\n' || c == ';' || c == '\r'
}

/// Characters that end an unquoted token: termspace plus `#`, `]`, `)`, `|`.
pub open spec fn is_word_terminator_char(c: char) -> bool {
    is_termspace_char(c) || c == '#' || c == ']' || c == ')' || c == '|'
}

/// Characters allowed in an unbraced variable name.
pub open spec fn is_varname_char(c: char) -> bool {
    alphanumeric(c) || c == '-' || c == '_'
}

/// Characters that an unquoted literal run may take: anything up to an
/// interpolation (`$`) or a word terminator.
pub open spec fn is_bareword_char(c: char) -> bool {
    c != '$' && !is_word_terminator_char(c)
}

pub fn is_space(ch: char) -> (b: bool)
    ensures
        b == is_space_char(ch),
{
    ch == ' ' || ch == '\t'
}

pub fn is_termspace(ch: char) -> (b: bool)
    ensures
        b == is_termspace_char(ch),
{
    is_space(ch) || ch == '\n' || ch == ';' || ch == '\r'
}

pub fn is_word_terminator(ch: char) -> (b: bool)
    ensures
        b == is_word_terminator_char(ch),
{
    is_termspace(ch) || ch == '#' || ch == ']' || ch == ')' || ch == '|'
}

/// The character predicates that drive `Scanner::consume` and
/// `Scanner::consume_escaped`, one variant per predicate of the grammar.
#[derive(Clone, Copy, Debug)]
pub enum CharPred {
    /// `char::is_alphanumeric`.
    Alphanumeric,
    /// A space or a tab.
    Space,
    /// A termspace character.
    Termspace,
    /// Anything but a newline (comment bodies).
    NotNewline,
    /// Anything but a word terminator (unbraced string tokens).
    NotWordTerminator,
    /// A character of an unbraced variable name.
    VarnameChar,
    /// A character of an unquoted literal run.
    BarewordChar,
}

/// What each predicate holds of a character.
pub open spec fn pred_holds(p: CharPred, c: char) -> bool {
    match p {
        CharPred::Alphanumeric => alphanumeric(c),
        CharPred::Space => is_space_char(c),
        CharPred::Termspace => is_termspace_char(c),
        CharPred::NotNewline => c != '\n',
        CharPred::NotWordTerminator => !is_word_terminator_char(c),
        CharPred::VarnameChar => is_varname_char(c),
        CharPred::BarewordChar => is_bareword_char(c),
    }
}

impl CharPred {
    /// Decide the predicate on one character.
    pub fn test(self, c: char) -> (b: bool)
        ensures
            b == pred_holds(self, c),
    {
        match self {
            CharPred::Alphanumeric => char_is_alphanumeric(c),
            CharPred::Space => is_space(c),
            CharPred::Termspace => is_termspace(c),
            CharPred::NotNewline => c != '\n',
            CharPred::NotWordTerminator => !is_word_terminator(c),
            CharPred::VarnameChar => char_is_alphanumeric(c) || c == '-' || c == '_',
            CharPred::BarewordChar => c != '$' && !is_word_terminator(c),
        }
    }
}

} // verus!

//! Fatal parse errors. Every error is raised at the point of detection,
//! carries the 1-based line and column of that point and a short message,
//! and aborts the whole parse: there is no recovery and no partial tree.
use vstd::prelude::*;

verus! {

/// The error taxonomy of the parser.
#[derive(Clone, Copy, Debug, PartialEq, Eq)]
pub enum ErrorKind {
    /// A backslash stood at the end of input during escaped consumption.
    UnterminatedEscape,
    /// A brace-balanced reader reached end of input before its depth
    /// returned to zero.
    UnterminatedBraces,
    /// A grammar rule's required leading character was absent, or end of
    /// input occurred where a term or a command was required.
    ExpectedConstruct,
    /// The scanner was constructed over zero-length input.
    EmptyInput,
}

/// A fatal parse error: its kind, the 1-based source position at the point
/// of detection, and a human-readable message.
#[derive(Clone, Copy, Debug, PartialEq, Eq)]
pub struct ParseError {
    pub kind: ErrorKind,
    pub line: usize,
    pub col: usize,
    pub msg: &'static str,
}

/// The mathematical shape of an error as the grammar functions report it:
/// the kind, the input index at the point of detection, and the message.
pub ghost struct ErrX {
    pub kind: ErrorKind,
    pub at: int,
    pub msg: Seq<char>,
}

} // verus!

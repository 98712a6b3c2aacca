//! The character scanner: the input text as an indexable character
//! sequence, a read cursor, and the 1-based source position kept for
//! diagnostics, together with the character-level consumption primitives.
//!
//! Each primitive is specified by a pure function over the input sequence
//! and the cursor index (`sp_run`, `sp_consume_escaped`, `sp_spaces`,
//! `sp_termspaces`, `sp_braces`), and is proved to realise it exactly.
use vstd::prelude::*;
use vstd::string::StrSliceExecFns;

use crate::chars::CharPred;
use crate::chars::is_space_char;
use crate::chars::is_termspace_char;
use crate::chars::pred_holds;
use crate::error::ErrX;
use crate::error::ErrorKind;
use crate::error::ParseError;

verus! {

/// Relies on String::push: it appends exactly the one character.
#[verifier::external_body]
pub fn push_char(s: &mut String, c: char)
    ensures
        final(s)@ == old(s)@.push(c),
{
    s.push(c);
}

/// The 1-based line number of the character at index `i`: one more than the
/// number of newlines strictly before it.
pub open spec fn line_at(data: Seq<char>, i: int) -> int
    decreases i,
{
    if i <= 0 {
        1
    } else if data[i - 1] == '\n' {
        line_at(data, i - 1) + 1
    } else {
        line_at(data, i - 1)
    }
}

/// The 1-based column of the character at index `i`: its distance from the
/// last newline before it (or from the start of the input).
pub open spec fn col_at(data: Seq<char>, i: int) -> int
    decreases i,
{
    if i <= 0 {
        1
    } else if data[i - 1] == '\n' {
        1
    } else {
        col_at(data, i - 1) + 1
    }
}

pub proof fn lemma_position_bounds(data: Seq<char>, i: int)
    requires
        0 <= i,
    ensures
        1 <= line_at(data, i) <= i + 1,
        1 <= col_at(data, i) <= i + 1,
    decreases i,
{
    if i > 0 {
        lemma_position_bounds(data, i - 1);
    }
}

/// An executable error value agrees with the reported shape `ex`: same
/// kind, same message, and the 1-based position of input index `ex.at`.
pub open spec fn err_matches(data: Seq<char>, e: ParseError, ex: ErrX) -> bool {
    &&& e.kind == ex.kind
    &&& e.line as int == line_at(data, ex.at)
    &&& e.col as int == col_at(data, ex.at)
    &&& e.msg@ == ex.msg
}

/// The end of the maximal run of characters satisfying `p` that starts at
/// index `i`.
pub open spec fn sp_run(data: Seq<char>, i: int, p: CharPred) -> int
    decreases data.len() - i,
    when 0 <= i <= data.len()
{
    if i < data.len() && pred_holds(p, data[i]) {
        sp_run(data, i + 1, p)
    } else {
        i
    }
}

pub proof fn lemma_run_bounds(data: Seq<char>, i: int, p: CharPred)
    requires
        0 <= i <= data.len(),
    ensures
        i <= sp_run(data, i, p) <= data.len(),
        sp_run(data, i, p) < data.len() ==> !pred_holds(p, data[sp_run(data, i, p)]),
    decreases data.len() - i,
{
    if i < data.len() && pred_holds(p, data[i]) {
        lemma_run_bounds(data, i + 1, p);
    }
}

/// Escape-aware consumption under predicate `p`, starting at `i`: a
/// backslash that satisfies `p` is dropped and the following character is
/// taken literally; a backslash at the end of input is a fatal error.
/// Returns the accumulated text and the index after the consumed run.
pub open spec fn sp_consume_escaped(data: Seq<char>, i: int, p: CharPred) -> Result<
    (Seq<char>, int),
    ErrX,
>
    decreases data.len() - i,
    when 0 <= i <= data.len()
{
    if i < data.len() && pred_holds(p, data[i]) {
        if data[i] == '\\' {
            if i + 1 < data.len() {
                match sp_consume_escaped(data, i + 2, p) {
                    Ok(sj) => Ok((seq![data[i + 1]] + sj.0, sj.1)),
                    Err(e) => Err(e),
                }
            } else {
                Err(
                    ErrX {
                        kind: ErrorKind::UnterminatedEscape,
                        at: i + 1,
                        msg: "unterminated escape sequence"@,
                    },
                )
            }
        } else {
            match sp_consume_escaped(data, i + 1, p) {
                Ok(sj) => Ok((seq![data[i]] + sj.0, sj.1)),
                Err(e) => Err(e),
            }
        }
    } else {
        Ok((Seq::empty(), i))
    }
}

pub proof fn lemma_consume_escaped_bounds(data: Seq<char>, i: int, p: CharPred)
    requires
        0 <= i <= data.len(),
    ensures
        sp_consume_escaped(data, i, p) matches Ok(sj) ==> i <= sj.1 <= data.len(),
        i < data.len() && pred_holds(p, data[i]) ==> (sp_consume_escaped(data, i, p) matches Ok(sj)
            ==> i < sj.1),
    decreases data.len() - i,
{
    if i < data.len() && pred_holds(p, data[i]) {
        if data[i] == '\\' {
            if i + 1 < data.len() {
                lemma_consume_escaped_bounds(data, i + 2, p);
            }
        } else {
            lemma_consume_escaped_bounds(data, i + 1, p);
        }
    }
}

/// The index after a run of plain spaces and tabs, where a backslash
/// immediately followed by a newline continues the run (line continuation).
pub open spec fn sp_spaces(data: Seq<char>, i: int) -> int
    decreases data.len() - i,
    when 0 <= i <= data.len()
{
    let j = sp_run(data, i, CharPred::Space);
    proof {
        lemma_run_bounds(data, i, CharPred::Space);
    }
    if j + 1 < data.len() && data[j] == '\\' && data[j + 1] == '\n' {
        sp_spaces(data, j + 2)
    } else {
        j
    }
}

pub proof fn lemma_spaces_bounds(data: Seq<char>, i: int)
    requires
        0 <= i <= data.len(),
    ensures
        i <= sp_spaces(data, i) <= data.len(),
    decreases data.len() - i,
{
    let j = sp_run(data, i, CharPred::Space);
    lemma_run_bounds(data, i, CharPred::Space);
    if j + 1 < data.len() && data[j] == '\\' && data[j + 1] == '\n' {
        lemma_spaces_bounds(data, j + 2);
    }
}

/// The index after a run of termspace characters, where a `#` starts a
/// comment running to the end of the line, after which consumption resumes.
pub open spec fn sp_termspaces(data: Seq<char>, i: int) -> int
    decreases data.len() - i,
    when 0 <= i <= data.len()
{
    let j = sp_run(data, i, CharPred::Termspace);
    proof {
        lemma_run_bounds(data, i, CharPred::Termspace);
    }
    if j < data.len() && data[j] == '#' {
        let k = sp_run(data, j, CharPred::NotNewline);
        proof {
            lemma_run_bounds(data, j + 1, CharPred::NotNewline);
        }
        sp_termspaces(data, k)
    } else {
        j
    }
}

pub proof fn lemma_termspaces_bounds(data: Seq<char>, i: int)
    requires
        0 <= i <= data.len(),
    ensures
        i <= sp_termspaces(data, i) <= data.len(),
        sp_termspaces(data, i) < data.len() ==> !is_termspace_char(
            data[sp_termspaces(data, i)],
        ) && data[sp_termspaces(data, i)] != '#',
    decreases data.len() - i,
{
    let j = sp_run(data, i, CharPred::Termspace);
    lemma_run_bounds(data, i, CharPred::Termspace);
    if j < data.len() && data[j] == '#' {
        let k = sp_run(data, j, CharPred::NotNewline);
        lemma_run_bounds(data, j + 1, CharPred::NotNewline);
        lemma_termspaces_bounds(data, k);
    }
}

pub proof fn lemma_spaces_progress(data: Seq<char>, i: int)
    requires
        0 <= i < data.len(),
        is_space_char(data[i]),
    ensures
        i < sp_spaces(data, i) <= data.len(),
{
    lemma_spaces_bounds(data, i);
    let j = sp_run(data, i, CharPred::Space);
    assert(sp_run(data, i, CharPred::Space) == sp_run(data, i + 1, CharPred::Space));
    lemma_run_bounds(data, i + 1, CharPred::Space);
    if j + 1 < data.len() && data[j] == '\\' && data[j + 1] == '\n' {
        lemma_spaces_bounds(data, j + 2);
    }
}

pub proof fn lemma_termspaces_progress(data: Seq<char>, i: int)
    requires
        0 <= i < data.len(),
        is_termspace_char(data[i]) || data[i] == '#',
    ensures
        i < sp_termspaces(data, i) <= data.len(),
{
    lemma_termspaces_bounds(data, i);
    let j = sp_run(data, i, CharPred::Termspace);
    lemma_run_bounds(data, i, CharPred::Termspace);
    if is_termspace_char(data[i]) {
        assert(sp_run(data, i, CharPred::Termspace) == sp_run(data, i + 1, CharPred::Termspace));
        lemma_run_bounds(data, i + 1, CharPred::Termspace);
        if j < data.len() && data[j] == '#' {
            let k = sp_run(data, j, CharPred::NotNewline);
            assert(sp_run(data, j, CharPred::NotNewline) == sp_run(
                data,
                j + 1,
                CharPred::NotNewline,
            ));
            lemma_run_bounds(data, j + 1, CharPred::NotNewline);
            lemma_termspaces_bounds(data, k);
        }
    } else {
        let k = sp_run(data, i, CharPred::NotNewline);
        assert(sp_run(data, i, CharPred::NotNewline) == sp_run(data, i + 1, CharPred::NotNewline));
        lemma_run_bounds(data, i + 1, CharPred::NotNewline);
        lemma_termspaces_bounds(data, k);
    }
}

/// The brace-balanced reader, after the opening `{` has been consumed:
/// reads at depth `depth`, copying characters; an unescaped `{` deepens, an
/// unescaped `}` at depth one ends the read (and is consumed), a backslash
/// escapes exactly the following character, and end of input before the
/// depth returns to zero is a fatal error.
pub open spec fn sp_braces_body(data: Seq<char>, i: int, depth: int) -> Result<
    (Seq<char>, int),
    ErrX,
>
    decreases data.len() - i,
    when 0 <= i <= data.len()
{
    if i >= data.len() {
        Err(ErrX { kind: ErrorKind::UnterminatedBraces, at: i, msg: "unterminated braces"@ })
    } else if data[i] == '{' {
        match sp_braces_body(data, i + 1, depth + 1) {
            Ok(sj) => Ok((seq!['{'] + sj.0, sj.1)),
            Err(e) => Err(e),
        }
    } else if data[i] == '}' {
        if depth == 1 {
            Ok((Seq::empty(), i + 1))
        } else {
            match sp_braces_body(data, i + 1, depth - 1) {
                Ok(sj) => Ok((seq!['}'] + sj.0, sj.1)),
                Err(e) => Err(e),
            }
        }
    } else if data[i] == '\\' {
        if i + 1 >= data.len() {
            Err(
                ErrX {
                    kind: ErrorKind::UnterminatedBraces,
                    at: i + 1,
                    msg: "unterminated braces"@,
                },
            )
        } else {
            match sp_braces_body(data, i + 2, depth) {
                Ok(sj) => Ok((seq![data[i + 1]] + sj.0, sj.1)),
                Err(e) => Err(e),
            }
        }
    } else {
        match sp_braces_body(data, i + 1, depth) {
            Ok(sj) => Ok((seq![data[i]] + sj.0, sj.1)),
            Err(e) => Err(e),
        }
    }
}

/// The brace-balanced reader at an opening `{` at index `i`: consumes the
/// brace and reads the balanced body.
pub open spec fn sp_braces(data: Seq<char>, i: int) -> Result<(Seq<char>, int), ErrX> {
    sp_braces_body(data, i + 1, 1)
}

pub proof fn lemma_braces_body_bounds(data: Seq<char>, i: int, depth: int)
    requires
        0 <= i <= data.len(),
    ensures
        sp_braces_body(data, i, depth) matches Ok(sj) ==> i < sj.1 <= data.len(),
    decreases data.len() - i,
{
    if i < data.len() {
        if data[i] == '{' {
            lemma_braces_body_bounds(data, i + 1, depth + 1);
        } else if data[i] == '}' {
            if depth != 1 {
                lemma_braces_body_bounds(data, i + 1, depth - 1);
            }
        } else if data[i] == '\\' {
            if i + 1 < data.len() {
                lemma_braces_body_bounds(data, i + 2, depth);
            }
        } else {
            lemma_braces_body_bounds(data, i + 1, depth);
        }
    }
}

/// A string token: a brace-balanced literal where the current character is
/// `{`, else the maximal run up to a word terminator, with no escaping.
pub open spec fn sp_string(data: Seq<char>, i: int) -> Result<(Seq<char>, int), ErrX> {
    if i < data.len() && data[i] == '{' {
        sp_braces(data, i)
    } else {
        let j = sp_run(data, i, CharPred::NotWordTerminator);
        Ok((data.subrange(i, j), j))
    }
}

pub proof fn lemma_string_bounds(data: Seq<char>, i: int)
    requires
        0 <= i <= data.len(),
    ensures
        sp_string(data, i) matches Ok(sj) ==> i <= sj.1 <= data.len(),
{
    if i < data.len() && data[i] == '{' {
        lemma_braces_body_bounds(data, i + 1, 1);
    } else {
        lemma_run_bounds(data, i, CharPred::NotWordTerminator);
    }
}

/// A variable name: a brace-balanced literal where the current character is
/// `{`, else the maximal (possibly empty) run of name characters.
pub open spec fn sp_varname(data: Seq<char>, i: int) -> Result<(Seq<char>, int), ErrX> {
    if i < data.len() && data[i] == '{' {
        sp_braces(data, i)
    } else {
        let j = sp_run(data, i, CharPred::VarnameChar);
        Ok((data.subrange(i, j), j))
    }
}

pub proof fn lemma_varname_bounds(data: Seq<char>, i: int)
    requires
        0 <= i <= data.len(),
    ensures
        sp_varname(data, i) matches Ok(sj) ==> i <= sj.1 <= data.len(),
{
    if i < data.len() && data[i] == '{' {
        lemma_braces_body_bounds(data, i + 1, 1);
    } else {
        lemma_run_bounds(data, i, CharPred::VarnameChar);
    }
}

/// The scanner: the full input as random-accessible characters, a zero-based
/// read cursor, and the 1-based source position of the cursor.
#[derive(Debug)]
pub struct Scanner {
    pub data: Vec<char>,
    pub index: usize,
    pub line: usize,
    pub col: usize,
}

impl Scanner {
    /// The input text.
    pub open spec fn text(self) -> Seq<char> {
        self.data@
    }

    /// The cursor as a mathematical index.
    pub open spec fn pos(self) -> int {
        self.index as int
    }

    /// Well-formedness: the input is non-empty and indexable, the cursor is
    /// within it (or one past its end), and the stored source position is
    /// the position of the cursor.
    pub open spec fn wf(self) -> bool {
        &&& 0 < self.data@.len() < usize::MAX
        &&& self.index <= self.data@.len()
        &&& self.line as int == line_at(self.data@, self.index as int)
        &&& self.col as int == col_at(self.data@, self.index as int)
    }

    /// Construct a scanner over the full input. Zero-length input is
    /// rejected up front, before any parse begins.
    pub fn new(data: Vec<char>) -> (r: Result<Scanner, ParseError>)
        requires
            data@.len() < usize::MAX,
        ensures
            match r {
                Ok(s) => data@.len() > 0 && s.wf() && s.data@ == data@ && s.index == 0,
                Err(e) => data@.len() == 0 && e.kind == ErrorKind::EmptyInput && e.line == 1
                    && e.col == 1 && e.msg@ == "empty input"@,
            },
    {
        if data.len() == 0 {
            Err(ParseError { kind: ErrorKind::EmptyInput, line: 1, col: 1, msg: "empty input" })
        } else {
            Ok(Scanner { data, index: 0, line: 1, col: 1 })
        }
    }

    /// Construct a scanner over the characters of a text. Zero-length
    /// input is rejected up front, before any parse begins.
    pub fn with_data(text: &str) -> (r: Result<Scanner, ParseError>)
        requires
            text@.len() < usize::MAX,
        ensures
            match r {
                Ok(s) => text@.len() > 0 && s.wf() && s.data@ == text@ && s.index == 0,
                Err(e) => text@.len() == 0 && e.kind == ErrorKind::EmptyInput && e.line == 1
                    && e.col == 1 && e.msg@ == "empty input"@,
            },
    {
        let n = text.unicode_len();
        let mut data: Vec<char> = Vec::new();
        let mut i: usize = 0;
        while i < n
            invariant
                i <= n,
                n == text@.len(),
                n < usize::MAX,
                data@ == text@.subrange(0, i as int),
            decreases n - i,
        {
            data.push(text.get_char(i));
            i = i + 1;
            proof {
                assert(data@ =~= text@.subrange(0, i as int));
            }
        }
        proof {
            assert(data@ =~= text@);
        }
        Scanner::new(data)
    }

    /// Whether the cursor is at the end of the input.
    pub fn eof(&self) -> (b: bool)
        ensures
            b == (self.index as int >= self.data@.len()),
    {
        self.index >= self.data.len()
    }

    /// The character under the cursor, or `None` at end of input.
    pub fn get_ch(&self) -> (r: Option<char>)
        ensures
            r == (if (self.index as int) < self.data@.len() {
                Some(self.data@[self.index as int])
            } else {
                None::<char>
            }),
    {
        if self.index < self.data.len() {
            Some(self.data[self.index])
        } else {
            None
        }
    }

    /// One-character lookahead, or `None` if none remains.
    pub fn peek(&self) -> (r: Option<char>)
        requires
            self.wf(),
        ensures
            r == (if self.index as int + 1 < self.data@.len() as int {
                Some(self.data@[self.index as int + 1])
            } else {
                None::<char>
            }),
    {
        if self.index + 1 < self.data.len() {
            Some(self.data[self.index + 1])
        } else {
            None
        }
    }

    /// Advance the cursor by one character, keeping the source position.
    pub fn bump(&mut self)
        requires
            old(self).wf(),
            old(self).index < old(self).data@.len(),
        ensures
            final(self).wf(),
            final(self).data@ == old(self).data@,
            final(self).index == old(self).index + 1,
    {
        proof {
            lemma_position_bounds(self.data@, self.index as int);
        }
        let c = self.data[self.index];
        if c == '\n' {
            self.line = self.line + 1;
            self.col = 1;
        } else {
            self.col = self.col + 1;
        }
        self.index = self.index + 1;
    }

    /// A fatal error at the current source position.
    pub(crate) fn err(&self, kind: ErrorKind, msg: &'static str) -> (e: ParseError)
        requires
            self.wf(),
        ensures
            e.kind == kind,
            e.line as int == line_at(self.data@, self.index as int),
            e.col as int == col_at(self.data@, self.index as int),
            e.msg == msg,
    {
        ParseError { kind, line: self.line, col: self.col, msg }
    }

    /// Read and advance while `pred` holds of the current character,
    /// returning the accumulated text.
    pub fn consume(&mut self, pred: CharPred) -> (r: String)
        requires
            old(self).wf(),
        ensures
            final(self).wf(),
            final(self).data@ == old(self).data@,
            final(self).index as int == sp_run(old(self).data@, old(self).index as int, pred),
            r@ == old(self).data@.subrange(old(self).index as int, final(self).index as int),
    {
        let ghost data = self.data@;
        let ghost i0 = self.index as int;
        let mut r = String::new();
        loop
            invariant
                self.wf(),
                self.data@ == data,
                i0 <= self.index as int <= data.len(),
                sp_run(data, self.index as int, pred) == sp_run(data, i0, pred),
                r@ == data.subrange(i0, self.index as int),
            decreases data.len() - self.index,
        {
            if self.index >= self.data.len() {
                break ;
            }
            let c = self.data[self.index];
            if !pred.test(c) {
                break ;
            }
            push_char(&mut r, c);
            self.bump();
            proof {
                assert(r@ =~= data.subrange(i0, self.index as int));
            }
        }
        r
    }

    /// Escape-aware consumption: as `consume`, but a backslash escapes
    /// exactly the following character, which is taken literally; a
    /// backslash at the end of input is a fatal error.
    pub fn consume_escaped(&mut self, pred: CharPred) -> (r: Result<String, ParseError>)
        requires
            old(self).wf(),
        ensures
            final(self).wf(),
            final(self).data@ == old(self).data@,
            match (r, sp_consume_escaped(old(self).data@, old(self).index as int, pred)) {
                (Ok(s), Ok(sj)) => s@ == sj.0 && final(self).index as int == sj.1,
                (Err(e), Err(ex)) => err_matches(old(self).data@, e, ex) && final(self).index
                    as int == ex.at,
                _ => false,
            },
    {
        let ghost data = self.data@;
        let ghost i0 = self.index as int;
        let mut out = String::new();
        loop
            invariant
                self.wf(),
                self.data@ == data,
                i0 <= self.index as int <= data.len(),
                ({
                    let cur = self.index as int;
                    match sp_consume_escaped(data, cur, pred) {
                        Ok(sj) => sp_consume_escaped(data, i0, pred) == Ok::<_, ErrX>(
                            (out@ + sj.0, sj.1),
                        ),
                        Err(e) => sp_consume_escaped(data, i0, pred) == Err::<(Seq<char>, int), _>(
                            e,
                        ),
                    }
                }),
            decreases data.len() - self.index,
        {
            if self.index >= self.data.len() {
                break ;
            }
            let c = self.data[self.index];
            if !pred.test(c) {
                break ;
            }
            let ghost out0 = out@;
            if c == '\\' {
                self.bump();
                if self.index >= self.data.len() {
                    return Err(self.err(ErrorKind::UnterminatedEscape,
                        "unterminated escape sequence"));
                }
                let c2 = self.data[self.index];
                push_char(&mut out, c2);
                self.bump();
                proof {
                    let cur = self.index as int;
                    if sp_consume_escaped(data, cur, pred) is Ok {
                        let sj = sp_consume_escaped(data, cur, pred)->Ok_0;
                        assert(out@ + sj.0 =~= out0 + (seq![c2] + sj.0));
                    }
                }
            } else {
                push_char(&mut out, c);
                self.bump();
                proof {
                    let cur = self.index as int;
                    if sp_consume_escaped(data, cur, pred) is Ok {
                        let sj = sp_consume_escaped(data, cur, pred)->Ok_0;
                        assert(out@ + sj.0 =~= out0 + (seq![c] + sj.0));
                    }
                }
            }
        }
        proof {
            assert(out@ + Seq::<char>::empty() =~= out@);
        }
        Ok(out)
    }

    /// Consume spaces and tabs, treating a backslash immediately followed
    /// by a newline as a line continuation.
    pub fn parse_spaces(&mut self)
        requires
            old(self).wf(),
        ensures
            final(self).wf(),
            final(self).data@ == old(self).data@,
            final(self).index as int == sp_spaces(old(self).data@, old(self).index as int),
    {
        let ghost data = self.data@;
        let ghost i0 = self.index as int;
        loop
            invariant
                self.wf(),
                self.data@ == data,
                i0 <= self.index as int <= data.len(),
                sp_spaces(data, self.index as int) == sp_spaces(data, i0),
            decreases data.len() - self.index,
        {
            let ghost pre = self.index as int;
            let _run = self.consume(CharPred::Space);
            proof {
                lemma_run_bounds(data, pre, CharPred::Space);
            }
            let cont = match (self.get_ch(), self.peek()) {
                (Some(c), Some(d)) => c == '\\' && d == '\n',
                _ => false,
            };
            if !cont {
                break ;
            }
            self.bump();
            self.bump();
        }
    }

    /// Consume termspace characters; a `#` starts a comment running to the
    /// end of the line, after which consumption resumes.
    pub fn parse_termspaces(&mut self)
        requires
            old(self).wf(),
        ensures
            final(self).wf(),
            final(self).data@ == old(self).data@,
            final(self).index as int == sp_termspaces(old(self).data@, old(self).index as int),
    {
        let ghost data = self.data@;
        let ghost i0 = self.index as int;
        loop
            invariant
                self.wf(),
                self.data@ == data,
                i0 <= self.index as int <= data.len(),
                sp_termspaces(data, self.index as int) == sp_termspaces(data, i0),
            decreases data.len() - self.index,
        {
            let ghost pre = self.index as int;
            let _run = self.consume(CharPred::Termspace);
            proof {
                lemma_run_bounds(data, pre, CharPred::Termspace);
            }
            let at_comment = match self.get_ch() {
                Some(c) => c == '#',
                None => false,
            };
            if !at_comment {
                break ;
            }
            proof {
                let j = self.index as int;
                assert(sp_run(data, j, CharPred::NotNewline) == sp_run(
                    data,
                    j + 1,
                    CharPred::NotNewline,
                ));
                lemma_run_bounds(data, j + 1, CharPred::NotNewline);
            }
            let _comment = self.consume(CharPred::NotNewline);
        }
    }

    /// The brace-balanced reader. The cursor must stand on the opening `{`;
    /// it is consumed along with the balanced body and the closing brace,
    /// and the body, with escape markers removed, is returned.
    pub fn braces(&mut self) -> (r: Result<String, ParseError>)
        requires
            old(self).wf(),
            old(self).index < old(self).data@.len(),
            old(self).data@[old(self).index as int] == '{',
        ensures
            final(self).wf(),
            final(self).data@ == old(self).data@,
            match (r, sp_braces(old(self).data@, old(self).index as int)) {
                (Ok(s), Ok(sj)) => s@ == sj.0 && final(self).index as int == sj.1,
                (Err(e), Err(ex)) => err_matches(old(self).data@, e, ex) && final(self).index
                    as int == ex.at,
                _ => false,
            },
    {
        let ghost data = self.data@;
        self.bump();
        let ghost start = self.index as int;
        let mut out = String::new();
        let mut depth: usize = 1;
        loop
            invariant
                self.wf(),
                self.data@ == data,
                1 <= start <= self.index as int <= data.len(),
                1 <= depth,
                depth as int <= self.index as int - start + 1,
                ({
                    let cur = self.index as int;
                    match sp_braces_body(data, cur, depth as int) {
                        Ok(sj) => sp_braces_body(data, start, 1) == Ok::<_, ErrX>(
                            (out@ + sj.0, sj.1),
                        ),
                        Err(e) => sp_braces_body(data, start, 1) == Err::<(Seq<char>, int), _>(e),
                    }
                }),
            decreases data.len() - self.index,
        {
            if self.index >= self.data.len() {
                return Err(self.err(ErrorKind::UnterminatedBraces, "unterminated braces"));
            }
            let c = self.data[self.index];
            let ghost out0 = out@;
            if c == '{' {
                push_char(&mut out, '{');
                depth = depth + 1;
                self.bump();
                proof {
                    let cur = self.index as int;
                    if sp_braces_body(data, cur, depth as int) is Ok {
                        let sj = sp_braces_body(data, cur, depth as int)->Ok_0;
                        assert(out@ + sj.0 =~= out0 + (seq!['{'] + sj.0));
                    }
                }
            } else if c == '}' {
                if depth == 1 {
                    self.bump();
                    proof {
                        assert(out@ + Seq::<char>::empty() =~= out@);
                    }
                    return Ok(out);
                }
                depth = depth - 1;
                push_char(&mut out, '}');
                self.bump();
                proof {
                    let cur = self.index as int;
                    if sp_braces_body(data, cur, depth as int) is Ok {
                        let sj = sp_braces_body(data, cur, depth as int)->Ok_0;
                        assert(out@ + sj.0 =~= out0 + (seq!['}'] + sj.0));
                    }
                }
            } else if c == '\\' {
                self.bump();
                if self.index >= self.data.len() {
                    return Err(self.err(ErrorKind::UnterminatedBraces, "unterminated braces"));
                }
                let c2 = self.data[self.index];
                push_char(&mut out, c2);
                self.bump();
                proof {
                    let cur = self.index as int;
                    if sp_braces_body(data, cur, depth as int) is Ok {
                        let sj = sp_braces_body(data, cur, depth as int)->Ok_0;
                        assert(out@ + sj.0 =~= out0 + (seq![c2] + sj.0));
                    }
                }
            } else {
                push_char(&mut out, c);
                self.bump();
                proof {
                    let cur = self.index as int;
                    if sp_braces_body(data, cur, depth as int) is Ok {
                        let sj = sp_braces_body(data, cur, depth as int)->Ok_0;
                        assert(out@ + sj.0 =~= out0 + (seq![c] + sj.0));
                    }
                }
            }
        }
    }

    /// A string token: a brace-balanced literal where the cursor stands on
    /// `{`, else the maximal run up to a word terminator (no escaping).
    pub fn parse_string(&mut self) -> (r: Result<String, ParseError>)
        requires
            old(self).wf(),
        ensures
            final(self).wf(),
            final(self).data@ == old(self).data@,
            match (r, sp_string(old(self).data@, old(self).index as int)) {
                (Ok(s), Ok(sj)) => s@ == sj.0 && final(self).index as int == sj.1,
                (Err(e), Err(ex)) => err_matches(old(self).data@, e, ex) && final(self).index
                    as int == ex.at,
                _ => false,
            },
    {
        let at_brace = match self.get_ch() {
            Some(c) => c == '{',
            None => false,
        };
        if at_brace {
            self.braces()
        } else {
            Ok(self.consume(CharPred::NotWordTerminator))
        }
    }

    /// A variable name: a brace-balanced literal where the cursor stands on
    /// `{`, else the maximal (possibly empty) run of name characters.
    pub fn parse_varname(&mut self) -> (r: Result<String, ParseError>)
        requires
            old(self).wf(),
        ensures
            final(self).wf(),
            final(self).data@ == old(self).data@,
            match (r, sp_varname(old(self).data@, old(self).index as int)) {
                (Ok(s), Ok(sj)) => s@ == sj.0 && final(self).index as int == sj.1,
                (Err(e), Err(ex)) => err_matches(old(self).data@, e, ex) && final(self).index
                    as int == ex.at,
                _ => false,
            },
    {
        let at_brace = match self.get_ch() {
            Some(c) => c == '{',
            None => false,
        };
        if at_brace {
            self.braces()
        } else {
            Ok(self.consume(CharPred::VarnameChar))
        }
    }
}

} // verus!

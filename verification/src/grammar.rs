//! The grammar of the ixl language, as pure functions over the input
//! character sequence: terms, interpolated strings, barewords, components,
//! commands, pipelines and whole programs.
//!
//! Each `sp_*` function takes the input and a cursor index and returns the
//! parsed model together with the index after it, or the error the parser
//! raises there. The executable parser methods on `Scanner` are proved to
//! return exactly these values.
//!
//! The functions are mutually recursive; termination is by the remaining
//! input, tie-broken by the rank of the grammar rule. At the few spots where
//! the recursion consumes no input before a nested rule, the definitions
//! guard the recursive call on the nested rule having advanced the cursor;
//! the lemmas below prove that those guards always hold, so the guarded
//! fallbacks are never taken.
use vstd::prelude::*;
use vstd::string::StrSliceExecFns;

use crate::ast::Command;
use crate::ast::CommandX;
use crate::ast::Component;
use crate::ast::ComponentX;
use crate::ast::Program;
use crate::ast::Term;
use crate::ast::TermX;
use crate::ast::lemma_view_commands_push;
use crate::ast::lemma_view_components_push;
use crate::ast::lemma_view_terms_push;
use crate::ast::view_commands;
use crate::ast::view_components;
use crate::ast::view_terms;
use crate::chars::CharPred;
use crate::chars::is_space_char;
use crate::chars::is_termspace_char;
use crate::chars::is_word_terminator_char;
use crate::chars::is_word_terminator;
use crate::error::ErrX;
use crate::error::ErrorKind;
use crate::error::ParseError;
use crate::scanner::lemma_consume_escaped_bounds;
use crate::scanner::lemma_spaces_bounds;
use crate::scanner::lemma_spaces_progress;
use crate::scanner::lemma_string_bounds;
use crate::scanner::lemma_termspaces_bounds;
use crate::scanner::lemma_termspaces_progress;
use crate::scanner::lemma_varname_bounds;
use crate::scanner::sp_consume_escaped;
use crate::scanner::sp_spaces;
use crate::scanner::sp_string;
use crate::scanner::sp_termspaces;
use crate::scanner::sp_varname;
use crate::scanner::Scanner;
use crate::scanner::err_matches;
use crate::scanner::push_char;

verus! {

/// One literal run of a double-quoted string body, at brace depth `depth`:
/// copies characters while tracking depth — with no backslash handling, an
/// intentional asymmetry with the brace-balanced reader — and stops at a `$`
/// (an interpolation follows) or at the `}` that closes the outermost brace
/// (which ends the whole string and is left unconsumed, depth zero).
/// Returns the run, the stop index, and the depth there.
pub open spec fn sp_interp_lit(data: Seq<char>, i: int, depth: int) -> Result<
    (Seq<char>, int, int),
    ErrX,
>
    decreases data.len() - i,
    when 0 <= i <= data.len()
{
    if i >= data.len() {
        Err(ErrX { kind: ErrorKind::UnterminatedBraces, at: i, msg: "unterminated braces"@ })
    } else if data[i] == '{' {
        match sp_interp_lit(data, i + 1, depth + 1) {
            Ok(t) => Ok((seq!['{'] + t.0, t.1, t.2)),
            Err(e) => Err(e),
        }
    } else if data[i] == '}' {
        if depth == 1 {
            Ok((Seq::empty(), i, 0))
        } else {
            match sp_interp_lit(data, i + 1, depth - 1) {
                Ok(t) => Ok((seq!['}'] + t.0, t.1, t.2)),
                Err(e) => Err(e),
            }
        }
    } else if data[i] == '$' {
        Ok((Seq::empty(), i, depth))
    } else {
        match sp_interp_lit(data, i + 1, depth) {
            Ok(t) => Ok((seq![data[i]] + t.0, t.1, t.2)),
            Err(e) => Err(e),
        }
    }
}

pub proof fn lemma_interp_lit_bounds(data: Seq<char>, i: int, depth: int)
    requires
        0 <= i <= data.len(),
    ensures
        sp_interp_lit(data, i, depth) matches Ok(t) ==> i <= t.1 <= data.len(),
        sp_interp_lit(data, i, depth) matches Ok(t) ==> (t.2 != 0 ==> t.1 < data.len()
            && data[t.1] == '$'),
    decreases data.len() - i,
{
    if i < data.len() {
        if data[i] == '{' {
            lemma_interp_lit_bounds(data, i + 1, depth + 1);
        } else if data[i] == '}' {
            if depth != 1 {
                lemma_interp_lit_bounds(data, i + 1, depth - 1);
            }
        } else if data[i] == '$' {
        } else {
            lemma_interp_lit_bounds(data, i + 1, depth);
        }
    }
}

/// A term, dispatched on the current character: `$` a variable, `[` a
/// block, `(` a substitution, `'` a string literal, `"` an interpolated
/// string, anything else an interpolated bareword. End of input where a
/// term is required is a fatal error.
pub open spec fn sp_term(data: Seq<char>, i: int) -> Result<(TermX, int), ErrX>
    decreases data.len() - i, 3int,
    when 0 <= i <= data.len()
{
    if i >= data.len() {
        Err(ErrX { kind: ErrorKind::ExpectedConstruct, at: i, msg: "expected term, got eof"@ })
    } else if data[i] == '$' {
        match sp_varname(data, i + 1) {
            Ok(sj) => Ok((TermX::Variable(sj.0), sj.1)),
            Err(e) => Err(e),
        }
    } else if data[i] == '[' {
        sp_block(data, i)
    } else if data[i] == '(' {
        sp_subst(data, i)
    } else if data[i] == '\'' {
        match sp_string(data, i + 1) {
            Ok(sj) => Ok((TermX::StringLit(sj.0), sj.1)),
            Err(e) => Err(e),
        }
    } else if data[i] == '"' {
        match sp_interp_string(data, i + 1) {
            Ok(sj) => Ok((TermX::Interp(sj.0), sj.1)),
            Err(e) => Err(e),
        }
    } else {
        match sp_bareword(data, i) {
            Ok(sj) => Ok((TermX::Interp(sj.0), sj.1)),
            Err(e) => Err(e),
        }
    }
}

/// A block `[ ... ]`: the opening bracket must be present, then commands up
/// to the matching `]`.
pub open spec fn sp_block(data: Seq<char>, i: int) -> Result<(TermX, int), ErrX>
    decreases data.len() - i, 2int,
    when 0 <= i <= data.len()
{
    if i < data.len() && data[i] == '[' {
        match sp_commands_until(data, i + 1, ']') {
            Ok(sj) => Ok((TermX::Block(sj.0), sj.1)),
            Err(e) => Err(e),
        }
    } else {
        Err(ErrX { kind: ErrorKind::ExpectedConstruct, at: i, msg: "expected a block"@ })
    }
}

/// A substitution `( ... )`: the opening parenthesis must be present, then
/// commands up to the matching `)`.
pub open spec fn sp_subst(data: Seq<char>, i: int) -> Result<(TermX, int), ErrX>
    decreases data.len() - i, 2int,
    when 0 <= i <= data.len()
{
    if i < data.len() && data[i] == '(' {
        match sp_commands_until(data, i + 1, ')') {
            Ok(sj) => Ok((TermX::Subst(sj.0), sj.1)),
            Err(e) => Err(e),
        }
    } else {
        Err(ErrX { kind: ErrorKind::ExpectedConstruct, at: i, msg: "expected a block"@ })
    }
}

/// One `$`-interpolation inside a bareword or a double-quoted string: the
/// `$` is consumed, then `(` starts a substitution, anything else a
/// variable name (brace-balanced or a bare run, possibly empty).
pub open spec fn sp_interp_dollar(data: Seq<char>, i: int) -> Result<(TermX, int), ErrX>
    decreases data.len() - i, 1int,
    when 0 <= i <= data.len()
{
    if i >= data.len() {
        // not reached: the callers dispatch here on a `$` under the cursor
        Err(ErrX { kind: ErrorKind::ExpectedConstruct, at: i, msg: "expected term, got eof"@ })
    } else if i + 1 < data.len() && data[i + 1] == '(' {
        sp_subst(data, i + 1)
    } else {
        match sp_varname(data, i + 1) {
            Ok(sj) => Ok((TermX::Variable(sj.0), sj.1)),
            Err(e) => Err(e),
        }
    }
}

/// An interpolated bareword: literal runs (escape-aware) and
/// `$`-interpolations, repeated up to a word terminator or end of input.
pub open spec fn sp_bareword(data: Seq<char>, i: int) -> Result<(Seq<TermX>, int), ErrX>
    decreases data.len() - i, 2int,
    when 0 <= i <= data.len()
{
    if i >= data.len() || is_word_terminator_char(data[i]) {
        Ok((Seq::empty(), i))
    } else if data[i] == '$' {
        match sp_interp_dollar(data, i) {
            Ok(tj) => if i < tj.1 <= data.len() {
                match sp_bareword(data, tj.1) {
                    Ok(sj) => Ok((seq![tj.0] + sj.0, sj.1)),
                    Err(e) => Err(e),
                }
            } else {
                // not reached: an interpolation always advances the cursor
                Ok((seq![tj.0], tj.1))
            },
            Err(e) => Err(e),
        }
    } else {
        match sp_consume_escaped(data, i, CharPred::BarewordChar) {
            Ok(sj) => if i < sj.1 <= data.len() {
                match sp_bareword(data, sj.1) {
                    Ok(rj) => Ok((seq![TermX::StringLit(sj.0)] + rj.0, rj.1)),
                    Err(e) => Err(e),
                }
            } else {
                // not reached: the literal run here is never empty
                Ok((seq![TermX::StringLit(sj.0)], sj.1))
            },
            Err(e) => Err(e),
        }
    }
}

/// The items of a double-quoted string body at brace depth `depth`:
/// `$`-interpolations and literal runs, until the outermost brace closes
/// (the closing `}` is left unconsumed); non-empty literal runs become
/// fragments, empty ones are dropped.
pub open spec fn sp_interp_items(data: Seq<char>, i: int, depth: int) -> Result<
    (Seq<TermX>, int),
    ErrX,
>
    decreases data.len() - i, 2int,
    when 0 <= i <= data.len()
{
    if depth <= 0 {
        Ok((Seq::empty(), i))
    } else if i >= data.len() {
        Err(ErrX { kind: ErrorKind::UnterminatedBraces, at: i, msg: "unterminated braces"@ })
    } else if data[i] == '$' {
        match sp_interp_dollar(data, i) {
            Ok(tj) => if i < tj.1 <= data.len() {
                match sp_interp_items(data, tj.1, depth) {
                    Ok(sj) => Ok((seq![tj.0] + sj.0, sj.1)),
                    Err(e) => Err(e),
                }
            } else {
                // not reached: an interpolation always advances the cursor
                Ok((seq![tj.0], tj.1))
            },
            Err(e) => Err(e),
        }
    } else {
        match sp_interp_lit(data, i, depth) {
            Ok(t) => {
                let lit: Seq<TermX> = if t.0.len() > 0 {
                    seq![TermX::StringLit(t.0)]
                } else {
                    Seq::empty()
                };
                if t.2 == 0 {
                    Ok((lit, t.1))
                } else if i < t.1 <= data.len() {
                    match sp_interp_items(data, t.1, t.2) {
                        Ok(sj) => Ok((lit + sj.0, sj.1)),
                        Err(e) => Err(e),
                    }
                } else {
                    // not reached: a run that stops at `$` has advanced
                    Ok((lit, t.1))
                }
            },
            Err(e) => Err(e),
        }
    }
}

/// A double-quoted string body, after the quote: with no opening brace it
/// falls back to the bareword grammar; otherwise the brace is consumed and
/// the items are read at depth one.
pub open spec fn sp_interp_string(data: Seq<char>, i: int) -> Result<(Seq<TermX>, int), ErrX>
    decreases data.len() - i, 3int,
    when 0 <= i <= data.len()
{
    if i < data.len() && data[i] == '{' {
        sp_interp_items(data, i + 1, 1)
    } else {
        sp_bareword(data, i)
    }
}

/// The components of a command: repeatedly, until a word terminator or end
/// of input, a flag (`-` or `--`, then a string token) or an argument (a
/// term), each followed by spaces.
pub open spec fn sp_components(data: Seq<char>, i: int) -> Result<(Seq<ComponentX>, int), ErrX>
    decreases data.len() - i, 4int,
    when 0 <= i <= data.len()
{
    if i >= data.len() || is_word_terminator_char(data[i]) {
        Ok((Seq::empty(), i))
    } else {
        let step: Result<(ComponentX, int), ErrX> = if data[i] == '-' {
            let j = if i + 1 < data.len() && data[i + 1] == '-' {
                i + 2
            } else {
                i + 1
            };
            match sp_string(data, j) {
                Ok(sj) => Ok((ComponentX::Flag(sj.0), sj.1)),
                Err(e) => Err(e),
            }
        } else {
            match sp_term(data, i) {
                Ok(tj) => Ok((ComponentX::Argument(tj.0), tj.1)),
                Err(e) => Err(e),
            }
        };
        match step {
            Ok(cj) => {
                if i < cj.1 <= data.len() {
                    let m = sp_spaces(data, cj.1);
                    proof {
                        lemma_spaces_bounds(data, cj.1);
                    }
                    match sp_components(data, m) {
                        Ok(sj) => Ok((seq![cj.0] + sj.0, sj.1)),
                        Err(e) => Err(e),
                    }
                } else {
                    // not reached: a component always advances the cursor
                    Ok((seq![cj.0], cj.1))
                }
            },
            Err(e) => Err(e),
        }
    }
}

/// One command: an optional `@`-target, spaces, the components, then —
/// unless a `;` stands here — termspaces and comments, and an optional
/// `|`-pipe into one further command. End of input where the command's
/// body should begin is a fatal error.
pub open spec fn sp_command(data: Seq<char>, i: int) -> Result<(CommandX, int), ErrX>
    decreases data.len() - i, 5int,
    when 0 <= i <= data.len()
{
    let tgt: Result<(Option<TermX>, int), ErrX> = if i < data.len() && data[i] == '@' {
        match sp_term(data, i + 1) {
            Ok(tj) => Ok((Some(tj.0), tj.1)),
            Err(e) => Err(e),
        }
    } else {
        Ok((None, i))
    };
    match tgt {
        Ok(tj) => {
            if !(i <= tj.1 <= data.len()) {
                // not reached: a term stays within the input
                Err(
                    ErrX {
                        kind: ErrorKind::ExpectedConstruct,
                        at: i,
                        msg: "expected command, got eof"@,
                    },
                )
            } else if tj.1 >= data.len() {
                Err(
                    ErrX {
                        kind: ErrorKind::ExpectedConstruct,
                        at: tj.1,
                        msg: "expected command, got eof"@,
                    },
                )
            } else {
                let k = sp_spaces(data, tj.1);
                proof {
                    lemma_spaces_bounds(data, tj.1);
                }
                match sp_components(data, k) {
                    Ok(cj) => {
                        if !(k <= cj.1 <= data.len()) {
                            // not reached: components stay within the input
                            Err(
                                ErrX {
                                    kind: ErrorKind::ExpectedConstruct,
                                    at: i,
                                    msg: "expected command, got eof"@,
                                },
                            )
                        } else {
                            let n = if cj.1 < data.len() && data[cj.1] == ';' {
                                cj.1
                            } else {
                                sp_termspaces(data, cj.1)
                            };
                            proof {
                                lemma_termspaces_bounds(data, cj.1);
                            }
                            if n < data.len() && data[n] == '|' {
                                let q = sp_spaces(data, n + 1);
                                proof {
                                    lemma_spaces_bounds(data, n + 1);
                                }
                                match sp_command(data, q) {
                                    Ok(pj) => Ok(
                                        (
                                            CommandX {
                                                target: tj.0,
                                                components: cj.0,
                                                pipe: seq![pj.0],
                                            },
                                            pj.1,
                                        ),
                                    ),
                                    Err(e) => Err(e),
                                }
                            } else {
                                Ok(
                                    (
                                        CommandX {
                                            target: tj.0,
                                            components: cj.0,
                                            pipe: Seq::empty(),
                                        },
                                        n,
                                    ),
                                )
                            }
                        }
                    },
                    Err(e) => Err(e),
                }
            }
        },
        Err(e) => Err(e),
    }
}

/// Commands up to a closing delimiter `end`: repeatedly skip termspaces and
/// comments, stop at (and consume) `end`, else parse one command. End of
/// input before `end` silently ends the sequence, keeping what was read. A
/// stray closing delimiter other than `end` is a fatal error (the grammar
/// could make no progress there).
pub open spec fn sp_commands_until(data: Seq<char>, i: int, end: char) -> Result<
    (Seq<CommandX>, int),
    ErrX,
>
    decreases data.len() - i, 6int,
    when 0 <= i <= data.len()
{
    if i >= data.len() {
        Ok((Seq::empty(), i))
    } else {
        let j = sp_termspaces(data, i);
        proof {
            lemma_termspaces_bounds(data, i);
        }
        if j < data.len() && data[j] == end {
            Ok((Seq::empty(), j + 1))
        } else if j < data.len() && (data[j] == ']' || data[j] == ')') {
            Err(ErrX { kind: ErrorKind::ExpectedConstruct, at: j, msg: "expected command"@ })
        } else {
            match sp_command(data, j) {
                Ok(cj) => if j < cj.1 <= data.len() {
                    match sp_commands_until(data, cj.1, end) {
                        Ok(sj) => Ok((seq![cj.0] + sj.0, sj.1)),
                        Err(e) => Err(e),
                    }
                } else {
                    // not reached: a command here always advances
                    Ok((seq![cj.0], cj.1))
                },
                Err(e) => Err(e),
            }
        }
    }
}

/// The commands of a whole program: repeatedly skip termspaces and
/// comments and parse one command, until the input is exhausted. A stray
/// closing delimiter is a fatal error (the grammar could make no progress
/// there).
pub open spec fn sp_program_items(data: Seq<char>, i: int) -> Result<(Seq<CommandX>, int), ErrX>
    decreases data.len() - i, 7int,
    when 0 <= i <= data.len()
{
    if i >= data.len() {
        Ok((Seq::empty(), i))
    } else {
        let j = sp_termspaces(data, i);
        proof {
            lemma_termspaces_bounds(data, i);
        }
        if j < data.len() && (data[j] == ']' || data[j] == ')') {
            Err(ErrX { kind: ErrorKind::ExpectedConstruct, at: j, msg: "expected command"@ })
        } else {
            match sp_command(data, j) {
                Ok(cj) => if j < cj.1 <= data.len() {
                    match sp_program_items(data, cj.1) {
                        Ok(sj) => Ok((seq![cj.0] + sj.0, sj.1)),
                        Err(e) => Err(e),
                    }
                } else {
                    // not reached: a command here always advances
                    Ok((seq![cj.0], cj.1))
                },
                Err(e) => Err(e),
            }
        }
    }
}

/// A whole program: what `Scanner::parse` returns on the given input.
pub open spec fn sp_parse(data: Seq<char>) -> Result<Seq<CommandX>, ErrX> {
    match sp_program_items(data, 0) {
        Ok(sj) => Ok(sj.0),
        Err(e) => Err(e),
    }
}

/// A term stays within the input, and — entered anywhere but at a word
/// terminator — advances the cursor.
pub proof fn lemma_term_bounds(data: Seq<char>, i: int)
    requires
        0 <= i <= data.len(),
    ensures
        sp_term(data, i) matches Ok(tj) ==> i <= tj.1 <= data.len(),
        i < data.len() && !is_word_terminator_char(data[i]) ==> (sp_term(data, i) matches Ok(tj)
            ==> i < tj.1),
    decreases data.len() - i, 3int,
{
    if i >= data.len() {
    } else if data[i] == '$' {
        lemma_varname_bounds(data, i + 1);
    } else if data[i] == '[' {
        lemma_block_bounds(data, i);
    } else if data[i] == '(' {
        lemma_subst_bounds(data, i);
    } else if data[i] == '\'' {
        lemma_string_bounds(data, i + 1);
    } else if data[i] == '"' {
        lemma_interp_string_bounds(data, i + 1);
    } else {
        lemma_bareword_bounds(data, i);
    }
}

/// A block stays within the input and consumes at least its bracket.
pub proof fn lemma_block_bounds(data: Seq<char>, i: int)
    requires
        0 <= i <= data.len(),
    ensures
        sp_block(data, i) matches Ok(tj) ==> i < tj.1 <= data.len(),
    decreases data.len() - i, 2int,
{
    if i < data.len() && data[i] == '[' {
        lemma_commands_until_bounds(data, i + 1, ']');
    }
}

/// A substitution stays within the input and consumes at least its
/// parenthesis.
pub proof fn lemma_subst_bounds(data: Seq<char>, i: int)
    requires
        0 <= i <= data.len(),
    ensures
        sp_subst(data, i) matches Ok(tj) ==> i < tj.1 <= data.len(),
    decreases data.len() - i, 2int,
{
    if i < data.len() && data[i] == '(' {
        lemma_commands_until_bounds(data, i + 1, ')');
    }
}

/// An interpolation consumes at least its dollar sign.
pub proof fn lemma_interp_dollar_bounds(data: Seq<char>, i: int)
    requires
        0 <= i <= data.len(),
    ensures
        sp_interp_dollar(data, i) matches Ok(tj) ==> i < tj.1 <= data.len(),
    decreases data.len() - i, 1int,
{
    if i < data.len() {
        if i + 1 < data.len() && data[i + 1] == '(' {
            lemma_subst_bounds(data, i + 1);
        } else {
            lemma_varname_bounds(data, i + 1);
        }
    }
}

/// A bareword stays within the input, and — entered anywhere but at a word
/// terminator — advances the cursor.
pub proof fn lemma_bareword_bounds(data: Seq<char>, i: int)
    requires
        0 <= i <= data.len(),
    ensures
        sp_bareword(data, i) matches Ok(sj) ==> i <= sj.1 <= data.len(),
        i < data.len() && !is_word_terminator_char(data[i]) ==> (sp_bareword(data, i) matches Ok(
            sj,
        ) ==> i < sj.1),
    decreases data.len() - i, 2int,
{
    if i >= data.len() || is_word_terminator_char(data[i]) {
    } else if data[i] == '$' {
        lemma_interp_dollar_bounds(data, i);
        if sp_interp_dollar(data, i) is Ok {
            let tj = sp_interp_dollar(data, i)->Ok_0;
            lemma_bareword_bounds(data, tj.1);
        }
    } else {
        lemma_consume_escaped_bounds(data, i, CharPred::BarewordChar);
        if sp_consume_escaped(data, i, CharPred::BarewordChar) is Ok {
            let sj = sp_consume_escaped(data, i, CharPred::BarewordChar)->Ok_0;
            lemma_bareword_bounds(data, sj.1);
        }
    }
}

/// The items of a double-quoted string body stay within the input.
pub proof fn lemma_interp_items_bounds(data: Seq<char>, i: int, depth: int)
    requires
        0 <= i <= data.len(),
    ensures
        sp_interp_items(data, i, depth) matches Ok(sj) ==> i <= sj.1 <= data.len(),
    decreases data.len() - i, 2int,
{
    if depth <= 0 || i >= data.len() {
    } else if data[i] == '$' {
        lemma_interp_dollar_bounds(data, i);
        if sp_interp_dollar(data, i) is Ok {
            let tj = sp_interp_dollar(data, i)->Ok_0;
            lemma_interp_items_bounds(data, tj.1, depth);
        }
    } else {
        lemma_interp_lit_bounds(data, i, depth);
        if sp_interp_lit(data, i, depth) is Ok {
            let t = sp_interp_lit(data, i, depth)->Ok_0;
            if t.2 != 0 && i < t.1 <= data.len() {
                lemma_interp_items_bounds(data, t.1, t.2);
            }
        }
    }
}

/// A double-quoted string body stays within the input.
pub proof fn lemma_interp_string_bounds(data: Seq<char>, i: int)
    requires
        0 <= i <= data.len(),
    ensures
        sp_interp_string(data, i) matches Ok(sj) ==> i <= sj.1 <= data.len(),
    decreases data.len() - i, 3int,
{
    if i < data.len() && data[i] == '{' {
        lemma_interp_items_bounds(data, i + 1, 1);
    } else {
        lemma_bareword_bounds(data, i);
    }
}

/// Components stay within the input, and — entered anywhere but at a word
/// terminator — advance the cursor.
pub proof fn lemma_components_bounds(data: Seq<char>, i: int)
    requires
        0 <= i <= data.len(),
    ensures
        sp_components(data, i) matches Ok(sj) ==> i <= sj.1 <= data.len(),
        i < data.len() && !is_word_terminator_char(data[i]) ==> (sp_components(data, i) matches Ok(
            sj,
        ) ==> i < sj.1),
    decreases data.len() - i, 4int,
{
    if i >= data.len() || is_word_terminator_char(data[i]) {
    } else {
        let step: Result<(ComponentX, int), ErrX> = if data[i] == '-' {
            let j = if i + 1 < data.len() && data[i + 1] == '-' {
                i + 2
            } else {
                i + 1
            };
            match sp_string(data, j) {
                Ok(sj) => Ok((ComponentX::Flag(sj.0), sj.1)),
                Err(e) => Err(e),
            }
        } else {
            match sp_term(data, i) {
                Ok(tj) => Ok((ComponentX::Argument(tj.0), tj.1)),
                Err(e) => Err(e),
            }
        };
        if data[i] == '-' {
            let j = if i + 1 < data.len() && data[i + 1] == '-' {
                i + 2
            } else {
                i + 1
            };
            lemma_string_bounds(data, j);
        } else {
            lemma_term_bounds(data, i);
        }
        if step is Ok {
            let cj = step->Ok_0;
            if i < cj.1 <= data.len() {
                let m = sp_spaces(data, cj.1);
                lemma_spaces_bounds(data, cj.1);
                lemma_components_bounds(data, m);
            }
        }
    }
}

/// A command stays within the input, and — entered anywhere but at a `;`
/// or a stray closing delimiter — advances the cursor.
pub proof fn lemma_command_bounds(data: Seq<char>, i: int)
    requires
        0 <= i <= data.len(),
    ensures
        sp_command(data, i) matches Ok(cj) ==> i <= cj.1 <= data.len(),
        i < data.len() && !is_termspace_char(data[i]) && data[i] != ']' && data[i] != ')' ==> (
        sp_command(data, i) matches Ok(cj) ==> i < cj.1),
    decreases data.len() - i, 5int,
{
    let tgt: Result<(Option<TermX>, int), ErrX> = if i < data.len() && data[i] == '@' {
        match sp_term(data, i + 1) {
            Ok(tj) => Ok((Some(tj.0), tj.1)),
            Err(e) => Err(e),
        }
    } else {
        Ok((None, i))
    };
    if i < data.len() && data[i] == '@' {
        lemma_term_bounds(data, i + 1);
    }
    if tgt is Ok {
        let tj = tgt->Ok_0;
        if i <= tj.1 <= data.len() && tj.1 < data.len() {
            let k = sp_spaces(data, tj.1);
            lemma_spaces_bounds(data, tj.1);
            lemma_components_bounds(data, k);
            if i < data.len() && is_space_char(data[i]) {
                lemma_spaces_progress(data, i);
            }
            if sp_components(data, k) is Ok {
                let cj = sp_components(data, k)->Ok_0;
                if k <= cj.1 <= data.len() {
                    let n = if cj.1 < data.len() && data[cj.1] == ';' {
                        cj.1
                    } else {
                        sp_termspaces(data, cj.1)
                    };
                    lemma_termspaces_bounds(data, cj.1);
                    if cj.1 < data.len() && (is_termspace_char(data[cj.1]) || data[cj.1] == '#')
                        && data[cj.1] != ';' {
                        lemma_termspaces_progress(data, cj.1);
                    }
                    if n < data.len() && data[n] == '|' {
                        let q = sp_spaces(data, n + 1);
                        lemma_spaces_bounds(data, n + 1);
                        lemma_command_bounds(data, q);
                    }
                }
            }
        }
    }
}

/// A delimited command sequence stays within the input.
pub proof fn lemma_commands_until_bounds(data: Seq<char>, i: int, end: char)
    requires
        0 <= i <= data.len(),
    ensures
        sp_commands_until(data, i, end) matches Ok(sj) ==> i <= sj.1 <= data.len(),
    decreases data.len() - i, 6int,
{
    if i < data.len() {
        let j = sp_termspaces(data, i);
        lemma_termspaces_bounds(data, i);
        if j < data.len() && data[j] == end {
        } else if j < data.len() && (data[j] == ']' || data[j] == ')') {
        } else {
            lemma_command_bounds(data, j);
            if sp_command(data, j) is Ok {
                let cj = sp_command(data, j)->Ok_0;
                if j < cj.1 <= data.len() {
                    lemma_commands_until_bounds(data, cj.1, end);
                }
            }
        }
    }
}

impl Scanner {
    /// One `$`-interpolation: the cursor must stand on the `$`; `(` after it
    /// starts a substitution, anything else a variable name.
    pub fn parse_interp_dollar(&mut self) -> (r: Result<Term, ParseError>)
        requires
            old(self).wf(),
            old(self).index < old(self).data@.len(),
            old(self).data@[old(self).index as int] == '$',
        ensures
            final(self).wf(),
            final(self).data@ == old(self).data@,
            match (r, sp_interp_dollar(old(self).data@, old(self).index as int)) {
                (Ok(t), Ok(tj)) => t@ == tj.0 && final(self).index as int == tj.1,
                (Err(e), Err(ex)) => err_matches(old(self).data@, e, ex) && final(self).index
                    as int == ex.at,
                _ => false,
            },
        decreases old(self).data@.len() - old(self).index, 1int,
    {
        self.bump();  // skip the dollar
        let at_paren = match self.get_ch() {
            Some(c) => c == '(',
            None => false,
        };
        if at_paren {
            self.parse_subst()
        } else {
            match self.parse_varname() {
                Ok(name) => Ok(Term::Variable(name)),
                Err(e) => Err(e),
            }
        }
    }

    /// An interpolated bareword: literal runs (escape-aware) and
    /// `$`-interpolations, up to a word terminator or end of input.
    pub fn parse_bareword(&mut self) -> (r: Result<Vec<Term>, ParseError>)
        requires
            old(self).wf(),
        ensures
            final(self).wf(),
            final(self).data@ == old(self).data@,
            match (r, sp_bareword(old(self).data@, old(self).index as int)) {
                (Ok(ts), Ok(sj)) => view_terms(ts@) == sj.0 && final(self).index as int == sj.1,
                (Err(e), Err(ex)) => err_matches(old(self).data@, e, ex) && final(self).index
                    as int == ex.at,
                _ => false,
            },
        decreases old(self).data@.len() - old(self).index, 2int,
    {
        let ghost data = self.data@;
        let ghost i0 = self.index as int;
        let mut items: Vec<Term> = Vec::new();
        loop
            invariant
                self.wf(),
                self.data@ == data,
                i0 <= self.index as int <= data.len(),
                ({
                    let cur = self.index as int;
                    match sp_bareword(data, cur) {
                        Ok(sj) => sp_bareword(data, i0) == Ok::<_, ErrX>(
                            (view_terms(items@) + sj.0, sj.1),
                        ),
                        Err(e) => sp_bareword(data, i0) == Err::<(Seq<TermX>, int), _>(e),
                    }
                }),
            decreases data.len() - self.index,
        {
            let c0 = match self.get_ch() {
                Some(c) => c,
                None => { break ; },
            };
            if is_word_terminator(c0) {
                break ;
            }
            let ghost pre = self.index as int;
            let ghost items0 = items@;
            if c0 == '$' {
                let t = match self.parse_interp_dollar() {
                    Ok(t) => t,
                    Err(e) => { return Err(e); },
                };
                items.push(t);
                proof {
                    lemma_interp_dollar_bounds(data, pre);
                    lemma_view_terms_push(items0, t);
                    let cur2 = self.index as int;
                    if sp_bareword(data, cur2) is Ok {
                        let sj = sp_bareword(data, cur2)->Ok_0;
                        assert(view_terms(items@) + sj.0 =~= view_terms(items0) + (seq![t@]
                            + sj.0));
                    }
                }
            } else {
                let s = match self.consume_escaped(CharPred::BarewordChar) {
                    Ok(s) => s,
                    Err(e) => { return Err(e); },
                };
                let t = Term::StringLiteral(s);
                items.push(t);
                proof {
                    lemma_consume_escaped_bounds(data, pre, CharPred::BarewordChar);
                    lemma_view_terms_push(items0, t);
                    let cur2 = self.index as int;
                    if sp_bareword(data, cur2) is Ok {
                        let sj = sp_bareword(data, cur2)->Ok_0;
                        assert(view_terms(items@) + sj.0 =~= view_terms(items0) + (seq![t@]
                            + sj.0));
                    }
                }
            }
        }
        proof {
            assert(view_terms(items@) + Seq::<TermX>::empty() =~= view_terms(items@));
        }
        Ok(items)
    }

    /// A double-quoted string body, after the quote: with no opening brace
    /// it falls back to the bareword grammar; otherwise the brace is
    /// consumed and interpolations and literal runs are read until the
    /// outermost brace closes (the closing `}` is left unconsumed).
    #[verifier::rlimit(50)]
    pub fn parse_interp_string(&mut self) -> (r: Result<Vec<Term>, ParseError>)
        requires
            old(self).wf(),
        ensures
            final(self).wf(),
            final(self).data@ == old(self).data@,
            match (r, sp_interp_string(old(self).data@, old(self).index as int)) {
                (Ok(ts), Ok(sj)) => view_terms(ts@) == sj.0 && final(self).index as int == sj.1,
                (Err(e), Err(ex)) => err_matches(old(self).data@, e, ex) && final(self).index
                    as int == ex.at,
                _ => false,
            },
        decreases old(self).data@.len() - old(self).index, 3int,
    {
        let ghost data = self.data@;
        let at_brace = match self.get_ch() {
            Some(c) => c == '{',
            None => false,
        };
        if !at_brace {
            return self.parse_bareword();
        }
        self.bump();
        let ghost base = self.index as int;
        let mut items: Vec<Term> = Vec::new();
        let mut depth: usize = 1;
        loop
            invariant
                self.wf(),
                self.data@ == data,
                1 <= base <= self.index as int <= data.len(),
                depth as int <= self.index as int - base + 1,
                ({
                    let cur = self.index as int;
                    match sp_interp_items(data, cur, depth as int) {
                        Ok(sj) => sp_interp_items(data, base, 1) == Ok::<_, ErrX>(
                            (view_terms(items@) + sj.0, sj.1),
                        ),
                        Err(e) => sp_interp_items(data, base, 1) == Err::<(Seq<TermX>, int), _>(e),
                    }
                }),
            decreases 2 * (data.len() - self.index) + depth,
        {
            if depth == 0 {
                break ;
            }
            if self.index >= self.data.len() {
                return Err(self.err(ErrorKind::UnterminatedBraces, "unterminated braces"));
            }
            let c0 = self.data[self.index];
            let ghost pre = self.index as int;
            let ghost depth0 = depth as int;
            let ghost items0 = items@;
            if c0 == '$' {
                let t = match self.parse_interp_dollar() {
                    Ok(t) => t,
                    Err(e) => { return Err(e); },
                };
                items.push(t);
                proof {
                    lemma_interp_dollar_bounds(data, pre);
                    lemma_view_terms_push(items0, t);
                    let cur2 = self.index as int;
                    if sp_interp_items(data, cur2, depth as int) is Ok {
                        let sj = sp_interp_items(data, cur2, depth as int)->Ok_0;
                        assert(view_terms(items@) + sj.0 =~= view_terms(items0) + (seq![t@]
                            + sj.0));
                    }
                }
            } else {
                // one literal run, tracking brace depth, no escape handling
                let mut seg = String::new();
                let mut d: usize = depth;
                let mut failed = false;
                let ghost enter = self.index as int;
                #[verifier::loop_isolation(true)]
                loop
                    invariant_except_break
                        self.wf(),
                        self.data@ == data,
                        1 <= base <= enter <= self.index as int,
                        self.index as int <= data.len(),
                        enter < data.len(),
                        data[enter] != '$',
                        1 <= depth0,
                        depth0 <= enter - base + 1,
                        !failed,
                        1 <= d,
                        d as int <= depth0 + (self.index as int - enter),
                        ({
                            let cur = self.index as int;
                            match sp_interp_lit(data, cur, d as int) {
                                Ok(t) => sp_interp_lit(data, enter, depth0) == Ok::<_, ErrX>(
                                    (seg@ + t.0, t.1, t.2),
                                ),
                                Err(e) => sp_interp_lit(data, enter, depth0) == Err::<
                                    (Seq<char>, int, int),
                                    _,
                                >(e),
                            }
                        }),
                    ensures
                        self.wf(),
                        self.data@ == data,
                        enter <= self.index as int <= data.len(),
                        d as int <= depth0 + (self.index as int - enter),
                        !failed ==> sp_interp_lit(data, enter, depth0) == Ok::<_, ErrX>(
                            (seg@, self.index as int, d as int),
                        ),
                        !failed ==> (d > 0 ==> self.index as int > enter),
                        failed ==> self.index as int == data.len() && sp_interp_lit(
                            data,
                            enter,
                            depth0,
                        ) == Err::<(Seq<char>, int, int), _>(
                            ErrX {
                                kind: ErrorKind::UnterminatedBraces,
                                at: data.len() as int,
                                msg: "unterminated braces"@,
                            },
                        ),
                    decreases data.len() - self.index,
                {
                    if self.index >= self.data.len() {
                        failed = true;
                        break ;
                    }
                    let ch = self.data[self.index];
                    let ghost seg0 = seg@;
                    if ch == '{' {
                        push_char(&mut seg, '{');
                        d = d + 1;
                        self.bump();
                        proof {
                            let cur2 = self.index as int;
                            if sp_interp_lit(data, cur2, d as int) is Ok {
                                let t = sp_interp_lit(data, cur2, d as int)->Ok_0;
                                assert(seg@ + t.0 =~= seg0 + (seq!['{'] + t.0));
                            }
                        }
                    } else if ch == '}' {
                        if d == 1 {
                            d = 0;
                            proof {
                                assert(seg@ + Seq::<char>::empty() =~= seg@);
                            }
                            break ;
                        }
                        d = d - 1;
                        push_char(&mut seg, '}');
                        self.bump();
                        proof {
                            let cur2 = self.index as int;
                            if sp_interp_lit(data, cur2, d as int) is Ok {
                                let t = sp_interp_lit(data, cur2, d as int)->Ok_0;
                                assert(seg@ + t.0 =~= seg0 + (seq!['}'] + t.0));
                            }
                        }
                    } else if ch == '$' {
                        proof {
                            assert(seg@ + Seq::<char>::empty() =~= seg@);
                        }
                        break ;
                    } else {
                        push_char(&mut seg, ch);
                        self.bump();
                        proof {
                            let cur2 = self.index as int;
                            if sp_interp_lit(data, cur2, d as int) is Ok {
                                let t = sp_interp_lit(data, cur2, d as int)->Ok_0;
                                assert(seg@ + t.0 =~= seg0 + (seq![ch] + t.0));
                            }
                        }
                    }
                }
                if failed {
                    return Err(self.err(ErrorKind::UnterminatedBraces, "unterminated braces"));
                }
                let ghost j = self.index as int;
                let ghost d2 = d as int;
                let ghost segv = seg@;
                let ghost litx: Seq<TermX> = if segv.len() > 0 {
                    seq![TermX::StringLit(segv)]
                } else {
                    Seq::empty()
                };
                if seg.as_str().unicode_len() > 0 {
                    let t = Term::StringLiteral(seg);
                    items.push(t);
                    proof {
                        lemma_view_terms_push(items0, t);
                        assert(view_terms(items@) =~= view_terms(items0) + litx);
                    }
                } else {
                    proof {
                        assert(view_terms(items@) =~= view_terms(items0) + litx);
                    }
                }
                depth = d;
                proof {
                    if d2 == 0 {
                        assert(view_terms(items@) + Seq::<TermX>::empty() =~= view_terms(items0)
                            + litx);
                    } else {
                        if sp_interp_items(data, j, d2) is Ok {
                            let sj = sp_interp_items(data, j, d2)->Ok_0;
                            assert(view_terms(items@) + sj.0 =~= view_terms(items0) + (litx
                                + sj.0));
                        }
                    }
                }
            }
        }
        proof {
            assert(view_terms(items@) + Seq::<TermX>::empty() =~= view_terms(items@));
        }
        Ok(items)
    }

    /// A term, dispatched on the current character: `$` a variable, `[` a
    /// block, `(` a substitution, `'` a string literal, `"` an interpolated
    /// string, anything else an interpolated bareword.
    pub fn parse_term(&mut self) -> (r: Result<Term, ParseError>)
        requires
            old(self).wf(),
        ensures
            final(self).wf(),
            final(self).data@ == old(self).data@,
            match (r, sp_term(old(self).data@, old(self).index as int)) {
                (Ok(t), Ok(tj)) => t@ == tj.0 && final(self).index as int == tj.1,
                (Err(e), Err(ex)) => err_matches(old(self).data@, e, ex) && final(self).index
                    as int == ex.at,
                _ => false,
            },
        decreases old(self).data@.len() - old(self).index, 3int,
    {
        let c = match self.get_ch() {
            Some(c) => c,
            None => {
                return Err(self.err(ErrorKind::ExpectedConstruct, "expected term, got eof"));
            },
        };
        if c == '$' {
            self.bump();
            match self.parse_varname() {
                Ok(name) => Ok(Term::Variable(name)),
                Err(e) => Err(e),
            }
        } else if c == '[' {
            self.parse_block()
        } else if c == '(' {
            self.parse_subst()
        } else if c == '\'' {
            self.bump();
            match self.parse_string() {
                Ok(s) => Ok(Term::StringLiteral(s)),
                Err(e) => Err(e),
            }
        } else if c == '"' {
            self.bump();
            match self.parse_interp_string() {
                Ok(ts) => Ok(Term::Interp(ts)),
                Err(e) => Err(e),
            }
        } else {
            match self.parse_bareword() {
                Ok(ts) => Ok(Term::Interp(ts)),
                Err(e) => Err(e),
            }
        }
    }

    /// A block `[ ... ]`: the opening bracket must be present, then
    /// commands up to the matching `]`.
    pub fn parse_block(&mut self) -> (r: Result<Term, ParseError>)
        requires
            old(self).wf(),
        ensures
            final(self).wf(),
            final(self).data@ == old(self).data@,
            match (r, sp_block(old(self).data@, old(self).index as int)) {
                (Ok(t), Ok(tj)) => t@ == tj.0 && final(self).index as int == tj.1,
                (Err(e), Err(ex)) => err_matches(old(self).data@, e, ex) && final(self).index
                    as int == ex.at,
                _ => false,
            },
        decreases old(self).data@.len() - old(self).index, 2int,
    {
        let at = match self.get_ch() {
            Some(c) => c == '[',
            None => false,
        };
        if !at {
            return Err(self.err(ErrorKind::ExpectedConstruct, "expected a block"));
        }
        self.bump();
        match self.parse_commands_until(']') {
            Ok(cs) => Ok(Term::Block(cs)),
            Err(e) => Err(e),
        }
    }

    /// A substitution `( ... )`: the opening parenthesis must be present,
    /// then commands up to the matching `)`.
    pub fn parse_subst(&mut self) -> (r: Result<Term, ParseError>)
        requires
            old(self).wf(),
        ensures
            final(self).wf(),
            final(self).data@ == old(self).data@,
            match (r, sp_subst(old(self).data@, old(self).index as int)) {
                (Ok(t), Ok(tj)) => t@ == tj.0 && final(self).index as int == tj.1,
                (Err(e), Err(ex)) => err_matches(old(self).data@, e, ex) && final(self).index
                    as int == ex.at,
                _ => false,
            },
        decreases old(self).data@.len() - old(self).index, 2int,
    {
        let at = match self.get_ch() {
            Some(c) => c == '(',
            None => false,
        };
        if !at {
            return Err(self.err(ErrorKind::ExpectedConstruct, "expected a block"));
        }
        self.bump();
        match self.parse_commands_until(')') {
            Ok(cs) => Ok(Term::Subst(cs)),
            Err(e) => Err(e),
        }
    }

    /// Commands up to the closing delimiter `end`: repeatedly skip
    /// termspaces and comments, stop at (and consume) `end`, else parse one
    /// command. End of input before `end` silently ends the sequence.
    pub fn parse_commands_until(&mut self, end: char) -> (r: Result<Vec<Command>, ParseError>)
        requires
            old(self).wf(),
        ensures
            final(self).wf(),
            final(self).data@ == old(self).data@,
            match (r, sp_commands_until(old(self).data@, old(self).index as int, end)) {
                (Ok(cs), Ok(sj)) => view_commands(cs@) == sj.0 && final(self).index as int == sj.1,
                (Err(e), Err(ex)) => err_matches(old(self).data@, e, ex) && final(self).index
                    as int == ex.at,
                _ => false,
            },
        decreases old(self).data@.len() - old(self).index, 6int,
    {
        let ghost data = self.data@;
        let ghost i0 = self.index as int;
        let mut cs: Vec<Command> = Vec::new();
        loop
            invariant
                self.wf(),
                self.data@ == data,
                i0 <= self.index as int <= data.len(),
                ({
                    let cur = self.index as int;
                    match sp_commands_until(data, cur, end) {
                        Ok(sj) => sp_commands_until(data, i0, end) == Ok::<_, ErrX>(
                            (view_commands(cs@) + sj.0, sj.1),
                        ),
                        Err(e) => sp_commands_until(data, i0, end) == Err::<
                            (Seq<CommandX>, int),
                            _,
                        >(e),
                    }
                }),
            decreases data.len() - self.index,
        {
            if self.index >= self.data.len() {
                break ;
            }
            let ghost pre = self.index as int;
            self.parse_termspaces();
            proof {
                lemma_termspaces_bounds(data, pre);
            }
            let cur_ch = self.get_ch();
            let found_end = match cur_ch {
                Some(c) => c == end,
                None => false,
            };
            if found_end {
                self.bump();
                proof {
                    assert(view_commands(cs@) + Seq::<CommandX>::empty() =~= view_commands(cs@));
                }
                return Ok(cs);
            }
            let stray = match cur_ch {
                Some(c) => c == ']' || c == ')',
                None => false,
            };
            if stray {
                return Err(self.err(ErrorKind::ExpectedConstruct, "expected command"));
            }
            let ghost jpos = self.index as int;
            let ghost cs0 = cs@;
            let c = match self.parse_command() {
                Ok(c) => c,
                Err(e) => { return Err(e); },
            };
            cs.push(c);
            proof {
                lemma_command_bounds(data, jpos);
                lemma_view_commands_push(cs0, c);
                let cur2 = self.index as int;
                if sp_commands_until(data, cur2, end) is Ok {
                    let sj = sp_commands_until(data, cur2, end)->Ok_0;
                    assert(view_commands(cs@) + sj.0 =~= view_commands(cs0) + (seq![c@] + sj.0));
                }
            }
        }
        proof {
            assert(view_commands(cs@) + Seq::<CommandX>::empty() =~= view_commands(cs@));
        }
        Ok(cs)
    }

    /// One command: an optional `@`-target, spaces, flags and arguments in
    /// order, then — unless a `;` stands here — termspaces and comments,
    /// and an optional `|`-pipe into one further command.
    pub fn parse_command(&mut self) -> (r: Result<Command, ParseError>)
        requires
            old(self).wf(),
        ensures
            final(self).wf(),
            final(self).data@ == old(self).data@,
            match (r, sp_command(old(self).data@, old(self).index as int)) {
                (Ok(c), Ok(cj)) => c@ == cj.0 && final(self).index as int == cj.1,
                (Err(e), Err(ex)) => err_matches(old(self).data@, e, ex) && final(self).index
                    as int == ex.at,
                _ => false,
            },
        decreases old(self).data@.len() - old(self).index, 5int,
    {
        let ghost data = self.data@;
        let ghost i0 = self.index as int;
        let at_target = match self.get_ch() {
            Some(c) => c == '@',
            None => false,
        };
        let target: Option<Term>;
        if at_target {
            self.bump();
            match self.parse_term() {
                Ok(t) => { target = Some(t); },
                Err(e) => { return Err(e); },
            }
        } else {
            target = None;
        }
        let ghost tpos = self.index as int;
        proof {
            if at_target {
                lemma_term_bounds(data, i0 + 1);
            }
        }
        if self.index >= self.data.len() {
            return Err(self.err(ErrorKind::ExpectedConstruct, "expected command, got eof"));
        }
        self.parse_spaces();
        proof {
            lemma_spaces_bounds(data, tpos);
        }
        let ghost kpos = self.index as int;
        let mut components: Vec<Component> = Vec::new();
        loop
            invariant
                self.wf(),
                self.data@ == data,
                kpos <= self.index as int <= data.len(),
                ({
                    let cur = self.index as int;
                    match sp_components(data, cur) {
                        Ok(sj) => sp_components(data, kpos) == Ok::<_, ErrX>(
                            (view_components(components@) + sj.0, sj.1),
                        ),
                        Err(e) => sp_components(data, kpos) == Err::<(Seq<ComponentX>, int), _>(e),
                    }
                }),
            decreases data.len() - self.index,
        {
            let c0 = match self.get_ch() {
                Some(c) => c,
                None => { break ; },
            };
            if is_word_terminator(c0) {
                break ;
            }
            let ghost pre = self.index as int;
            let ghost comps0 = components@;
            let comp: Component;
            if c0 == '-' {
                self.bump();
                let second = match self.get_ch() {
                    Some(d) => d == '-',
                    None => false,
                };
                if second {
                    self.bump();
                }
                let ghost jj = self.index as int;
                match self.parse_string() {
                    Ok(name) => { comp = Component::Flag(name); },
                    Err(e) => { return Err(e); },
                }
                proof {
                    lemma_string_bounds(data, jj);
                }
            } else {
                match self.parse_term() {
                    Ok(t) => { comp = Component::Argument(t); },
                    Err(e) => { return Err(e); },
                }
                proof {
                    lemma_term_bounds(data, pre);
                }
            }
            let ghost step_pos = self.index as int;
            components.push(comp);
            self.parse_spaces();
            proof {
                lemma_spaces_bounds(data, step_pos);
                lemma_view_components_push(comps0, comp);
                let cur2 = self.index as int;
                if sp_components(data, cur2) is Ok {
                    let sj = sp_components(data, cur2)->Ok_0;
                    assert(view_components(components@) + sj.0 =~= view_components(comps0) + (seq![
                        comp@,
                    ] + sj.0));
                }
            }
        }
        proof {
            assert(view_components(components@) + Seq::<ComponentX>::empty() =~= view_components(
                components@,
            ));
        }
        let ghost mpos = self.index as int;
        // pipes can come after comments or newlines, but not semicolons
        let at_semi = match self.get_ch() {
            Some(c) => c == ';',
            None => false,
        };
        if !at_semi {
            self.parse_termspaces();
            proof {
                lemma_termspaces_bounds(data, mpos);
            }
        }
        let ghost npos = self.index as int;
        let at_pipe = match self.get_ch() {
            Some(c) => c == '|',
            None => false,
        };
        if at_pipe {
            self.bump();
            self.parse_spaces();
            proof {
                lemma_spaces_bounds(data, npos + 1);
            }
            let pc = match self.parse_command() {
                Ok(c) => c,
                Err(e) => { return Err(e); },
            };
            return Ok(Command { target, components, pipe: Some(Box::new(pc)) });
        }
        Ok(Command { target, components, pipe: None })
    }

    /// A whole program: repeatedly skip termspaces and comments and parse
    /// one command, until the input is exhausted. The result is determined
    /// by the input text alone, so parsing the same text twice yields
    /// structurally identical programs.
    pub fn parse(&mut self) -> (r: Result<Program, ParseError>)
        requires
            old(self).wf(),
        ensures
            final(self).wf(),
            final(self).data@ == old(self).data@,
            match (r, sp_program_items(old(self).data@, old(self).index as int)) {
                (Ok(p), Ok(sj)) => p@ == sj.0 && final(self).index as int == sj.1,
                (Err(e), Err(ex)) => err_matches(old(self).data@, e, ex) && final(self).index
                    as int == ex.at,
                _ => false,
            },
            old(self).index == 0 ==> match (r, sp_parse(old(self).data@)) {
                (Ok(p), Ok(csx)) => p@ == csx,
                (Err(e), Err(ex)) => err_matches(old(self).data@, e, ex),
                _ => false,
            },
    {
        let ghost data = self.data@;
        let ghost i0 = self.index as int;
        let mut cs: Vec<Command> = Vec::new();
        loop
            invariant
                self.wf(),
                self.data@ == data,
                i0 <= self.index as int <= data.len(),
                ({
                    let cur = self.index as int;
                    match sp_program_items(data, cur) {
                        Ok(sj) => sp_program_items(data, i0) == Ok::<_, ErrX>(
                            (view_commands(cs@) + sj.0, sj.1),
                        ),
                        Err(e) => sp_program_items(data, i0) == Err::<(Seq<CommandX>, int), _>(e),
                    }
                }),
            decreases data.len() - self.index,
        {
            if self.index >= self.data.len() {
                break ;
            }
            let ghost pre = self.index as int;
            self.parse_termspaces();
            proof {
                lemma_termspaces_bounds(data, pre);
            }
            let stray = match self.get_ch() {
                Some(c) => c == ']' || c == ')',
                None => false,
            };
            if stray {
                return Err(self.err(ErrorKind::ExpectedConstruct, "expected command"));
            }
            let ghost jpos = self.index as int;
            let ghost cs0 = cs@;
            let c = match self.parse_command() {
                Ok(c) => c,
                Err(e) => { return Err(e); },
            };
            cs.push(c);
            proof {
                lemma_command_bounds(data, jpos);
                lemma_view_commands_push(cs0, c);
                let cur2 = self.index as int;
                if sp_program_items(data, cur2) is Ok {
                    let sj = sp_program_items(data, cur2)->Ok_0;
                    assert(view_commands(cs@) + sj.0 =~= view_commands(cs0) + (seq![c@] + sj.0));
                }
            }
        }
        proof {
            assert(view_commands(cs@) + Seq::<CommandX>::empty() =~= view_commands(cs@));
        }
        Ok(Program { commands: cs })
    }
}

} // verus!

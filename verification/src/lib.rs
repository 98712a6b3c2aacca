//! Front end of the ixl command language: a character scanner and a
//! recursive-descent parser that turn script text into an abstract syntax
//! tree of pipelines, commands, flags and interpolated terms.
//!
//! The grammar is specified by pure functions over the input character
//! sequence (the `sp_*` functions); every executable routine is proved to
//! return exactly what those functions say.
#![verifier::loop_isolation(false)]

pub mod ast;
pub mod chars;
pub mod error;
pub mod grammar;
pub mod laws;
pub mod scanner;

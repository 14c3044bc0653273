//! Lexical analyzer for a small dynamically-typed scripting language.
//!
//! The scanner walks a source text once, left to right, and turns it into an
//! ordered sequence of tokens, collecting a structured record for every
//! lexical error it meets along the way. The intended behaviour is written
//! down as a recursive specification over the source characters
//! ([`model::scan_from`]); the executable [`scanner::Scanner`] is proved to
//! produce exactly the tokens, errors and final line number of that
//! specification.

pub mod model;
pub mod scanner;
pub mod token;

use vstd::prelude::*;

use crate::token::{LexError, LexErrorKind};

verus! {

/// Builds the structured report for one lexical error at the given 1-based
/// line. The scanner records these as it goes; the caller decides how to
/// surface them.
pub fn error(line: usize, kind: LexErrorKind) -> (e: LexError)
    ensures
        e == (LexError { kind, line }),
{
    LexError { kind, line }
}

} // verus!

//! The failure conditions of the compiler.

use vstd::prelude::*;

verus! {

/// Everything that can go wrong while compiling a source program.
///
/// Only `UnmatchedBracket` is produced by the core passes; the other
/// variants are reserved for the I/O shell around the library.
#[derive(Debug, PartialEq, Eq, Structural)]
pub enum CompilerError {
    MissingArg,
    SourceFileRead,
    UnmatchedBracket,
    OutputFileWrite,
}

} // verus!

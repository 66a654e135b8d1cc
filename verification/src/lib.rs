//! A compiler for an eight-symbol tape-manipulation language.
//!
//! Source bytes are parsed into a program tree, the tree is optimized by
//! run-length coalescing and a shift-elision peephole rewrite, and the
//! optimized tree is lowered to x86-64 assembly text with direct syscalls
//! for byte I/O.

pub mod codegen;
pub mod command;
pub mod error;
pub mod optimized_command;
pub mod semantics;
pub mod shift_elision;

use vstd::prelude::*;

use crate::codegen::{asm_view, emit_asm};
use crate::command::{lemma_parse_rest, lemma_parse_rest_size, parse, parse_rest};
use crate::error::CompilerError;
use crate::optimized_command::{lemma_optimize_loops, optimize, optimize_view};

verus! {

/// Compiles a whole source program: parse, optimize, generate assembly.
///
/// Succeeds exactly when the source parses (see [`command::parse`]), and
/// then returns the assembly text of the optimized tree; the only failure
/// is [`CompilerError::UnmatchedBracket`].
pub fn compile(source_code: Vec<u8>) -> (r: Result<String, CompilerError>)
    ensures
        parse_rest(source_code@, 0).1 == source_code@.len() ==> (r matches Ok(text) && text@
            == asm_view(optimize_view(parse_rest(source_code@, 0).0))),
        parse_rest(source_code@, 0).1 != source_code@.len() ==> r == Err::<String, _>(
            CompilerError::UnmatchedBracket,
        ),
{
    let ghost src = source_code@;
    // The source length bounds the tree size, and with it the loop
    // count that the label counter must hold.
    let source_len = source_code.len();
    match parse(source_code) {
        Err(e) => Err(e),
        Ok(commands) => {
            let optimized = optimize(commands.as_slice());
            proof {
                lemma_parse_rest(src, 0);
                lemma_parse_rest_size(src, 0);
                lemma_optimize_loops(parse_rest(src, 0).0);
                assert(src.len() == source_len);
            }
            Ok(emit_asm(optimized.as_slice()))
        },
    }
}

} // verus!

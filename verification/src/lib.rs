//! A small ahead-of-time compiler from an eight-instruction tape language to
//! WebAssembly text.
//!
//! Source text is lexed into an instruction stream, the stream is translated
//! into operations with runs folded and simple loops reduced, and the
//! operations are written out as the text of a module.

use crate::bf_ops::{
    instructions, is_instruction, lemma_noise_is_ignored, parse, translation, CompileError,
};
use crate::code_generator::{generate_wat, lemma_labels_issued_monotonic, wat_text};
use vstd::prelude::*;

pub mod bf_ops;
pub mod code_generator;
pub mod constructs;
pub mod decimal;
pub mod invariants;
pub mod semantics;

verus! {

/// The module text that `source` compiles to, or the position of the bracket
/// without partner.
pub open spec fn compiled(source: Seq<char>) -> Result<Seq<char>, int> {
    match translation(instructions(source)) {
        Ok(ops) => Ok(wat_text(ops)),
        Err(position) => Err(position),
    }
}

/// Characters that are no instructions, put anywhere into a source, do not
/// change what it compiles to.
pub proof fn lemma_compiled_ignores_noise(source: Seq<char>, at: int, noise: Seq<char>)
    requires
        0 <= at <= source.len(),
        forall|k: int| 0 <= k < noise.len() ==> !is_instruction(noise[k]),
    ensures
        compiled(source.take(at) + noise + source.skip(at)) == compiled(source),
{
    lemma_noise_is_ignored(source, at, noise);
}

/// Compiles `source` to the text of a module whose entry procedure runs it.
pub fn compile(source: &str) -> (res: Result<String, CompileError>)
    requires
        instructions(source@).len() <= i32::MAX,
    ensures
        match res {
            Ok(text) => compiled(source@) == Ok::<Seq<char>, int>(text@),
            Err(CompileError::MismatchedLoop { position }) => compiled(source@) == Err::<
                Seq<char>,
                int,
            >(position as int),
        },
{
    match parse(source) {
        Ok(ops) => {
            proof {
                lemma_labels_issued_monotonic(ops@, 0, ops@.len() as int);
            }
            Ok(generate_wat(ops.as_slice()))
        },
        Err(e) => Err(e),
    }
}

} // verus!

//! A compiler from the eight-symbol tape-machine language to x86-64 assembly text.
//!
//! Compilation runs in three stages, each a pure function:
//! [`tokenizer::tokenize`] keeps the eight meaningful characters of the source,
//! [`ir::generate_ir`] folds runs of repeated symbols into counted operations, and
//! [`assembler::generate_assembly`] emits the assembly text, pairing every loop
//! opening with its closing through a numbered label.
pub mod assembler;
pub mod decimal;
pub mod ir;
pub mod nesting;
pub mod tokenizer;

pub use crate::assembler::{generate_assembly, CodegenError};
pub use crate::ir::{generate_ir, IR};
pub use crate::tokenizer::tokenize;

use crate::assembler::assembly;
use crate::ir::encode;
use crate::nesting::{closes_unopened, leaves_open, well_nested};
use crate::tokenizer::symbols;
use vstd::prelude::*;

verus! {

/// The operations that a source text stands for.
pub open spec fn program(source: Seq<char>) -> Seq<IR> {
    encode(symbols(source))
}

/// Compiles a source text to assembly text: the three stages, one after the other.
///
/// Fails where the loops of the program are not well nested.
pub fn compile(source: &str) -> (res: Result<String, CodegenError>)
    ensures
        res is Ok <==> well_nested(program(source@)),
        res is Ok ==> res->Ok_0@ == assembly(program(source@)),
        res == Err::<String, CodegenError>(CodegenError::UnmatchedLoopClose) <==> closes_unopened(
            program(source@),
        ),
        res == Err::<String, CodegenError>(CodegenError::UnmatchedLoopOpen) <==> !closes_unopened(
            program(source@),
        ) && leaves_open(program(source@)),
{
    let tokens = tokenize(source);
    let ir = generate_ir(tokens);
    generate_assembly(ir)
}

} // verus!

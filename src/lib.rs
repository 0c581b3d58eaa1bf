//! A compiler for the eight-opcode tape language: tokenizer, parser,
//! run-length optimizer, an x86-64 code plan with label discipline for a JIT
//! runtime, and the pieces of a flat interpreter.

use vstd::prelude::*;

pub mod ast;
pub mod token;
pub mod parse;
pub mod optimize;
pub mod codegen;
pub mod labels;
pub mod state;
pub mod jumps;
pub mod source;

pub use ast::Expression;
pub use codegen::{CodePlan, Emit, Stats, compile, generate, opcodes_size, stats};
pub use labels::labels_resolved;
pub use jumps::{Action, Interpreter, bf_jumps, bf_step};
pub use optimize::optimize;
pub use parse::{InvalidProgramError, parse};
pub use state::BFState;
pub use token::{Position, Token, tokenize};

verus! {

/// Number of cells of the data array that programs run against by default.
pub const DEFAULT_MEM_SIZE: usize = 30000;

} // verus!

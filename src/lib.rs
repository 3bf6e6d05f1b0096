//! A Brainfuck toolchain core: a parser into a run-length encoded instruction
//! stream, a peephole optimizer, a step-wise interpreter and a C code generator.
use vstd::prelude::*;

pub mod ops;
pub mod parse;
pub mod interp;
pub mod optimize;
pub mod codegen;
pub mod laws;
pub mod equiv;

pub use ops::{BfError, BfStr, Op, Operation};
pub use parse::count_step;
pub use interp::{Action, Machine, Status, TAPE_LEN};

verus! {

} // verus!

//! A verified arithmetic evaluator: a lexer, a precedence-climbing parser,
//! a bytecode compiler, and a stack machine, each specified and proved.
//!
//! A source line flows left to right through the stages: `compiler::compile`
//! turns text into a program, `vm::Vm` executes it against a bounded value
//! stack.  Numbers are exact fractions of machine integers; every failure is
//! a [`diag::Diag`] carrying a message, a hint, and a source span.  The
//! `laws` module states and proves what the pipeline as a whole guarantees.

use vstd::prelude::*;

pub mod compiler;
pub mod diag;
pub mod laws;
pub mod lexer;
pub mod parser;
pub mod stack;
pub mod value;
pub mod vm;

verus! {

/// Upper bound on the value stack of the virtual machine.
pub const STACK_CAPACITY: usize = 1024;

} // verus!

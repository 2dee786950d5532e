//! A small regular-expression engine: a pattern is compiled to a bytecode
//! program, and a virtual machine runs the program over an input by keeping a
//! set of threads, one for every path the automaton may be on.
pub mod compiler;
pub mod equivalence;
pub mod grammar;
pub mod instruction;
pub mod laws;
pub mod linker;
pub mod semantics;
pub mod text;
pub mod vm;

pub use crate::compiler::{compile, Compiler};
pub use crate::instruction::Instruction;
pub use crate::vm::Vm;

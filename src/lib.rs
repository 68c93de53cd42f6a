//! An interpreter core for the eight-instruction tape language: a lexer that
//! resolves loop brackets ahead of time, and a virtual machine that executes
//! the resolved instructions one step at a time.
pub mod instruction;
pub mod lexer;
pub mod machine;
pub mod vm;
pub mod dump;

//! A small register machine for procedure bodies: a compiler from a syntax
//! tree to bytecode, and an interpreter for that bytecode.
//!
//! - `ast`: the syntax that the compiler reads, and its errors.
//! - `compiler`: from a procedure to a buffer of instructions.
//! - `opcode`, `bytes`, `register`, `number`: the instruction set, its
//!   operands, tagged values, and numbers as float bit patterns.
//! - `process`: one execution of a buffer, instruction by instruction.
//! - `vm`: the registered programs and the calls between them.
//! - `hooks`: which procedures of the host the machine stands in for.
//! - `laws`, `safety`: what is proved of the compiler and the machine
//!   together.
//!
//! The machine computes nothing on floats and never calls into the host.
//! Where an instruction needs either, the step hands the request out and
//! waits for the answer, so the loop that drives a program lives with the
//! caller.

pub mod ast;
pub mod bytes;
pub mod compiler;
pub mod hooks;
pub mod laws;
pub mod number;
pub mod opcode;
pub mod process;
pub mod register;
pub mod safety;
pub mod vm;

//! A small virtual machine toolchain: an assembler for a line-oriented
//! assembly language, a binary bytecode format, a stack-based virtual CPU
//! and a disassembler.

pub mod bytecode;
pub mod cli;
pub mod error;
pub mod isa;
pub mod text;
pub mod vm;
pub mod disassembler;
pub mod assembler;
pub mod reassembly;

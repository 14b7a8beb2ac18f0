//! The command line of the toolchain: which tool to run and on which files.
//! Paths are kept as text.

use vstd::prelude::*;
use crate::vm::VmConfig;

verus! {

/// The parsed command line.
pub struct Cli {
    pub command: Commands,
}

pub enum Commands {
    /// Compiles a text assembly file into binary bytecode.
    Assemble(AssembleArgs),
    /// Executes a compiled binary bytecode file in the virtual machine.
    Run(RunArgs),
    /// Turns a compiled binary file back into assembly text.
    Disassemble(DisassembleArgs),
}

pub struct AssembleArgs {
    /// The source file.
    pub input: String,
    /// Where to write the compiled file; by default the input path with a `bin` extension.
    pub output: Option<String>,
}

pub struct RunArgs {
    /// The compiled file to run.
    pub input: String,
    /// Print a trace line for every executed instruction.
    pub trace: bool,
    /// The most items the stack holds.
    pub stack_size: usize,
    /// The number of global memory cells.
    pub globals_size: usize,
}

pub struct DisassembleArgs {
    /// The compiled file to read.
    pub input: String,
    /// Where to write the assembly text; standard output when absent.
    pub output: Option<String>,
}

impl RunArgs {
    /// The machine configuration these options ask for.
    pub fn vm_config(&self) -> (c: VmConfig)
        ensures
            c.stack_size == self.stack_size,
            c.globals_size == self.globals_size,
            c.enable_tracing == self.trace,
    {
        VmConfig {
            stack_size: self.stack_size,
            globals_size: self.globals_size,
            enable_tracing: self.trace,
        }
    }
}

} // verus!

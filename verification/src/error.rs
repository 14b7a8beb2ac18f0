//! The error type shared by the assembler, the disassembler and the VM.

use vstd::prelude::*;
use crate::text::{dec_nat, hex_padded, push_dec_u64, push_hex_padded, push_str, push_string};

verus! {

/// `std::io::Error`, carried through the library unopened.
#[verifier::external_type_specification]
#[verifier::external_body]
pub struct ExIoError(std::io::Error);

/// The central result type of the toolchain.
pub type Result<T> = std::result::Result<T, MiniVmError>;

#[derive(Debug)]
pub enum MiniVmError {
    /// Errors originating from OS/file system operations.
    Io(std::io::Error),
    /// Errors caught during tokenization.
    Lexical { message: String, line: usize, column: usize },
    /// Errors caught during parsing.
    Syntax { message: String, line: usize, column: usize },
    /// Errors caught during label resolution or instruction serialization.
    Encoding { message: String },
    /// Structural binary layout mismatches (bad magic bytes, wrong versions).
    InvalidBinaryHeader(String),
    /// Runtime exceptions raised by the virtual CPU during execution.
    RuntimeException { message: String, pc: usize },
    /// A catch-all variant carrying a message.
    Generic(String),
}

/// Text of an I/O error.
/// Trusted: calls `ToString::to_string` on `std::io::Error`; its text comes from
/// the operating system, so nothing is promised about it.
#[verifier::external_body]
fn io_error_text(e: &std::io::Error) -> String {
    e.to_string()
}

impl MiniVmError {
    /// The displayed text of the error, after the prefix that names its kind.
    /// For an I/O error the text of the underlying error is not modelled; this
    /// gives the prefix only.
    pub open spec fn text(&self) -> Seq<char> {
        match self {
            MiniVmError::Io(_) => "I/O System Error: "@,
            MiniVmError::Lexical { message, line, column } => "Lexical Analysis Error at line "@
                + dec_nat(*line as nat) + ", col "@ + dec_nat(*column as nat) + ": "@ + message@,
            MiniVmError::Syntax { message, line, column } => "Parsing Syntax Error at line "@
                + dec_nat(*line as nat) + ", col "@ + dec_nat(*column as nat) + ": "@ + message@,
            MiniVmError::Encoding { message } => "Encoding Conversion Error: "@ + message@,
            MiniVmError::InvalidBinaryHeader(m) => "Invalid Bytecode Binary Format Header: "@ + m@,
            MiniVmError::RuntimeException { message, pc } => "VM Runtime Exception at PC offset 0x"@
                + hex_padded(*pc as nat, 4) + ": "@ + message@,
            MiniVmError::Generic(m) => "Toolchain Error: "@ + m@,
        }
    }

    /// The error carries the catch-all variant with message `msg`.
    pub open spec fn is_generic(&self, msg: Seq<char>) -> bool {
        self matches MiniVmError::Generic(m) && m@ == msg
    }

    /// Renders the error as text.
    pub fn to_string(&self) -> (r: String)
        ensures
            !(self is Io) ==> r@ == self.text(),
            self is Io ==> r@.len() >= self.text().len() && r@.subrange(0, self.text().len() as int)
                == self.text(),
    {
        let mut out = String::new();
        match self {
            MiniVmError::Io(e) => {
                push_str(&mut out, "I/O System Error: ");
                let t = io_error_text(e);
                push_string(&mut out, &t);
                assert(out@.subrange(0, self.text().len() as int) =~= self.text());
            },
            MiniVmError::Lexical { message, line, column } => {
                push_str(&mut out, "Lexical Analysis Error at line ");
                push_dec_u64(&mut out, *line as u64);
                push_str(&mut out, ", col ");
                push_dec_u64(&mut out, *column as u64);
                push_str(&mut out, ": ");
                push_string(&mut out, message);
            },
            MiniVmError::Syntax { message, line, column } => {
                push_str(&mut out, "Parsing Syntax Error at line ");
                push_dec_u64(&mut out, *line as u64);
                push_str(&mut out, ", col ");
                push_dec_u64(&mut out, *column as u64);
                push_str(&mut out, ": ");
                push_string(&mut out, message);
            },
            MiniVmError::Encoding { message } => {
                push_str(&mut out, "Encoding Conversion Error: ");
                push_string(&mut out, message);
            },
            MiniVmError::InvalidBinaryHeader(m) => {
                push_str(&mut out, "Invalid Bytecode Binary Format Header: ");
                push_string(&mut out, m);
            },
            MiniVmError::RuntimeException { message, pc } => {
                push_str(&mut out, "VM Runtime Exception at PC offset 0x");
                push_hex_padded(&mut out, *pc as u64, 4);
                push_str(&mut out, ": ");
                push_string(&mut out, message);
            },
            MiniVmError::Generic(m) => {
                push_str(&mut out, "Toolchain Error: ");
                push_string(&mut out, m);
            },
        }
        assert(!(self is Io) ==> out@ =~= self.text());
        out
    }
}

impl From<String> for MiniVmError {
    fn from(msg: String) -> (r: Self) {
        MiniVmError::Generic(msg)
    }
}

impl vstd::std_specs::convert::FromSpecImpl<String> for MiniVmError {
    open spec fn obeys_from_spec() -> bool {
        true
    }

    open spec fn from_spec(msg: String) -> Self {
        MiniVmError::Generic(msg)
    }
}

} // verus!

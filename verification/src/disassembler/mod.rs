//! Turning an instruction stream back into assembly text.

pub mod printer;

use vstd::prelude::*;
use crate::error::{MiniVmError, Result};
use crate::isa::Instruction;
use crate::text::{hex_padded, push_hex_padded, push_str, push_string};
use crate::vm::decoder::{decode_at, decode_error_text, DecodeStep, Decoder};
use self::printer::{instruction_text, push_instruction};

verus! {

/// The first line of every listing, followed by an empty line.
pub open spec fn banner() -> Seq<char> {
    "; --- Disassembled Bytecode Stream ---\n\n"@
}

/// One line of the listing: the offset, then the instruction.
pub open spec fn listing_line(off: nat, inst: Instruction) -> Seq<char> {
    "0x"@ + hex_padded(off, 4) + ":  "@ + instruction_text(inst) + "\n"@
}

/// The listing of the stream `b` from offset `off`: one line per
/// instruction, ending after a `halt` or at the end of the stream, or the
/// message of the first decoding failure.
pub open spec fn listing_from(b: Seq<u8>, off: nat) -> std::result::Result<Seq<char>, Seq<char>>
    decreases b.len() - off,
{
    let step = decode_at(b, off as int);
    match step {
        DecodeStep::End => Ok(Seq::empty()),
        DecodeStep::Decoded(inst, n) => {
            let line = listing_line(off, inst);
            if inst is Halt || n == 0 {
                Ok(line)
            } else {
                match listing_from(b, off + n) {
                    Ok(rest) => Ok(line + rest),
                    Err(m) => Err(m),
                }
            }
        },
        _ => Err(decode_error_text(step, off)),
    }
}

/// What disassembling the stream `b` gives: the banner and the listing, or
/// the message of the error.
pub open spec fn spec_disassemble(b: Seq<u8>) -> std::result::Result<Seq<char>, Seq<char>> {
    match listing_from(b, 0) {
        Ok(t) => Ok(banner() + t),
        Err(m) => Err("Disassembly halted prematurely: "@ + "Toolchain Error: "@ + m),
    }
}

pub struct Disassembler<'a> {
    bytecode: &'a [u8],
}

impl<'a> Disassembler<'a> {
    /// The stream to disassemble.
    pub closed spec fn bytes(&self) -> Seq<u8> {
        self.bytecode@
    }

    pub fn new(bytecode: &'a [u8]) -> (d: Self)
        ensures
            d.bytes() == bytecode@,
    {
        Self { bytecode }
    }

    pub fn disassemble(&self) -> (r: Result<String>)
        ensures
            match spec_disassemble(self.bytes()) {
                Ok(t) => r matches Ok(s) && s@ == t,
                Err(m) => r matches Err(e) && e.is_generic(m),
            },
    {
        let ghost b = self.bytecode@;
        let mut output = String::new();
        let mut decoder = Decoder::new(self.bytecode);
        push_str(&mut output, "; --- Disassembled Bytecode Stream ---\n\n");
        let mut done = false;
        let ghost mut done_text: Seq<char> = Seq::empty();
        while !done && !decoder.is_at_end()
            invariant
                decoder.bytes() == b,
                b == self.bytes(),
                done ==> listing_from(b, 0) == Ok::<Seq<char>, Seq<char>>(done_text)
                    && output@ == banner() + done_text,
                !done ==> match listing_from(b, decoder.offset() as nat) {
                    Ok(rest) => listing_from(b, 0) matches Ok(all) && all == (
                    output@.subrange(banner().len() as int, output@.len() as int)) + rest,
                    Err(m) => listing_from(b, 0) == Err::<Seq<char>, Seq<char>>(m),
                },
                decoder.offset() <= b.len(),
                output@.len() >= banner().len(),
                output@.subrange(0, banner().len() as int) == banner(),
            decreases (b.len() - decoder.offset()) * 2 + (if done { 0int } else { 1int }),
        {
            let current_offset = decoder.current_offset();
            let ghost before = output@;
            match decoder.decode_next() {
                Ok(Some(instruction)) => {
                    push_str(&mut output, "0x");
                    push_hex_padded(&mut output, current_offset as u64, 4);
                    push_str(&mut output, ":  ");
                    push_instruction(&mut output, &instruction);
                    push_str(&mut output, "\n");
                    proof {
                        let line = listing_line(current_offset as nat, instruction);
                        assert(output@ =~= before + line);
                        assert(output@.subrange(banner().len() as int, output@.len() as int)
                            =~= before.subrange(banner().len() as int, before.len() as int) + line);
                        assert(output@.subrange(0, banner().len() as int) =~= before.subrange(
                            0,
                            banner().len() as int,
                        ));
                    }
                    if let Instruction::Halt = instruction {
                        done = true;
                        proof {
                            done_text = output@.subrange(banner().len() as int, output@.len() as int);
                            assert(output@ =~= banner() + done_text);
                        }
                    }
                },
                Ok(None) => {
                    done = true;
                    proof {
                        done_text = output@.subrange(banner().len() as int, output@.len() as int);
                        assert(output@ =~= banner() + done_text);
                    }
                },
                Err(decode_err) => {
                    push_str(&mut output, "\n; !!! DECODE ERROR at offset 0x");
                    push_hex_padded(&mut output, current_offset as u64, 4);
                    push_str(&mut output, ": ");
                    let t = decode_err.to_string();
                    push_string(&mut output, &t);
                    push_str(&mut output, " !!!\n");
                    let mut m = String::from_str("Disassembly halted prematurely: ");
                    push_string(&mut m, &t);
                    assert(m@ =~= "Disassembly halted prematurely: "@ + "Toolchain Error: "@
                        + decode_error_text(decode_at(b, current_offset as int), current_offset as nat));
                    return Err(MiniVmError::Generic(m));
                },
            }
        }
        proof {
            if !done {
                assert(listing_from(b, decoder.offset() as nat) == Ok::<Seq<char>, Seq<char>>(
                    Seq::empty(),
                ));
                assert(output@ =~= banner() + output@.subrange(
                    banner().len() as int,
                    output@.len() as int,
                ));
            }
        }
        Ok(output)
    }
}

pub fn disassemble_bytes(bytecode: &[u8]) -> (r: Result<String>)
    ensures
        match spec_disassemble(bytecode@) {
            Ok(t) => r matches Ok(s) && s@ == t,
            Err(m) => r matches Err(e) && e.is_generic(m),
        },
{
    let disasm = Disassembler::new(bytecode);
    disasm.disassemble()
}

} // verus!

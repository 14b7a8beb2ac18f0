//! Little-endian byte access and the instruction decoder shared by the CPU
//! and the disassembler.

use vstd::prelude::*;
use vstd::bytes::{
    lemma_auto_spec_u64_to_from_le_bytes, spec_u16_from_le_bytes, spec_u16_to_le_bytes,
    spec_u32_from_le_bytes, spec_u64_from_le_bytes, spec_u64_to_le_bytes, u16_from_le_bytes,
    u16_to_le_bytes, u32_from_le_bytes, u64_from_le_bytes, u64_to_le_bytes,
};
use crate::error::{MiniVmError, Result};
use crate::isa::{law_opcode_byte_roundtrip, Instruction, Opcode};
use crate::text::{hex_padded, push_hex_padded, push_str};

verus! {

broadcast use vstd::slice::group_slice_axioms;

/// Reads a 16-bit unsigned integer at `offset`, little endian.
pub fn read_u16_le(bytes: &[u8], offset: usize) -> (r: u16)
    requires
        offset + 2 <= bytes.len(),
    ensures
        r == spec_u16_from_le_bytes(bytes@.subrange(offset as int, offset + 2)),
{
    u16_from_le_bytes(vstd::slice::slice_subrange(bytes, offset, offset + 2))
}

/// Reads a 32-bit signed integer at `offset`, little endian.
pub fn read_i32_le(bytes: &[u8], offset: usize) -> (r: i32)
    requires
        offset + 4 <= bytes.len(),
    ensures
        r == spec_u32_from_le_bytes(bytes@.subrange(offset as int, offset + 4)) as i32,
{
    u32_from_le_bytes(vstd::slice::slice_subrange(bytes, offset, offset + 4)) as i32
}

/// Reads a 64-bit signed integer at `offset`, little endian.
pub fn read_i64_le(bytes: &[u8], offset: usize) -> (r: i64)
    requires
        offset + 8 <= bytes.len(),
    ensures
        r == spec_u64_from_le_bytes(bytes@.subrange(offset as int, offset + 8)) as i64,
{
    u64_from_le_bytes(vstd::slice::slice_subrange(bytes, offset, offset + 8)) as i64
}

/// Reads a 64-bit unsigned integer at `offset`, little endian.
pub fn read_u64_le(bytes: &[u8], offset: usize) -> (r: u64)
    requires
        offset + 8 <= bytes.len(),
    ensures
        r == spec_u64_from_le_bytes(bytes@.subrange(offset as int, offset + 8)),
{
    u64_from_le_bytes(vstd::slice::slice_subrange(bytes, offset, offset + 8))
}

/// `old` with `src` written over it starting at `offset`.
pub open spec fn splice(old: Seq<u8>, offset: int, src: Seq<u8>) -> Seq<u8> {
    old.subrange(0, offset) + src + old.subrange(offset + src.len(), old.len() as int)
}

fn write_bytes(bytes: &mut [u8], offset: usize, src: &Vec<u8>)
    requires
        offset + src@.len() <= old(bytes).len(),
    ensures
        final(bytes)@ == splice(old(bytes)@, offset as int, src@),
{
    let mut i: usize = 0;
    while i < src.len()
        invariant
            offset + src@.len() <= bytes.len(),
            bytes@.len() == old(bytes)@.len(),
            i <= src@.len(),
            bytes@ == splice(old(bytes)@, offset as int, src@.take(i as int)),
        decreases src@.len() - i,
    {
        bytes[offset + i] = src[i];
        i = i + 1;
        assert(bytes@ =~= splice(old(bytes)@, offset as int, src@.take(i as int)));
    }
    assert(src@.take(i as int) =~= src@);
}

/// Writes a 16-bit unsigned integer at `offset`, little endian.
pub fn write_u16_le(bytes: &mut [u8], offset: usize, value: u16)
    requires
        offset + 2 <= old(bytes).len(),
    ensures
        final(bytes)@ == splice(old(bytes)@, offset as int, spec_u16_to_le_bytes(value)),
{
    let src = u16_to_le_bytes(value);
    write_bytes(bytes, offset, &src);
}

/// Writes a 64-bit signed integer at `offset`, little endian.
pub fn write_i64_le(bytes: &mut [u8], offset: usize, value: i64)
    requires
        offset + 8 <= old(bytes).len(),
    ensures
        final(bytes)@ == splice(old(bytes)@, offset as int, spec_u64_to_le_bytes(value as u64)),
{
    let src = u64_to_le_bytes(value as u64);
    write_bytes(bytes, offset, &src);
}

/// Writes a 64-bit unsigned integer at `offset`, little endian.
pub fn write_u64_le(bytes: &mut [u8], offset: usize, value: u64)
    requires
        offset + 8 <= old(bytes).len(),
    ensures
        final(bytes)@ == splice(old(bytes)@, offset as int, spec_u64_to_le_bytes(value)),
{
    let src = u64_to_le_bytes(value);
    write_bytes(bytes, offset, &src);
}

/// The outcome of decoding at one offset of a byte stream.
pub enum DecodeStep {
    /// The offset is at or past the end of the stream.
    End,
    /// The byte at the offset is no opcode.
    UnknownOpcode(u8),
    /// The opcode's operands run past the end of the stream.
    Truncated(u8),
    /// An instruction and the number of bytes it occupies.
    Decoded(Instruction, nat),
}

/// The instruction an opcode forms with its operand bytes.
pub open spec fn instruction_from(op: Opcode, ops: Seq<u8>) -> Instruction {
    match op {
        Opcode::Nop => Instruction::Nop,
        Opcode::Halt => Instruction::Halt,
        Opcode::Add => Instruction::Add,
        Opcode::Sub => Instruction::Sub,
        Opcode::Mul => Instruction::Mul,
        Opcode::Div => Instruction::Div,
        Opcode::Ret => Instruction::Ret,
        Opcode::Pop => Instruction::Pop(ops[0]),
        Opcode::Syscall => Instruction::Syscall(ops[0]),
        Opcode::Jmp => Instruction::Jmp(spec_u64_from_le_bytes(ops)),
        Opcode::Jz => Instruction::Jz(spec_u64_from_le_bytes(ops)),
        Opcode::Jnz => Instruction::Jnz(spec_u64_from_le_bytes(ops)),
        Opcode::Push => Instruction::Push(ops[0], spec_u64_from_le_bytes(ops.subrange(1, 9)) as i64),
        Opcode::Load => Instruction::Load(ops[0], spec_u64_from_le_bytes(ops.subrange(1, 9))),
        Opcode::Store => Instruction::Store(ops[0], spec_u64_from_le_bytes(ops.subrange(1, 9))),
    }
}

/// Decoding the stream `b` at offset `off`.
pub open spec fn decode_at(b: Seq<u8>, off: int) -> DecodeStep {
    if off < 0 || off >= b.len() {
        DecodeStep::End
    } else {
        let byte = b[off];
        match Opcode::spec_from_u8(byte) {
            None => DecodeStep::UnknownOpcode(byte),
            Some(op) => if off + 1 + op.operand_len() > b.len() {
                DecodeStep::Truncated(byte)
            } else {
                DecodeStep::Decoded(
                    instruction_from(op, b.subrange(off + 1, off + 1 + op.operand_len())),
                    1 + op.operand_len(),
                )
            },
        }
    }
}

/// Message of a decoding failure at `off`.
pub open spec fn decode_error_text(step: DecodeStep, off: nat) -> Seq<char> {
    match step {
        DecodeStep::UnknownOpcode(b) => "Decode Error: Unrecognized opcode byte 0x"@ + hex_padded(
            b as nat,
            2,
        ) + " at offset 0x"@ + hex_padded(off, 4),
        DecodeStep::Truncated(b) => "Decode Error: Truncated operands for opcode 0x"@ + hex_padded(
            b as nat,
            2,
        ) + " at offset 0x"@ + hex_padded(off, 4),
        _ => Seq::empty(),
    }
}

/// Decoding reads exactly the binary form of the instruction it gives: the
/// bytes it consumes are that instruction's encoding.
pub proof fn law_decoding_reads_encoding(b: Seq<u8>, off: int)
    requires
        decode_at(b, off) matches DecodeStep::Decoded(_, _),
    ensures
        ({
            let inst = decode_at(b, off)->Decoded_0;
            let n = decode_at(b, off)->Decoded_1;
            &&& n == inst.encoding().len()
            &&& off + n <= b.len()
            &&& b.subrange(off, off + n) == inst.encoding()
            &&& inst.opcode().operand_len() + 1 == n
        }),
{
    lemma_auto_spec_u64_to_from_le_bytes();
    let byte = b[off];
    let op = Opcode::spec_from_u8(byte)->Some_0;
    law_opcode_byte_roundtrip(op, byte);
    let ops = b.subrange(off + 1, off + 1 + op.operand_len());
    let inst = instruction_from(op, ops);
    let enc = inst.encoding();
    assert(inst.opcode() == op);
    match op {
        Opcode::Jmp | Opcode::Jz | Opcode::Jnz => {
            assert(spec_u64_to_le_bytes(spec_u64_from_le_bytes(ops)) == ops);
        },
        Opcode::Push => {
            let w = ops.subrange(1, 9);
            assert(spec_u64_to_le_bytes(spec_u64_from_le_bytes(w)) == w);
            let x = spec_u64_from_le_bytes(w);
            assert((x as i64) as u64 == x) by (bit_vector);
            assert(ops =~= seq![ops[0]] + w);
        },
        Opcode::Load | Opcode::Store => {
            let w = ops.subrange(1, 9);
            assert(spec_u64_to_le_bytes(spec_u64_from_le_bytes(w)) == w);
            assert(ops =~= seq![ops[0]] + w);
        },
        _ => {},
    }
    assert(b.subrange(off, off + 1 + op.operand_len()) =~= seq![byte] + ops);
    assert(b.subrange(off, off + 1 + op.operand_len()) =~= enc);
}

/// Decoding the binary form of an instruction, wherever it stands in a
/// stream, gives back the instruction and the length of that form.
pub proof fn law_decode_encoding(pre: Seq<u8>, inst: Instruction, rest: Seq<u8>)
    ensures
        decode_at(pre + inst.encoding() + rest, pre.len() as int) == DecodeStep::Decoded(
            inst,
            inst.encoding().len(),
        ),
{
    lemma_auto_spec_u64_to_from_le_bytes();
    let b = pre + inst.encoding() + rest;
    let off = pre.len() as int;
    let enc = inst.encoding();
    assert(b.subrange(off, off + enc.len()) =~= enc);
    assert(b[off] == enc[0]);
    let op = inst.opcode();
    assert(Opcode::spec_from_u8(op.byte()) == Some(op));
    let ops = b.subrange(off + 1, off + 1 + op.operand_len());
    assert(ops =~= enc.subrange(1, enc.len() as int));
    match inst {
        Instruction::Jmp(t) => {
            assert(ops =~= spec_u64_to_le_bytes(t));
        },
        Instruction::Jz(t) => {
            assert(ops =~= spec_u64_to_le_bytes(t));
        },
        Instruction::Jnz(t) => {
            assert(ops =~= spec_u64_to_le_bytes(t));
        },
        Instruction::Push(r, v) => {
            assert(ops.subrange(1, 9) =~= spec_u64_to_le_bytes(v as u64));
            assert((v as u64) as i64 == v) by (bit_vector);
        },
        Instruction::Load(r, a) => {
            assert(ops.subrange(1, 9) =~= spec_u64_to_le_bytes(a));
        },
        Instruction::Store(r, a) => {
            assert(ops.subrange(1, 9) =~= spec_u64_to_le_bytes(a));
        },
        _ => {},
    }
}

/// A cursor that decodes instructions from a byte stream.
pub struct Decoder<'a> {
    bytecode: &'a [u8],
    offset: usize,
}

impl<'a> Decoder<'a> {
    /// The stream being decoded.
    pub closed spec fn bytes(&self) -> Seq<u8> {
        self.bytecode@
    }

    /// The offset of the next instruction.
    pub closed spec fn offset(&self) -> usize {
        self.offset
    }

    pub fn new(bytecode: &'a [u8]) -> (d: Self)
        ensures
            d.bytes() == bytecode@,
            d.offset() == 0,
    {
        Decoder { bytecode, offset: 0 }
    }

    pub fn set_offset(&mut self, offset: usize)
        ensures
            final(self).bytes() == old(self).bytes(),
            final(self).offset() == offset,
    {
        self.offset = offset;
    }

    pub fn current_offset(&self) -> (r: usize)
        ensures
            r == self.offset(),
    {
        self.offset
    }

    pub fn is_at_end(&self) -> (r: bool)
        ensures
            r == (self.offset() >= self.bytes().len()),
    {
        self.offset >= self.bytecode.len()
    }

    /// Decodes the instruction at the current offset and moves past it.
    /// At the end of the stream it gives `None`; a byte that is no opcode, or
    /// operands cut short by the end of the stream, give an error and leave
    /// the offset where it was.
    pub fn decode_next(&mut self) -> (r: Result<Option<Instruction>>)
        ensures
            final(self).bytes() == old(self).bytes(),
            ({
                let step = decode_at(old(self).bytes(), old(self).offset() as int);
                match step {
                    DecodeStep::End => r matches Ok(None) && final(self).offset() == old(
                        self,
                    ).offset(),
                    DecodeStep::Decoded(inst, n) => r == Ok::<Option<Instruction>, MiniVmError>(
                        Some(inst),
                    ) && final(self).offset() == old(self).offset() + n,
                    _ => r matches Err(e) && e.is_generic(
                        decode_error_text(step, old(self).offset() as nat),
                    ) && final(self).offset() == old(self).offset(),
                }
            }),
    {
        let off = self.offset;
        let b = self.bytecode;
        if off >= b.len() {
            return Ok(None);
        }
        let byte = b[off];
        let op = match Opcode::from_u8(byte) {
            Some(op) => op,
            None => {
                let mut m = String::from_str("Decode Error: Unrecognized opcode byte 0x");
                push_hex_padded(&mut m, byte as u64, 2);
                push_str(&mut m, " at offset 0x");
                push_hex_padded(&mut m, off as u64, 4);
                return Err(MiniVmError::Generic(m));
            },
        };
        let n: usize = match op {
            Opcode::Pop | Opcode::Syscall => 1,
            Opcode::Jmp | Opcode::Jz | Opcode::Jnz => 8,
            Opcode::Push | Opcode::Load | Opcode::Store => 9,
            _ => 0,
        };
        if n > b.len() - off - 1 {
            let mut m = String::from_str("Decode Error: Truncated operands for opcode 0x");
            push_hex_padded(&mut m, byte as u64, 2);
            push_str(&mut m, " at offset 0x");
            push_hex_padded(&mut m, off as u64, 4);
            return Err(MiniVmError::Generic(m));
        }
        let ghost ops = b@.subrange(off + 1, off + 1 + n);
        let inst = match op {
            Opcode::Nop => Instruction::Nop,
            Opcode::Halt => Instruction::Halt,
            Opcode::Add => Instruction::Add,
            Opcode::Sub => Instruction::Sub,
            Opcode::Mul => Instruction::Mul,
            Opcode::Div => Instruction::Div,
            Opcode::Ret => Instruction::Ret,
            Opcode::Pop => Instruction::Pop(b[off + 1]),
            Opcode::Syscall => Instruction::Syscall(b[off + 1]),
            Opcode::Jmp => Instruction::Jmp(read_u64_le(b, off + 1)),
            Opcode::Jz => Instruction::Jz(read_u64_le(b, off + 1)),
            Opcode::Jnz => Instruction::Jnz(read_u64_le(b, off + 1)),
            Opcode::Push => {
                let v = read_i64_le(b, off + 2);
                assert(ops.subrange(1, 9) =~= b@.subrange(off + 2, off + 10));
                Instruction::Push(b[off + 1], v)
            },
            Opcode::Load => {
                let a = read_u64_le(b, off + 2);
                assert(ops.subrange(1, 9) =~= b@.subrange(off + 2, off + 10));
                Instruction::Load(b[off + 1], a)
            },
            Opcode::Store => {
                let a = read_u64_le(b, off + 2);
                assert(ops.subrange(1, 9) =~= b@.subrange(off + 2, off + 10));
                Instruction::Store(b[off + 1], a)
            },
        };
        self.offset = off + 1 + n;
        Ok(Some(inst))
    }
}

} // verus!

//! The instruction set: structural instructions and their one-byte opcodes,
//! together with the binary form of each instruction.

use vstd::prelude::*;
use vstd::bytes::spec_u64_to_le_bytes;

verus! {

/// High-level, structural representation of an instruction and its arguments.
/// This is what the parser outputs, the disassembler prints, and the CPU executes.
#[derive(Debug, Clone, Copy, PartialEq, Eq, Structural)]
pub enum Instruction {
    // Nullary instructions (0 operands)
    Nop,
    Halt,
    Add,
    Sub,
    Mul,
    Div,
    Ret,
    // Monadic instructions (1 operand)
    /// Pop into register id.
    Pop(u8),
    /// Jump to an absolute byte address.
    Jmp(u64),
    /// Jump to an absolute address if the top of the stack is zero.
    Jz(u64),
    /// Jump to an absolute address if the top of the stack is non-zero.
    Jnz(u64),
    /// Trigger a system trap vector.
    Syscall(u8),
    // Dyadic instructions (2 operands)
    /// Push an immediate, recording it in a register.
    Push(u8, i64),
    /// Load from a global address into a register.
    Load(u8, u64),
    /// Store a register into a global address.
    Store(u8, u64),
}

/// Raw one-byte tokens representing individual operation codes.
#[derive(Debug, Clone, Copy, PartialEq, Eq, Structural)]
pub enum Opcode {
    Nop,
    Halt,
    Add,
    Sub,
    Mul,
    Div,
    Ret,
    Pop,
    Push,
    Jmp,
    Jz,
    Jnz,
    Load,
    Store,
    Syscall,
}

impl Opcode {
    /// The byte that encodes this opcode.
    pub open spec fn byte(self) -> u8 {
        match self {
            Opcode::Nop => 0x00,
            Opcode::Halt => 0xFF,
            Opcode::Add => 0x10,
            Opcode::Sub => 0x11,
            Opcode::Mul => 0x12,
            Opcode::Div => 0x13,
            Opcode::Ret => 0x14,
            Opcode::Pop => 0x20,
            Opcode::Push => 0x21,
            Opcode::Jmp => 0x30,
            Opcode::Jz => 0x31,
            Opcode::Jnz => 0x32,
            Opcode::Load => 0x40,
            Opcode::Store => 0x41,
            Opcode::Syscall => 0x50,
        }
    }

    /// The opcode that a byte encodes, if any.
    pub open spec fn spec_from_u8(byte: u8) -> Option<Opcode> {
        if byte == 0x00 {
            Some(Opcode::Nop)
        } else if byte == 0xFF {
            Some(Opcode::Halt)
        } else if byte == 0x10 {
            Some(Opcode::Add)
        } else if byte == 0x11 {
            Some(Opcode::Sub)
        } else if byte == 0x12 {
            Some(Opcode::Mul)
        } else if byte == 0x13 {
            Some(Opcode::Div)
        } else if byte == 0x14 {
            Some(Opcode::Ret)
        } else if byte == 0x20 {
            Some(Opcode::Pop)
        } else if byte == 0x21 {
            Some(Opcode::Push)
        } else if byte == 0x30 {
            Some(Opcode::Jmp)
        } else if byte == 0x31 {
            Some(Opcode::Jz)
        } else if byte == 0x32 {
            Some(Opcode::Jnz)
        } else if byte == 0x40 {
            Some(Opcode::Load)
        } else if byte == 0x41 {
            Some(Opcode::Store)
        } else if byte == 0x50 {
            Some(Opcode::Syscall)
        } else {
            None
        }
    }

    /// Matches a raw byte to a recognized opcode.
    pub fn from_u8(byte: u8) -> (r: Option<Self>)
        ensures
            r == Self::spec_from_u8(byte),
    {
        match byte {
            0x00 => Some(Opcode::Nop),
            0xFF => Some(Opcode::Halt),
            0x10 => Some(Opcode::Add),
            0x11 => Some(Opcode::Sub),
            0x12 => Some(Opcode::Mul),
            0x13 => Some(Opcode::Div),
            0x14 => Some(Opcode::Ret),
            0x20 => Some(Opcode::Pop),
            0x21 => Some(Opcode::Push),
            0x30 => Some(Opcode::Jmp),
            0x31 => Some(Opcode::Jz),
            0x32 => Some(Opcode::Jnz),
            0x40 => Some(Opcode::Load),
            0x41 => Some(Opcode::Store),
            0x50 => Some(Opcode::Syscall),
            _ => None,
        }
    }

    /// Number of operand bytes that follow this opcode in the binary form.
    pub open spec fn operand_len(self) -> nat {
        match self {
            Opcode::Pop | Opcode::Syscall => 1,
            Opcode::Jmp | Opcode::Jz | Opcode::Jnz => 8,
            Opcode::Push | Opcode::Load | Opcode::Store => 9,
            _ => 0,
        }
    }
}

/// Opcode and byte agree in both directions: decoding the byte of an opcode
/// gives the opcode back, and every byte that decodes is that opcode's byte.
pub proof fn law_opcode_byte_roundtrip(op: Opcode, byte: u8)
    ensures
        Opcode::spec_from_u8(op.byte()) == Some(op),
        Opcode::spec_from_u8(byte) == Some(op) ==> op.byte() == byte,
{
}

impl Instruction {
    /// The opcode of this instruction.
    pub open spec fn opcode(self) -> Opcode {
        match self {
            Instruction::Nop => Opcode::Nop,
            Instruction::Halt => Opcode::Halt,
            Instruction::Add => Opcode::Add,
            Instruction::Sub => Opcode::Sub,
            Instruction::Mul => Opcode::Mul,
            Instruction::Div => Opcode::Div,
            Instruction::Ret => Opcode::Ret,
            Instruction::Pop(_) => Opcode::Pop,
            Instruction::Jmp(_) => Opcode::Jmp,
            Instruction::Jz(_) => Opcode::Jz,
            Instruction::Jnz(_) => Opcode::Jnz,
            Instruction::Syscall(_) => Opcode::Syscall,
            Instruction::Push(_, _) => Opcode::Push,
            Instruction::Load(_, _) => Opcode::Load,
            Instruction::Store(_, _) => Opcode::Store,
        }
    }

    /// The binary form of this instruction: the opcode byte, then a register
    /// byte where there is one, then an 8-byte little-endian operand where
    /// there is one (a trap vector takes one byte).
    pub open spec fn encoding(self) -> Seq<u8> {
        let op = self.opcode().byte();
        match self {
            Instruction::Pop(r) => seq![op, r],
            Instruction::Syscall(c) => seq![op, c],
            Instruction::Jmp(t) => seq![op] + spec_u64_to_le_bytes(t),
            Instruction::Jz(t) => seq![op] + spec_u64_to_le_bytes(t),
            Instruction::Jnz(t) => seq![op] + spec_u64_to_le_bytes(t),
            Instruction::Push(r, v) => seq![op, r] + spec_u64_to_le_bytes(v as u64),
            Instruction::Load(r, a) => seq![op, r] + spec_u64_to_le_bytes(a),
            Instruction::Store(r, a) => seq![op, r] + spec_u64_to_le_bytes(a),
            _ => seq![op],
        }
    }
}

} // verus!

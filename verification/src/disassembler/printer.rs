//! Rendering instructions as assembly text.

use vstd::prelude::*;
use crate::isa::Instruction;
use crate::text::{
    dec_int, dec_nat, hex_nat, hex_padded, push_dec_i64, push_dec_u64, push_hex_padded,
    push_hex_u64, push_str,
};

verus! {

/// Assembly name of a register: `sp` and `pc` for ids 254 and 255, `rN` otherwise.
pub open spec fn register_text(reg: u8) -> Seq<char> {
    if reg == 254 {
        "sp"@
    } else if reg == 255 {
        "pc"@
    } else {
        "r"@ + dec_nat(reg as nat)
    }
}

/// Assembly text of an instruction.
pub open spec fn instruction_text(inst: Instruction) -> Seq<char> {
    match inst {
        Instruction::Nop => "nop"@,
        Instruction::Halt => "halt"@,
        Instruction::Add => "add"@,
        Instruction::Sub => "sub"@,
        Instruction::Mul => "mul"@,
        Instruction::Div => "div"@,
        Instruction::Ret => "ret"@,
        Instruction::Pop(reg) => "pop  "@ + register_text(reg),
        Instruction::Push(reg, value) => "push "@ + register_text(reg) + ", "@ + dec_int(
            value as int,
        ),
        Instruction::Load(reg, address) => "load "@ + register_text(reg) + ", 0x"@ + hex_nat(
            address as nat,
        ),
        Instruction::Store(reg, address) => "store "@ + register_text(reg) + ", 0x"@ + hex_nat(
            address as nat,
        ),
        Instruction::Jmp(target) => "jmp  0x"@ + hex_padded(target as nat, 4),
        Instruction::Jz(target) => "jz   0x"@ + hex_padded(target as nat, 4),
        Instruction::Jnz(target) => "jnz  0x"@ + hex_padded(target as nat, 4),
        Instruction::Syscall(code) => "syscall 0x"@ + hex_padded(code as nat, 2),
    }
}

fn push_register(out: &mut String, reg_id: u8)
    ensures
        final(out)@ == old(out)@ + register_text(reg_id),
{
    if reg_id == 254 {
        push_str(out, "sp");
    } else if reg_id == 255 {
        push_str(out, "pc");
    } else {
        push_str(out, "r");
        push_dec_u64(out, reg_id as u64);
        assert(final(out)@ =~= old(out)@ + register_text(reg_id));
    }
}

fn format_register(reg_id: u8) -> (s: String)
    ensures
        s@ == register_text(reg_id),
{
    let mut s = String::new();
    push_register(&mut s, reg_id);
    assert(s@ =~= register_text(reg_id));
    s
}

/// Appends the assembly text of `inst`.
pub fn push_instruction(out: &mut String, inst: &Instruction)
    ensures
        final(out)@ == old(out)@ + instruction_text(*inst),
{
    match inst {
        Instruction::Nop => push_str(out, "nop"),
        Instruction::Halt => push_str(out, "halt"),
        Instruction::Add => push_str(out, "add"),
        Instruction::Sub => push_str(out, "sub"),
        Instruction::Mul => push_str(out, "mul"),
        Instruction::Div => push_str(out, "div"),
        Instruction::Ret => push_str(out, "ret"),
        Instruction::Pop(reg) => {
            push_str(out, "pop  ");
            let r = format_register(*reg);
            out.append(r.as_str());
        },
        Instruction::Push(reg, value) => {
            push_str(out, "push ");
            let r = format_register(*reg);
            out.append(r.as_str());
            push_str(out, ", ");
            push_dec_i64(out, *value);
        },
        Instruction::Load(reg, address) => {
            push_str(out, "load ");
            let r = format_register(*reg);
            out.append(r.as_str());
            push_str(out, ", 0x");
            push_hex_u64(out, *address);
        },
        Instruction::Store(reg, address) => {
            push_str(out, "store ");
            let r = format_register(*reg);
            out.append(r.as_str());
            push_str(out, ", 0x");
            push_hex_u64(out, *address);
        },
        Instruction::Jmp(target) => {
            push_str(out, "jmp  0x");
            push_hex_padded(out, *target, 4);
        },
        Instruction::Jz(target) => {
            push_str(out, "jz   0x");
            push_hex_padded(out, *target, 4);
        },
        Instruction::Jnz(target) => {
            push_str(out, "jnz  0x");
            push_hex_padded(out, *target, 4);
        },
        Instruction::Syscall(code) => {
            push_str(out, "syscall 0x");
            push_hex_padded(out, *code as u64, 2);
        },
    }
    assert(final(out)@ =~= old(out)@ + instruction_text(*inst));
}

/// The assembly text of an instruction.
pub fn format_instruction(inst: &Instruction) -> (s: String)
    ensures
        s@ == instruction_text(*inst),
{
    let mut s = String::new();
    push_instruction(&mut s, inst);
    assert(s@ =~= instruction_text(*inst));
    s
}

} // verus!

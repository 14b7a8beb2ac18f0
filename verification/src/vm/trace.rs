//! Execution tracing: one line per executed instruction, showing the
//! address, the instruction, the first two registers and the top of the stack.

use vstd::prelude::*;
use crate::isa::Instruction;
use crate::text::{
    dec_int, dec_nat, hex_nat, hex_padded, pad_right, push_dec_i64, push_dec_u64, push_hex_padded,
    push_hex_u64, push_str, push_str_padded,
};
use crate::vm::cpu::{Cpu, CpuState};

verus! {

/// Short text of an instruction, registers always written `rN`.
pub open spec fn brief_text(inst: Instruction) -> Seq<char> {
    match inst {
        Instruction::Nop => "nop"@,
        Instruction::Halt => "halt"@,
        Instruction::Add => "add"@,
        Instruction::Sub => "sub"@,
        Instruction::Mul => "mul"@,
        Instruction::Div => "div"@,
        Instruction::Ret => "ret"@,
        Instruction::Pop(reg) => "pop  r"@ + dec_nat(reg as nat),
        Instruction::Push(reg, val) => "push r"@ + dec_nat(reg as nat) + ", "@ + dec_int(
            val as int,
        ),
        Instruction::Load(reg, addr) => "load r"@ + dec_nat(reg as nat) + ", 0x"@ + hex_nat(
            addr as nat,
        ),
        Instruction::Store(reg, addr) => "store r"@ + dec_nat(reg as nat) + ", 0x"@ + hex_nat(
            addr as nat,
        ),
        Instruction::Jmp(target) => "jmp  0x"@ + hex_padded(target as nat, 4),
        Instruction::Jz(target) => "jz   0x"@ + hex_padded(target as nat, 4),
        Instruction::Jnz(target) => "jnz  0x"@ + hex_padded(target as nat, 4),
        Instruction::Syscall(code) => "syscall 0x"@ + hex_padded(code as nat, 2),
    }
}

/// The `d` items nearest the top of `items`, deepest first, separated by `, `.
pub open spec fn preview_items(items: Seq<i64>, d: nat) -> Seq<char>
    decreases d,
{
    if d == 0 {
        Seq::empty()
    } else {
        dec_int(items[items.len() - d] as int) + (if d > 1 {
            ", "@
        } else {
            Seq::empty()
        }) + preview_items(items, (d - 1) as nat)
    }
}

/// The stack as the trace shows it: at most four items from the top, with
/// `, ...` when there are more.
pub open spec fn stack_preview(items: Seq<i64>) -> Seq<char> {
    let d: nat = if items.len() < 4 {
        items.len()
    } else {
        4
    };
    "["@ + preview_items(items, d) + (if items.len() > 4 {
        ", ..."@
    } else {
        Seq::empty()
    }) + "]"@
}

/// The trace line for `inst`, fetched at `pc`, in machine state `s`.
pub open spec fn trace_text(s: CpuState, inst: Instruction, pc: usize) -> Seq<char> {
    "\x1b[90m0x"@ + hex_padded(pc as nat, 4) + ":\x1b[0m  "@ + pad_right(brief_text(inst), 18)
        + " | \x1b[36mr0:\x1b[0m"@ + pad_right(dec_int(s.registers[0] as int), 5)
        + " \x1b[36mr1:\x1b[0m"@ + pad_right(dec_int(s.registers[1] as int), 5)
        + " | \x1b[32mStack:\x1b[0m"@ + stack_preview(s.stack)
}

/// The short text of an instruction.
pub fn format_instruction_brief(inst: &Instruction) -> (s: String)
    ensures
        s@ == brief_text(*inst),
{
    let mut out = String::new();
    match inst {
        Instruction::Nop => push_str(&mut out, "nop"),
        Instruction::Halt => push_str(&mut out, "halt"),
        Instruction::Add => push_str(&mut out, "add"),
        Instruction::Sub => push_str(&mut out, "sub"),
        Instruction::Mul => push_str(&mut out, "mul"),
        Instruction::Div => push_str(&mut out, "div"),
        Instruction::Ret => push_str(&mut out, "ret"),
        Instruction::Pop(reg) => {
            push_str(&mut out, "pop  r");
            push_dec_u64(&mut out, *reg as u64);
        },
        Instruction::Push(reg, val) => {
            push_str(&mut out, "push r");
            push_dec_u64(&mut out, *reg as u64);
            push_str(&mut out, ", ");
            push_dec_i64(&mut out, *val);
        },
        Instruction::Load(reg, addr) => {
            push_str(&mut out, "load r");
            push_dec_u64(&mut out, *reg as u64);
            push_str(&mut out, ", 0x");
            push_hex_u64(&mut out, *addr);
        },
        Instruction::Store(reg, addr) => {
            push_str(&mut out, "store r");
            push_dec_u64(&mut out, *reg as u64);
            push_str(&mut out, ", 0x");
            push_hex_u64(&mut out, *addr);
        },
        Instruction::Jmp(target) => {
            push_str(&mut out, "jmp  0x");
            push_hex_padded(&mut out, *target, 4);
        },
        Instruction::Jz(target) => {
            push_str(&mut out, "jz   0x");
            push_hex_padded(&mut out, *target, 4);
        },
        Instruction::Jnz(target) => {
            push_str(&mut out, "jnz  0x");
            push_hex_padded(&mut out, *target, 4);
        },
        Instruction::Syscall(code) => {
            push_str(&mut out, "syscall 0x");
            push_hex_padded(&mut out, *code as u64, 2);
        },
    }
    assert(out@ =~= brief_text(*inst));
    out
}

/// Appends the decimal rendering of `v`, left-aligned in `w` columns.
fn push_dec_i64_padded(out: &mut String, v: i64, w: usize)
    ensures
        final(out)@ == old(out)@ + pad_right(dec_int(v as int), w as nat),
{
    let mut t = String::new();
    push_dec_i64(&mut t, v);
    assert(t@ =~= dec_int(v as int));
    push_str_padded(out, t.as_str(), w);
}

/// The trace line for `current_instruction`, fetched at `current_pc`.
pub fn trace_line(cpu: &Cpu, current_instruction: &Instruction, current_pc: usize) -> (s: String)
    ensures
        s@ == trace_text(cpu.state(), *current_instruction, current_pc),
{
    let ghost items = cpu.stack.items();
    let inst_str = format_instruction_brief(current_instruction);
    let mut stack_str = String::new();
    push_str(&mut stack_str, "[");
    let stack_len = cpu.stack.len();
    let preview_depth: usize = if stack_len < 4 {
        stack_len
    } else {
        4
    };
    let mut i: usize = preview_depth;
    while i > 0
        invariant
            i <= preview_depth <= 4,
            preview_depth <= stack_len,
            stack_len == items.len(),
            items == cpu.stack.items(),
            stack_str@ + preview_items(items, i as nat) == "["@ + preview_items(
                items,
                preview_depth as nat,
            ),
        decreases i,
    {
        let ghost before = stack_str@;
        let val = match cpu.stack.peek_at_depth(i - 1) {
            Ok(v) => v,
            Err(_) => 0,
        };
        push_dec_i64(&mut stack_str, val);
        if i > 1 {
            push_str(&mut stack_str, ", ");
        }
        proof {
            let sep = if i > 1 {
                ", "@
            } else {
                Seq::<char>::empty()
            };
            assert(stack_str@ =~= before + dec_int(val as int) + sep);
            assert(stack_str@ + preview_items(items, (i - 1) as nat) =~= before + preview_items(
                items,
                i as nat,
            ));
        }
        i = i - 1;
    }
    if stack_len > 4 {
        push_str(&mut stack_str, ", ...");
    }
    push_str(&mut stack_str, "]");
    assert(stack_str@ =~= stack_preview(items));
    let mut out = String::from_str("\x1b[90m0x");
    push_hex_padded(&mut out, current_pc as u64, 4);
    push_str(&mut out, ":\x1b[0m  ");
    push_str_padded(&mut out, inst_str.as_str(), 18);
    push_str(&mut out, " | \x1b[36mr0:\x1b[0m");
    push_dec_i64_padded(&mut out, cpu.registers[0], 5);
    push_str(&mut out, " \x1b[36mr1:\x1b[0m");
    push_dec_i64_padded(&mut out, cpu.registers[1], 5);
    push_str(&mut out, " | \x1b[32mStack:\x1b[0m");
    out.append(stack_str.as_str());
    assert(out@ =~= trace_text(cpu.state(), *current_instruction, current_pc));
    out
}

/// The items in order, in decimal, separated by `, `.
pub open spec fn items_text(items: Seq<i64>) -> Seq<char>
    decreases items.len(),
{
    if items.len() == 0 {
        Seq::empty()
    } else {
        dec_int(items[0] as int) + (if items.len() > 1 {
            ", "@
        } else {
            Seq::empty()
        }) + items_text(items.drop_first())
    }
}

proof fn lemma_preview_is_suffix(items: Seq<i64>, d: nat)
    requires
        d <= items.len(),
    ensures
        preview_items(items, d) == items_text(items.skip(items.len() - d)),
    decreases d,
{
    let t = items.skip(items.len() - d);
    if d == 0 {
        assert(t.len() == 0);
    } else {
        lemma_preview_is_suffix(items, (d - 1) as nat);
        assert(t[0] == items[items.len() - d]);
        assert(t.drop_first() =~= items.skip(items.len() - (d - 1)));
    }
}

/// The trace shows the whole stack, bottom first, when it holds at most four
/// items; when it holds more, it shows the top four and then `, ...` for the
/// items left out.
pub proof fn law_stack_preview(items: Seq<i64>)
    ensures
        items.len() <= 4 ==> stack_preview(items) == "["@ + items_text(items) + "]"@,
        items.len() > 4 ==> stack_preview(items) == "["@ + items_text(
            items.skip(items.len() - 4),
        ) + ", ..."@ + "]"@,
{
    if items.len() <= 4 {
        lemma_preview_is_suffix(items, items.len());
        assert(items.skip(0) =~= items);
        assert("["@ + items_text(items) + Seq::<char>::empty() + "]"@ =~= "["@ + items_text(items)
            + "]"@);
    } else {
        lemma_preview_is_suffix(items, 4);
    }
}

} // verus!

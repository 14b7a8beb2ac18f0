//! The virtual CPU: registers, program counter, evaluation stack and global
//! memory, and the fetch-decode-execute loop.

use vstd::prelude::*;
use crate::error::{MiniVmError, Result};
use crate::isa::Instruction;
use crate::text::{dec_nat, push_dec_u64, push_str};
use crate::vm::decoder::{decode_at, decode_error_text, DecodeStep, Decoder};
use crate::vm::globals::{spec_read, spec_write, Globals};
use crate::vm::stack::{msg_pop_underflow, spec_pop, spec_push, Stack};

verus! {

pub const NUM_REGISTERS: usize = 16;

/// The CPU's view of the machine, as plain values.
pub struct CpuState {
    pub registers: Seq<i64>,
    pub pc: usize,
    pub sp: usize,
    pub running: bool,
    pub stack: Seq<i64>,
    pub capacity: usize,
    pub globals: Seq<i64>,
}

pub open spec fn msg_register_read(reg: u8) -> Seq<char> {
    "Runtime Error: Invalid register read target index 'r"@ + dec_nat(reg as nat) + "'."@
}

pub open spec fn msg_register_write(reg: u8) -> Seq<char> {
    "Runtime Error: Invalid register write target index 'r"@ + dec_nat(reg as nat) + "'."@
}

pub open spec fn msg_division_by_zero() -> Seq<char> {
    "Runtime Error: Division by zero trap tripped."@
}

pub open spec fn msg_budget_exhausted() -> Seq<char> {
    "Runtime Error: Execution step budget exhausted."@
}

pub open spec fn st_pop(s: CpuState) -> std::result::Result<(i64, CpuState), Seq<char>> {
    match spec_pop(s.stack) {
        Ok((v, rest)) => Ok((v, CpuState { stack: rest, ..s })),
        Err(m) => Err(m),
    }
}

pub open spec fn st_push(s: CpuState, v: i64) -> std::result::Result<CpuState, Seq<char>> {
    match spec_push(s.stack, s.capacity as nat, v) {
        Ok(items) => Ok(CpuState { stack: items, ..s }),
        Err(m) => Err(m),
    }
}

pub open spec fn st_set_register(s: CpuState, reg: u8, v: i64) -> std::result::Result<
    CpuState,
    Seq<char>,
> {
    if (reg as int) < NUM_REGISTERS {
        Ok(CpuState { registers: s.registers.update(reg as int, v), ..s })
    } else {
        Err(msg_register_write(reg))
    }
}

pub open spec fn st_get_register(s: CpuState, reg: u8) -> std::result::Result<i64, Seq<char>> {
    if (reg as int) < NUM_REGISTERS {
        Ok(s.registers[reg as int])
    } else {
        Err(msg_register_read(reg))
    }
}

/// Quotient of `a / b` truncated toward zero; `i64::MIN / -1` wraps to `i64::MIN`.
pub open spec fn div_wrapping(a: i64, b: i64) -> i64 {
    match a.checked_div(b) {
        Some(q) => q,
        None => i64::MIN,
    }
}

/// The value an arithmetic instruction computes from `a` (deeper) and `b` (top).
pub open spec fn arith_value(inst: Instruction, a: i64, b: i64) -> i64 {
    match inst {
        Instruction::Add => a.wrapping_add(b),
        Instruction::Sub => a.wrapping_sub(b),
        Instruction::Mul => a.wrapping_mul(b),
        _ => div_wrapping(a, b),
    }
}

/// An arithmetic instruction: pops `b` then `a`, pushes the result.
pub open spec fn spec_arith(s: CpuState, inst: Instruction) -> (CpuState, Option<Seq<char>>) {
    match st_pop(s) {
        Err(m) => (s, Some(m)),
        Ok((b, s1)) => match st_pop(s1) {
            Err(m) => (s1, Some(m)),
            Ok((a, s2)) => if inst is Div && b == 0 {
                (s2, Some(msg_division_by_zero()))
            } else {
                match st_push(s2, arith_value(inst, a, b)) {
                    Err(m) => (s2, Some(m)),
                    Ok(s3) => (s3, None),
                }
            },
        },
    }
}

/// Executing `inst`, whose successor starts at `next_pc`, from state `s0`:
/// the state afterwards and the message of the runtime error, if one
/// stopped the instruction part way (what it changed before that stays).
pub open spec fn spec_execute(s0: CpuState, inst: Instruction, next_pc: usize) -> (
    CpuState,
    Option<Seq<char>>,
) {
    let s = CpuState { pc: next_pc, ..s0 };
    match inst {
        Instruction::Nop => (s, None),
        Instruction::Syscall(_) => (s, None),
        Instruction::Halt => (CpuState { running: false, ..s }, None),
        Instruction::Push(reg, imm) => match st_set_register(s, reg, imm) {
            Err(m) => (s, Some(m)),
            Ok(s1) => match st_push(s1, imm) {
                Err(m) => (s1, Some(m)),
                Ok(s2) => (CpuState { sp: s2.stack.len() as usize, ..s2 }, None),
            },
        },
        Instruction::Pop(reg) => match st_pop(s) {
            Err(m) => (s, Some(m)),
            Ok((v, s1)) => match st_set_register(s1, reg, v) {
                Err(m) => (s1, Some(m)),
                Ok(s2) => (CpuState { sp: s2.stack.len() as usize, ..s2 }, None),
            },
        },
        Instruction::Add | Instruction::Sub | Instruction::Mul | Instruction::Div => spec_arith(
            s,
            inst,
        ),
        Instruction::Jmp(t) => (CpuState { pc: t as usize, ..s }, None),
        Instruction::Jz(t) => match st_pop(s) {
            Err(m) => (s, Some(m)),
            Ok((c, s1)) => (
                if c == 0 {
                    CpuState { pc: t as usize, ..s1 }
                } else {
                    s1
                },
                None,
            ),
        },
        Instruction::Jnz(t) => match st_pop(s) {
            Err(m) => (s, Some(m)),
            Ok((c, s1)) => (
                if c != 0 {
                    CpuState { pc: t as usize, ..s1 }
                } else {
                    s1
                },
                None,
            ),
        },
        Instruction::Load(reg, addr) => match spec_read(s.globals, (addr as usize) as nat) {
            Err(m) => (s, Some(m)),
            Ok(v) => match st_set_register(s, reg, v) {
                Err(m) => (s, Some(m)),
                Ok(s1) => (s1, None),
            },
        },
        Instruction::Store(reg, addr) => match st_get_register(s, reg) {
            Err(m) => (s, Some(m)),
            Ok(v) => match spec_write(s.globals, (addr as usize) as nat, v) {
                Err(m) => (s, Some(m)),
                Ok(g) => (CpuState { globals: g, ..s }, None),
            },
        },
        Instruction::Ret => match st_pop(s) {
            Err(m) => (s, Some(m)),
            Ok((ra, s1)) => (CpuState { pc: ra as usize, ..s1 }, None),
        },
    }
}

/// How a run of the fetch-decode-execute loop ends.
pub enum RunEnd {
    /// The CPU halted or the program counter left the program.
    Finished,
    /// A system trap was reached; the program counter is past it.
    Trap(u8),
    /// A decoding or runtime error, with its message.
    Fault(Seq<char>),
    /// The step budget ran out.
    Exhausted,
}

/// Running the program `code` from state `s` for at most `fuel` instructions.
pub open spec fn spec_run(s: CpuState, code: Seq<u8>, fuel: nat) -> (CpuState, RunEnd)
    decreases fuel,
{
    if !s.running || s.pc >= code.len() {
        (s, RunEnd::Finished)
    } else if fuel == 0 {
        (s, RunEnd::Exhausted)
    } else {
        let step = decode_at(code, s.pc as int);
        match step {
            DecodeStep::End => (CpuState { running: false, ..s }, RunEnd::Finished),
            DecodeStep::Decoded(inst, n) => {
                let next = (s.pc + n) as usize;
                match inst {
                    Instruction::Syscall(c) => (CpuState { pc: next, ..s }, RunEnd::Trap(c)),
                    _ => {
                        let (s2, err) = spec_execute(s, inst, next);
                        match err {
                            Some(m) => (s2, RunEnd::Fault(m)),
                            None => spec_run(s2, code, (fuel - 1) as nat),
                        }
                    },
                }
            },
            _ => (s, RunEnd::Fault(decode_error_text(step, s.pc as nat))),
        }
    }
}

/// The number of instructions one call of `run` or `resume` executes at most.
pub open spec fn step_budget() -> nat {
    0xFFFF_FFFF_FFFF_FFFF
}

/// Why `run` or `resume` gave control back.
#[derive(Debug, Clone, Copy, PartialEq, Eq, Structural)]
pub enum ExecStatus {
    /// The CPU halted, or the program counter left the program.
    Finished,
    /// The program raised the system trap with this vector; the program
    /// counter is past the trap instruction, and `resume` continues.
    Trap(u8),
}

/// The answer of `run`/`resume` agrees with how the run ended.
pub open spec fn run_answer(end: RunEnd, r: Result<ExecStatus>) -> bool {
    match end {
        RunEnd::Finished => r == Ok::<ExecStatus, MiniVmError>(ExecStatus::Finished),
        RunEnd::Trap(c) => r == Ok::<ExecStatus, MiniVmError>(ExecStatus::Trap(c)),
        RunEnd::Fault(m) => r matches Err(e) && e.is_generic(m),
        RunEnd::Exhausted => r matches Err(e) && e.is_generic(msg_budget_exhausted()),
    }
}

#[derive(Debug)]
pub struct Cpu {
    pub registers: [i64; NUM_REGISTERS],
    pub pc: usize,
    pub sp: usize,
    pub running: bool,
    pub stack: Stack,
    pub globals: Globals,
}

impl Cpu {
    pub open spec fn state(&self) -> CpuState {
        CpuState {
            registers: self.registers@,
            pc: self.pc,
            sp: self.sp,
            running: self.running,
            stack: self.stack.items(),
            capacity: self.stack.capacity(),
            globals: self.globals.cells(),
        }
    }

    pub fn new(stack_size: usize, globals_size: usize) -> (c: Self)
        ensures
            c.state() == (CpuState {
                registers: Seq::new(NUM_REGISTERS as nat, |_i: int| 0i64),
                pc: 0,
                sp: 0,
                running: false,
                stack: Seq::empty(),
                capacity: stack_size,
                globals: Seq::new(globals_size as nat, |_i: int| 0i64),
            }),
    {
        let c = Cpu {
            registers: [0i64; NUM_REGISTERS],
            pc: 0,
            sp: 0,
            running: false,
            stack: Stack::new(stack_size),
            globals: Globals::new(globals_size),
        };
        assert(c.registers@ =~= Seq::new(NUM_REGISTERS as nat, |_i: int| 0i64));
        c
    }

    /// Zeroes the registers and the globals, empties the stack and stops the CPU.
    pub fn reset(&mut self)
        ensures
            final(self).state() == (CpuState {
                registers: Seq::new(NUM_REGISTERS as nat, |_i: int| 0i64),
                pc: 0,
                sp: 0,
                running: false,
                stack: Seq::empty(),
                capacity: old(self).state().capacity,
                globals: Seq::new(old(self).state().globals.len(), |_i: int| 0i64),
            }),
    {
        self.registers = [0i64; NUM_REGISTERS];
        self.pc = 0;
        self.sp = 0;
        self.running = false;
        self.stack.clear();
        self.globals.clear();
        assert(self.registers@ =~= Seq::new(NUM_REGISTERS as nat, |_i: int| 0i64));
    }

    /// Runs `bytecode` from address 0.
    pub fn run(&mut self, bytecode: &[u8]) -> (r: Result<ExecStatus>)
        ensures
            ({
                let start = CpuState { running: true, pc: 0, ..old(self).state() };
                let (st, end) = spec_run(start, bytecode@, step_budget());
                final(self).state() == st && run_answer(end, r)
            }),
    {
        self.running = true;
        self.pc = 0;
        self.resume(bytecode)
    }

    /// Continues running `bytecode` from the current program counter.
    pub fn resume(&mut self, bytecode: &[u8]) -> (r: Result<ExecStatus>)
        ensures
            ({
                let (st, end) = spec_run(old(self).state(), bytecode@, step_budget());
                final(self).state() == st && run_answer(end, r)
            }),
    {
        let ghost code = bytecode@;
        let ghost target = spec_run(self.state(), code, step_budget());
        let mut decoder = Decoder::new(bytecode);
        let mut fuel: u64 = 0xFFFF_FFFF_FFFF_FFFF;
        while self.running && self.pc < bytecode.len()
            invariant
                decoder.bytes() == code,
                code == bytecode@,
                spec_run(self.state(), code, fuel as nat) == target,
                target == spec_run(old(self).state(), code, step_budget()),
            decreases fuel,
        {
            if fuel == 0 {
                return Err(
                    MiniVmError::Generic(
                        String::from_str("Runtime Error: Execution step budget exhausted."),
                    ),
                );
            }
            decoder.set_offset(self.pc);
            let inst = match decoder.decode_next() {
                Ok(Some(inst)) => inst,
                Ok(None) => {
                    self.running = false;
                    return Ok(ExecStatus::Finished);
                },
                Err(e) => {
                    return Err(e);
                },
            };
            let next_pc = decoder.current_offset();
            if let Instruction::Syscall(code) = inst {
                self.pc = next_pc;
                return Ok(ExecStatus::Trap(code));
            }
            match self.execute(inst, next_pc) {
                Ok(()) => {},
                Err(e) => {
                    return Err(e);
                },
            }
            fuel = fuel - 1;
        }
        Ok(ExecStatus::Finished)
    }

    fn execute(&mut self, inst: Instruction, next_pc: usize) -> (r: Result<()>)
        ensures
            ({
                let (st, err) = spec_execute(old(self).state(), inst, next_pc);
                final(self).state() == st && match err {
                    None => r is Ok,
                    Some(m) => r matches Err(e) && e.is_generic(m),
                }
            }),
    {
        self.pc = next_pc;
        match inst {
            Instruction::Nop => {},
            Instruction::Syscall(_) => {},
            Instruction::Halt => {
                self.running = false;
            },
            Instruction::Push(reg, immediate) => {
                self.set_register_val(reg, immediate)?;
                self.stack.push(immediate)?;
                self.sp = self.stack.len();
            },
            Instruction::Pop(reg) => {
                let val = self.stack.pop()?;
                self.set_register_val(reg, val)?;
                self.sp = self.stack.len();
            },
            Instruction::Add => {
                let b = self.stack.pop()?;
                let a = self.stack.pop()?;
                self.stack.push(a.wrapping_add(b))?;
            },
            Instruction::Sub => {
                let b = self.stack.pop()?;
                let a = self.stack.pop()?;
                self.stack.push(a.wrapping_sub(b))?;
            },
            Instruction::Mul => {
                let b = self.stack.pop()?;
                let a = self.stack.pop()?;
                self.stack.push(a.wrapping_mul(b))?;
            },
            Instruction::Div => {
                let b = self.stack.pop()?;
                let a = self.stack.pop()?;
                if b == 0 {
                    return Err(
                        MiniVmError::Generic(
                            String::from_str("Runtime Error: Division by zero trap tripped."),
                        ),
                    );
                }
                let q = match a.checked_div(b) {
                    Some(q) => q,
                    None => i64::MIN,
                };
                self.stack.push(q)?;
            },
            Instruction::Jmp(target_address) => {
                self.pc = target_address as usize;
            },
            Instruction::Jz(target_address) => {
                let condition = self.stack.pop()?;
                if condition == 0 {
                    self.pc = target_address as usize;
                }
            },
            Instruction::Jnz(target_address) => {
                let condition = self.stack.pop()?;
                if condition != 0 {
                    self.pc = target_address as usize;
                }
            },
            Instruction::Load(reg, addr) => {
                let val = self.globals.read(addr as usize)?;
                self.set_register_val(reg, val)?;
            },
            Instruction::Store(reg, addr) => {
                let val = self.get_register_val(reg)?;
                self.globals.write(addr as usize, val)?;
            },
            Instruction::Ret => {
                let return_address = self.stack.pop()?;
                self.pc = return_address as usize;
            },
        }
        Ok(())
    }

    fn get_register_val(&self, reg_id: u8) -> (r: Result<i64>)
        ensures
            match st_get_register(self.state(), reg_id) {
                Ok(v) => r == Ok::<i64, MiniVmError>(v),
                Err(m) => r matches Err(e) && e.is_generic(m),
            },
    {
        if (reg_id as usize) < NUM_REGISTERS {
            Ok(self.registers[reg_id as usize])
        } else {
            let mut m = String::from_str("Runtime Error: Invalid register read target index 'r");
            push_dec_u64(&mut m, reg_id as u64);
            push_str(&mut m, "'.");
            Err(MiniVmError::Generic(m))
        }
    }

    fn set_register_val(&mut self, reg_id: u8, val: i64) -> (r: Result<()>)
        ensures
            match st_set_register(old(self).state(), reg_id, val) {
                Ok(st) => r is Ok && final(self).state() == st,
                Err(m) => r matches Err(e) && e.is_generic(m) && final(self).state() == old(
                    self,
                ).state(),
            },
    {
        if (reg_id as usize) < NUM_REGISTERS {
            self.registers[reg_id as usize] = val;
            Ok(())
        } else {
            let mut m = String::from_str("Runtime Error: Invalid register write target index 'r");
            push_dec_u64(&mut m, reg_id as u64);
            push_str(&mut m, "'.");
            Err(MiniVmError::Generic(m))
        }
    }
}

/// The machine's shape: sixteen registers, a memory of `cells` cells, a
/// stack of capacity `capacity` that holds no more than that.
pub open spec fn shaped(s: CpuState, cells: nat, capacity: usize) -> bool {
    &&& s.registers.len() == NUM_REGISTERS
    &&& s.globals.len() == cells
    &&& s.capacity == capacity
    &&& s.stack.len() <= capacity
}

proof fn lemma_execute_keeps_shape(s: CpuState, inst: Instruction, next_pc: usize, cells: nat, capacity: usize)
    requires
        shaped(s, cells, capacity),
    ensures
        shaped(spec_execute(s, inst, next_pc).0, cells, capacity),
{
}

/// Running keeps the machine's shape: the register file, the memory size and
/// the stack capacity never change, and the stack never holds more items
/// than its capacity, however the run ends.
pub proof fn law_run_keeps_shape(s: CpuState, code: Seq<u8>, fuel: nat)
    requires
        s.registers.len() == NUM_REGISTERS,
        s.stack.len() <= s.capacity,
    ensures
        shaped(spec_run(s, code, fuel).0, s.globals.len(), s.capacity),
    decreases fuel,
{
    if s.running && s.pc < code.len() && fuel > 0 {
        match decode_at(code, s.pc as int) {
            DecodeStep::Decoded(inst, n) => {
                if !(inst is Syscall) {
                    let next = (s.pc + n) as usize;
                    lemma_execute_keeps_shape(s, inst, next, s.globals.len(), s.capacity);
                    let (s2, err) = spec_execute(s, inst, next);
                    if err is None {
                        law_run_keeps_shape(s2, code, (fuel - 1) as nat);
                    }
                }
            },
            _ => {},
        }
    }
}

/// Conditional jumps pop the top of the stack and branch on it: `jnz t`
/// continues at `t` exactly when the popped value is not zero, `jz t` exactly
/// when it is zero, and otherwise both continue with the next instruction;
/// `jmp t` always continues at `t` and leaves the stack alone. Nothing else
/// changes. On an empty stack the conditional jumps fail with the underflow
/// message and leave the stack as it was.
pub proof fn law_jumps(s: CpuState, t: u64, next_pc: usize)
    ensures
        s.stack.len() > 0 ==> spec_execute(s, Instruction::Jnz(t), next_pc) == (
            CpuState {
                pc: if s.stack.last() != 0 {
                    t as usize
                } else {
                    next_pc
                },
                stack: s.stack.drop_last(),
                ..s
            },
            None::<Seq<char>>,
        ),
        s.stack.len() > 0 ==> spec_execute(s, Instruction::Jz(t), next_pc) == (
            CpuState {
                pc: if s.stack.last() == 0 {
                    t as usize
                } else {
                    next_pc
                },
                stack: s.stack.drop_last(),
                ..s
            },
            None::<Seq<char>>,
        ),
        spec_execute(s, Instruction::Jmp(t), next_pc) == (
            CpuState { pc: t as usize, ..s },
            None::<Seq<char>>,
        ),
        s.stack.len() == 0 ==> spec_execute(s, Instruction::Jnz(t), next_pc) == (
            CpuState { pc: next_pc, ..s },
            Some(msg_pop_underflow()),
        ) && spec_execute(s, Instruction::Jz(t), next_pc) == (
            CpuState { pc: next_pc, ..s },
            Some(msg_pop_underflow()),
        ),
{
}

} // verus!

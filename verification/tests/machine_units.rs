use minivm::isa::{Instruction, Opcode};
use minivm::vm::cpu::{Cpu, ExecStatus, NUM_REGISTERS};
use minivm::vm::decoder::{
    read_i32_le, read_i64_le, read_u16_le, read_u64_le, write_i64_le, write_u16_le, write_u64_le,
    Decoder,
};
use minivm::vm::globals::Globals;
use minivm::vm::stack::Stack;
use minivm::vm::trace::{format_instruction_brief, trace_line};
use minivm::vm::traps::{complete_read_int, handle_trap, register_dump, TrapCode, TrapRequest};
use minivm::vm::{Vm, VmConfig};

fn program(parts: &[&[u8]]) -> Vec<u8> {
    let mut v = Vec::new();
    for p in parts {
        v.extend_from_slice(p);
    }
    v
}

fn push(reg: u8, value: i64) -> Vec<u8> {
    let mut v = vec![0x21, reg];
    v.extend_from_slice(&value.to_le_bytes());
    v
}

fn with_target(op: u8, target: u64) -> Vec<u8> {
    let mut v = vec![op];
    v.extend_from_slice(&target.to_le_bytes());
    v
}

fn run_error(bytes: &[u8]) -> String {
    let mut vm = Vm::new(VmConfig::default());
    vm.execute(bytes).err().unwrap().to_string()
}

#[test]
fn stack_operations_and_messages() {
    let mut s = Stack::new(2);
    assert!(s.is_empty());
    assert_eq!(s.pop().err().unwrap().to_string(), "Toolchain Error: Runtime Error: Stack Underflow. Attempted to pop an evaluation element from an empty stack frame.");
    assert_eq!(s.peek().err().unwrap().to_string(), "Toolchain Error: Runtime Error: Stack Underflow. Attempted to peek at an element on an empty stack frame.");
    s.push(5).unwrap();
    s.push(6).unwrap();
    assert_eq!(s.len(), 2);
    assert_eq!(s.push(7).err().unwrap().to_string(), "Toolchain Error: Runtime Error: Stack Overflow. Attempted to exceed maximum bounds capacity threshold of 2 elements.");
    assert_eq!(s.peek().unwrap(), 6);
    assert_eq!(s.peek_at_depth(0).unwrap(), 6);
    assert_eq!(s.peek_at_depth(1).unwrap(), 5);
    assert_eq!(s.peek_at_depth(2).err().unwrap().to_string(), "Toolchain Error: Bounds Error");
    assert_eq!(s.pop().unwrap(), 6);
    assert_eq!(s.pop().unwrap(), 5);
    s.push(1).unwrap();
    s.clear();
    assert!(s.is_empty());
}

#[test]
fn globals_read_write_and_bounds() {
    let mut g = Globals::new(4);
    assert_eq!(g.len(), 4);
    assert_eq!(g.read(3).unwrap(), 0);
    g.write(3, -9).unwrap();
    assert_eq!(g.read(3).unwrap(), -9);
    assert_eq!(g.read(2).unwrap(), 0);
    assert_eq!(g.read(4).err().unwrap().to_string(), "Toolchain Error: Runtime Error: Out-of-bounds global memory read attempt at address 0x0004 (Max allocation size: 4 slots)");
    assert_eq!(g.write(300, 1).err().unwrap().to_string(), "Toolchain Error: Runtime Error: Out-of-bounds global memory write attempt at address 0x012C (Max allocation size: 4 slots)");
    g.clear();
    assert_eq!(g.read(3).unwrap(), 0);
    assert_eq!(g.len(), 4);
}

#[test]
fn little_endian_helpers() {
    let bytes = [0x34, 0x12, 0xFF, 0xFF, 0xFF, 0xFF, 0xFF, 0xFF, 0x01, 0x02];
    assert_eq!(read_u16_le(&bytes, 0), 0x1234);
    assert_eq!(read_i32_le(&bytes, 2), -1);
    assert_eq!(read_i64_le(&bytes, 2), i64::from_le_bytes([0xFF, 0xFF, 0xFF, 0xFF, 0xFF, 0xFF, 0x01, 0x02]));
    assert_eq!(read_u64_le(&bytes, 1), u64::from_le_bytes([0x12, 0xFF, 0xFF, 0xFF, 0xFF, 0xFF, 0xFF, 0x01]));
    let mut buf = [0u8; 12];
    write_u16_le(&mut buf, 1, 0xBEEF);
    assert_eq!(&buf[..4], &[0, 0xEF, 0xBE, 0]);
    write_i64_le(&mut buf, 2, -2);
    assert_eq!(&buf[2..10], &(-2i64).to_le_bytes());
    assert_eq!(buf[1], 0xEF);
    write_u64_le(&mut buf, 4, 0x0102030405060708);
    assert_eq!(&buf[4..12], &0x0102030405060708u64.to_le_bytes());
    assert_eq!(&buf[2..4], &[0xFE, 0xFF]);
}

#[test]
fn decoder_walks_the_stream() {
    let bytes = program(&[&[0x00], &push(3, -4), &[0x50, 0x02], &with_target(0x31, 0x1234), &[0x20]]);
    let mut d = Decoder::new(&bytes);
    assert_eq!(d.decode_next().unwrap(), Some(Instruction::Nop));
    assert_eq!(d.current_offset(), 1);
    assert_eq!(d.decode_next().unwrap(), Some(Instruction::Push(3, -4)));
    assert_eq!(d.decode_next().unwrap(), Some(Instruction::Syscall(2)));
    assert_eq!(d.decode_next().unwrap(), Some(Instruction::Jz(0x1234)));
    assert!(!d.is_at_end());
    assert_eq!(d.decode_next().err().unwrap().to_string(), "Toolchain Error: Decode Error: Truncated operands for opcode 0x20 at offset 0x0016");
    d.set_offset(0);
    assert_eq!(d.current_offset(), 0);
    assert_eq!(d.decode_next().unwrap(), Some(Instruction::Nop));
    d.set_offset(bytes.len());
    assert!(d.is_at_end());
    assert_eq!(d.decode_next().unwrap(), None);
    let bad = [0x77u8];
    let mut d2 = Decoder::new(&bad);
    assert_eq!(d2.decode_next().err().unwrap().to_string(), "Toolchain Error: Decode Error: Unrecognized opcode byte 0x77 at offset 0x0000");
}

#[test]
fn opcode_and_trap_codes() {
    assert_eq!(Opcode::from_u8(0x21), Some(Opcode::Push));
    assert_eq!(Opcode::from_u8(0xFF), Some(Opcode::Halt));
    assert_eq!(Opcode::from_u8(0x50), Some(Opcode::Syscall));
    assert_eq!(Opcode::from_u8(0x99), None);
    assert_eq!(TrapCode::from_u8(1), Some(TrapCode::PrintInt));
    assert_eq!(TrapCode::from_u8(2), Some(TrapCode::PrintChar));
    assert_eq!(TrapCode::from_u8(3), Some(TrapCode::ReadInt));
    assert_eq!(TrapCode::from_u8(4), Some(TrapCode::DumpRegs));
    assert_eq!(TrapCode::from_u8(5), None);
}

#[test]
fn cpu_new_and_reset() {
    let mut cpu = Cpu::new(8, 3);
    assert_eq!(cpu.registers, [0i64; NUM_REGISTERS]);
    assert_eq!(cpu.globals.len(), 3);
    let bytes = program(&[&push(2, 9), &[0x41, 2], &1u64.to_le_bytes(), &[0xFF]]);
    assert_eq!(cpu.run(&bytes).unwrap(), ExecStatus::Finished);
    assert_eq!(cpu.registers[2], 9);
    assert_eq!(cpu.globals.read(1).unwrap(), 9);
    assert_eq!(cpu.stack.len(), 1);
    cpu.reset();
    assert_eq!(cpu.registers[2], 0);
    assert_eq!(cpu.pc, 0);
    assert!(!cpu.running);
    assert!(cpu.stack.is_empty());
    assert_eq!(cpu.globals.read(1).unwrap(), 0);
}

#[test]
fn vm_config_default() {
    let c = VmConfig::default();
    assert_eq!(c.stack_size, 1024);
    assert_eq!(c.globals_size, 256);
    assert!(!c.enable_tracing);
}

#[test]
fn vm_division_truncates_toward_zero() {
    let bytes = program(&[&push(0, 7), &push(0, -2), &[0x13, 0x20, 1, 0xFF]]);
    let mut vm = Vm::new(VmConfig::default());
    vm.execute(&bytes).unwrap();
    assert_eq!(vm.cpu().registers[1], -3);
}

#[test]
fn vm_arithmetic_wraps() {
    let bytes = program(&[&push(0, i64::MAX), &push(0, 1), &[0x10, 0x20, 1, 0xFF]]);
    let mut vm = Vm::new(VmConfig::default());
    vm.execute(&bytes).unwrap();
    assert_eq!(vm.cpu().registers[1], i64::MIN);
}

#[test]
fn vm_runtime_error_messages() {
    assert_eq!(run_error(&program(&[&push(20, 1)])), "Toolchain Error: Runtime Error: Invalid register write target index 'r20'.");
    assert_eq!(run_error(&[0x41, 16, 0, 0, 0, 0, 0, 0, 0, 0]), "Toolchain Error: Runtime Error: Invalid register read target index 'r16'.");
    assert_eq!(run_error(&program(&[&push(0, 1), &push(0, 0), &[0x13]])), "Toolchain Error: Runtime Error: Division by zero trap tripped.");
    assert_eq!(run_error(&[0x40, 1, 0, 1, 0, 0, 0, 0, 0, 0]), "Toolchain Error: Runtime Error: Out-of-bounds global memory read attempt at address 0x0100 (Max allocation size: 256 slots)");
    assert_eq!(run_error(&[0x00, 0x99]), "Toolchain Error: Decode Error: Unrecognized opcode byte 0x99 at offset 0x0001");
}

#[test]
fn vm_jumps_loads_and_returns() {
    // push r0, 0; jnz 30 (not taken); push r1, 11; halt; 30: push r2, 22; halt
    let branch = program(&[&push(0, 0), &with_target(0x32, 30), &push(1, 11), &[0xFF], &push(2, 22), &[0xFF]]);
    let mut vm = Vm::new(VmConfig { stack_size: 8, globals_size: 1, enable_tracing: false });
    vm.execute(&branch).unwrap();
    assert_eq!(vm.cpu().registers[1], 11);
    assert_eq!(vm.cpu().registers[2], 0);

    // push r0, 12; ret (to 12); halt (skipped); 12: push r1, 5; halt
    let ret = program(&[&push(0, 12), &[0x14, 0xFF], &push(1, 5), &[0xFF]]);
    let mut vm2 = Vm::new(VmConfig::default());
    vm2.execute(&ret).unwrap();
    assert_eq!(vm2.cpu().registers[1], 5);
    assert_eq!(vm2.cpu().pc, 23);

    // push r0, 3; store r0, 0; load r1, 0; halt
    let memory = program(&[&push(0, 3), &[0x41, 0], &0u64.to_le_bytes(), &[0x40, 1], &0u64.to_le_bytes(), &[0xFF]]);
    let mut vm3 = Vm::new(VmConfig::default());
    vm3.execute(&memory).unwrap();
    assert_eq!(vm3.cpu().registers[1], 3);
    assert_eq!(vm3.cpu().globals.read(0).unwrap(), 3);
}

#[test]
fn vm_stops_at_system_trap_and_resumes() {
    let bytes = program(&[&push(0, 65), &[0x50, 0x02], &push(1, 7), &[0x50, 0x01, 0xFF]]);
    let mut vm = Vm::new(VmConfig::default());
    assert_eq!(vm.execute(&bytes).unwrap(), ExecStatus::Trap(2));
    assert_eq!(vm.cpu().pc, 12);
    match handle_trap(2, vm.cpu_mut()).unwrap() {
        TrapRequest::PrintChar(c) => assert_eq!(c, 'A'),
        _ => panic!("expected a character"),
    }
    assert_eq!(vm.resume(&bytes).unwrap(), ExecStatus::Trap(1));
    match handle_trap(1, vm.cpu_mut()).unwrap() {
        TrapRequest::PrintInt(v) => assert_eq!(v, 7),
        _ => panic!("expected an integer"),
    }
    assert_eq!(vm.resume(&bytes).unwrap(), ExecStatus::Finished);
    assert!(vm.cpu().stack.is_empty());
}

#[test]
fn trap_errors_and_input() {
    let mut cpu = Cpu::new(4, 4);
    assert_eq!(
        handle_trap(9, &mut cpu).err().unwrap().to_string(),
        "Toolchain Error: Runtime Exception: Triggered undefined or malformed system trap vector '0x09' at PC address 0x0000"
    );
    assert_eq!(handle_trap(1, &mut cpu).err().unwrap().to_string(), "Toolchain Error: Runtime Error: Stack Underflow. Attempted to pop an evaluation element from an empty stack frame.");
    cpu.stack.push(0xD800).unwrap();
    assert_eq!(
        handle_trap(2, &mut cpu).err().unwrap().to_string(),
        "Toolchain Error: Runtime Exception: Invalid Unicode character scalar conversion attempt for value '55296'"
    );
    assert!(cpu.stack.is_empty());
    cpu.stack.push(0x1F600).unwrap();
    match handle_trap(2, &mut cpu).unwrap() {
        TrapRequest::PrintChar(c) => assert_eq!(c, '\u{1F600}'),
        _ => panic!("expected a character"),
    }
    assert!(matches!(handle_trap(3, &mut cpu).unwrap(), TrapRequest::ReadInt));
    complete_read_int(&mut cpu, "  -12 \n").unwrap();
    assert_eq!(cpu.stack.peek().unwrap(), -12);
    assert_eq!(
        complete_read_int(&mut cpu, "4 2\n").err().unwrap().to_string(),
        "Toolchain Error: Runtime Exception: Invalid integer literal provided on standard input stream."
    );
    assert_eq!(cpu.stack.len(), 1);
}

#[test]
fn register_dump_text() {
    let mut cpu = Cpu::new(4, 4);
    cpu.registers[0] = 5;
    cpu.registers[1] = -1;
    cpu.registers[10] = 1234567890123;
    cpu.pc = 0x2A;
    cpu.stack.push(1).unwrap();
    let mut expected = String::from("\n--- [CPU REGISTER DIAGNOSTIC DUMP] ---\n");
    for (i, v) in cpu.registers.iter().enumerate() {
        expected.push_str(&format!("r{:<2}: 0x{:016X} ({:<10})  ", i, v, v));
        if (i + 1) % 2 == 0 {
            expected.push('\n');
        }
    }
    expected.push_str("pc : 0x002A               sp : 1\n");
    expected.push_str("---------------------------------------\n\n");
    assert_eq!(register_dump(&cpu), expected);
    assert!(register_dump(&cpu).contains("r1 : 0xFFFFFFFFFFFFFFFF (-1        )  \n"));
    assert!(register_dump(&cpu).contains("r10: 0x0000011F71FB04CB (1234567890123)  "));
    match handle_trap(4, &mut cpu).unwrap() {
        TrapRequest::DumpRegs(t) => assert_eq!(t, expected),
        _ => panic!("expected a dump"),
    }
}

#[test]
fn trace_line_text() {
    let mut cpu = Cpu::new(8, 1);
    for v in 1..=5 {
        cpu.stack.push(v).unwrap();
    }
    cpu.registers[0] = -3;
    assert_eq!(
        trace_line(&cpu, &Instruction::Push(1, 42), 0x10),
        "\x1b[90m0x0010:\x1b[0m  push r1, 42        | \x1b[36mr0:\x1b[0m-3    \x1b[36mr1:\x1b[0m0     | \x1b[32mStack:\x1b[0m[2, 3, 4, 5, ...]"
    );
    cpu.stack.clear();
    cpu.stack.push(9).unwrap();
    assert_eq!(
        trace_line(&cpu, &Instruction::Halt, 3),
        "\x1b[90m0x0003:\x1b[0m  halt               | \x1b[36mr0:\x1b[0m-3    \x1b[36mr1:\x1b[0m0     | \x1b[32mStack:\x1b[0m[9]"
    );
    assert_eq!(format_instruction_brief(&Instruction::Pop(254)), "pop  r254");
    assert_eq!(format_instruction_brief(&Instruction::Load(2, 255)), "load r2, 0xFF");
    assert_eq!(format_instruction_brief(&Instruction::Store(3, 16)), "store r3, 0x10");
    assert_eq!(format_instruction_brief(&Instruction::Jnz(5)), "jnz  0x0005");
    assert_eq!(format_instruction_brief(&Instruction::Syscall(4)), "syscall 0x04");
}

#[test]
fn printed_integers_read_back() {
    let mut cpu = Cpu::new(4, 1);
    for v in [i64::MIN, -42, 0, 7, i64::MAX] {
        let printed = format!("{}\n", v);
        complete_read_int(&mut cpu, &printed).unwrap();
        assert_eq!(cpu.stack.pop().unwrap(), v);
    }
}

#[test]
fn running_keeps_the_machine_shape() {
    let bytes = program(&[&push(0, 1), &push(1, 2), &push(2, 3)]);
    let mut vm = Vm::new(VmConfig { stack_size: 2, globals_size: 5, enable_tracing: false });
    assert!(vm.execute(&bytes).is_err());
    assert_eq!(vm.cpu().stack.len(), 2);
    assert_eq!(vm.cpu().globals.len(), 5);
    assert_eq!(vm.cpu().registers.len(), NUM_REGISTERS);
}

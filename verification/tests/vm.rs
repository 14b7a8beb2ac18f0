use minivm::bytecode::{OP_ADD, OP_HALT, OP_MUL, OP_NOP, OP_POP, OP_PUSH, OP_SUB};
use minivm::vm::{Vm, VmConfig};

/// Runs an instruction stream in a machine with the default configuration.
fn run_vm_bytes(bytes: &[u8]) -> Result<Vm, String> {
    let mut vm = Vm::new(VmConfig::default());
    vm.execute(bytes).map_err(|e| e.to_string())?;
    Ok(vm)
}

#[test]
fn test_vm_nop_and_halt() {
    let bytecode = vec![OP_NOP, OP_NOP, OP_HALT];
    let result = run_vm_bytes(&bytecode);

    assert!(result.is_ok());
    let vm = result.unwrap();

    assert_eq!(vm.cpu().running, false);
    assert_eq!(vm.cpu().pc, 3);
}

#[test]
fn test_vm_push_pop_registers() {
    // push r2, 584; pop r5; halt
    let mut bytecode = vec![OP_PUSH, 2];
    let value: i64 = 584;
    bytecode.extend_from_slice(&value.to_le_bytes());
    bytecode.push(OP_POP);
    bytecode.push(5);
    bytecode.push(OP_HALT);

    let vm = run_vm_bytes(&bytecode).unwrap();
    let cpu = vm.cpu();

    assert_eq!(cpu.registers[2], 584);
    assert_eq!(cpu.registers[5], 584);
    assert!(cpu.stack.is_empty());
}

#[test]
fn test_vm_math_operations() {
    // (20 * 4) - 5 = 75
    let mut bytecode = Vec::new();
    bytecode.push(OP_PUSH);
    bytecode.push(0);
    bytecode.extend_from_slice(&20i64.to_le_bytes());
    bytecode.push(OP_PUSH);
    bytecode.push(0);
    bytecode.extend_from_slice(&4i64.to_le_bytes());
    bytecode.push(OP_MUL);
    bytecode.push(OP_PUSH);
    bytecode.push(0);
    bytecode.extend_from_slice(&5i64.to_le_bytes());
    bytecode.push(OP_SUB);
    bytecode.push(OP_POP);
    bytecode.push(1);
    bytecode.push(OP_HALT);

    let vm = run_vm_bytes(&bytecode).unwrap();
    assert_eq!(vm.cpu().registers[1], 75);
}

#[test]
fn test_vm_stack_underflow_protection() {
    let bytecode = vec![OP_ADD, OP_HALT];
    let result = run_vm_bytes(&bytecode);

    assert!(result.is_err());
    assert!(result.unwrap_err().contains("Stack Underflow"));
}

#[test]
fn test_vm_stack_overflow_protection() {
    let small_config = VmConfig {
        stack_size: 2,
        globals_size: 10,
        enable_tracing: false,
    };

    let mut vm = Vm::new(small_config);

    // Three pushes onto a stack that holds two.
    let mut bytecode = Vec::new();
    bytecode.push(OP_PUSH);
    bytecode.push(0);
    bytecode.extend_from_slice(&1i64.to_le_bytes());
    bytecode.push(OP_PUSH);
    bytecode.push(0);
    bytecode.extend_from_slice(&2i64.to_le_bytes());
    bytecode.push(OP_PUSH);
    bytecode.push(0);
    bytecode.extend_from_slice(&3i64.to_le_bytes());

    let result = vm.execute(&bytecode);

    assert!(result.is_err());
    assert!(result.unwrap_err().to_string().contains("Stack Overflow"));
}

#[test]
fn test_vm_conditional_jumps() {
    // push r0, 0; jz 29; push r1, 99; halt; 29: push r1, 77; halt
    let mut bytecode = Vec::new();

    bytecode.push(OP_PUSH);
    bytecode.push(0);
    bytecode.extend_from_slice(&0i64.to_le_bytes());

    bytecode.push(0x31);
    let target_addr: u64 = 10 + 1 + 8 + 1 + 1 + 8 + 1;
    bytecode.extend_from_slice(&target_addr.to_le_bytes());

    bytecode.push(OP_PUSH);
    bytecode.push(1);
    bytecode.extend_from_slice(&99i64.to_le_bytes());
    bytecode.push(OP_HALT);

    bytecode.push(OP_PUSH);
    bytecode.push(1);
    bytecode.extend_from_slice(&77i64.to_le_bytes());
    bytecode.push(OP_HALT);

    let vm = run_vm_bytes(&bytecode).unwrap();
    assert_eq!(vm.cpu().registers[1], 77);
}

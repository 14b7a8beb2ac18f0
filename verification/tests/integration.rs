use minivm::assembler::compile;
use minivm::bytecode::verify_header;
use minivm::vm::{Vm, VmConfig};

#[test]
fn test_e2e_arithmetic_execution() {
    // 20 + 22 = 42, stored in r0.
    let source_code = "push r0, 20\npush r1, 22\nadd\npop r0\nhalt\n";

    let compiled_bytecode = compile(source_code)
        .expect("Integration Test Failure: Assembler compilation phase failed.");

    let header_offset = verify_header(&compiled_bytecode)
        .expect("Integration Test Failure: Compiled binary header is invalid.");
    let executable_bytes = &compiled_bytecode[header_offset..];

    let config = VmConfig {
        stack_size: 64,
        globals_size: 16,
        enable_tracing: false,
    };
    let mut vm = Vm::new(config);

    let execution_result = vm.execute(executable_bytes);
    assert!(execution_result.is_ok(), "VM crashed during integration runtime execution loop!");

    let target_cpu = vm.cpu();
    assert_eq!(target_cpu.registers[0], 42);
    assert_eq!(target_cpu.running, false, "CPU loop failed to acknowledge Halt instruction state.");
    assert!(target_cpu.stack.is_empty(), "Evaluation stack frame failed to clear cleanly after pop operations.");
}

#[test]
fn test_e2e_runtime_division_by_zero_trap() {
    let invalid_source = "
        push r0, 10
        push r1, 0
        div
        halt
    ";

    let compiled_bytecode = compile(invalid_source).unwrap();
    let header_offset = verify_header(&compiled_bytecode).unwrap();
    let executable_bytes = &compiled_bytecode[header_offset..];

    let mut vm = Vm::new(VmConfig::default());
    let execution_result = vm.execute(executable_bytes);

    assert!(execution_result.is_err());
    let err_message = execution_result.err().unwrap().to_string();
    assert!(err_message.contains("Division by zero"));
}

use minivm::bytecode::{OP_ADD, OP_HALT, OP_NOP, OP_POP, OP_PUSH};
use minivm::disassembler::disassemble_bytes;

#[test]
fn test_disassemble_empty_stream() {
    let bytecode: [u8; 0] = [];
    let result = disassemble_bytes(&bytecode);

    assert!(result.is_ok());
    let output = result.unwrap();

    assert!(output.contains("; --- Disassembled Bytecode Stream ---"));
}

#[test]
fn test_disassemble_nullary_sequence() {
    let bytecode = vec![OP_NOP, OP_ADD, OP_HALT];
    let result = disassemble_bytes(&bytecode);

    assert!(result.is_ok());
    let output = result.unwrap();

    assert!(output.contains("0x0000:  nop"));
    assert!(output.contains("0x0001:  add"));
    assert!(output.contains("0x0002:  halt"));
}

#[test]
fn test_disassemble_operand_instructions() {
    // push r3, 512 then pop r4
    let mut bytecode = vec![OP_PUSH, 3];
    let value: i64 = 512;
    bytecode.extend_from_slice(&value.to_le_bytes());

    bytecode.push(OP_POP);
    bytecode.push(4);

    let result = disassemble_bytes(&bytecode);
    assert!(result.is_ok());
    let output = result.unwrap();

    assert!(output.contains("0x0000:  push r3, 512"));
    assert!(output.contains("0x000A:  pop  r4"));
}

#[test]
fn test_disassemble_invalid_opcode_trap() {
    // 0x99 is no opcode.
    let bytecode = vec![OP_NOP, 0x99, OP_HALT];
    let result = disassemble_bytes(&bytecode);

    assert!(result.is_err());
    let err_msg = result.err().unwrap().to_string();
    assert!(err_msg.contains("Disassembly halted prematurely") || err_msg.contains("0x0001"));
}

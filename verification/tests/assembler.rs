use minivm::assembler::compile;
use minivm::bytecode::{OP_ADD, OP_HALT, OP_NOP, OP_PUSH};

#[test]
fn test_assemble_empty_and_whitespace() {
    // Only comments and blank lines: nothing but the header is emitted.
    let source = "   \n\n ; This is just a comment\n    \t\n";
    let result = compile(source);

    assert!(result.is_ok());
    let bytecode = result.unwrap();
    assert!(bytecode.is_empty() || bytecode.len() == 6);
}

#[test]
fn test_assemble_simple_instructions() {
    let source = "nop\nadd\nhalt";
    let result = compile(source);

    assert!(result.is_ok());
    let bytecode = result.unwrap();

    let instruction_bytes = if bytecode.starts_with(&[0x00, 0x6D, 0x56, 0x4D]) {
        &bytecode[6..]
    } else {
        &bytecode[..]
    };

    assert_eq!(instruction_bytes[0], OP_NOP);
    assert_eq!(instruction_bytes[1], OP_ADD);
    assert_eq!(instruction_bytes[2], OP_HALT);
}

#[test]
fn test_assemble_push_instruction() {
    let source = "push r1, 42\npush r5, -10";
    let result = compile(source);

    assert!(result.is_ok());
    let bytecode = result.unwrap();

    let inst_bytes = if bytecode.starts_with(&[0x00, 0x6D, 0x56, 0x4D]) {
        &bytecode[6..]
    } else {
        &bytecode[..]
    };

    // Layout: opcode, register, 8-byte little-endian immediate.
    assert_eq!(inst_bytes[0], OP_PUSH);
    assert_eq!(inst_bytes[1], 1);
    let val1 = i64::from_le_bytes(inst_bytes[2..10].try_into().unwrap());
    assert_eq!(val1, 42);

    assert_eq!(inst_bytes[10], OP_PUSH);
    assert_eq!(inst_bytes[11], 5);
    let val2 = i64::from_le_bytes(inst_bytes[12..20].try_into().unwrap());
    assert_eq!(val2, -10);
}

#[test]
fn test_assemble_labels_and_jumps() {
    let source = "
    start:
        nop
        jmp start
    ";
    let result = compile(source);
    assert!(result.is_ok());

    let bytecode = result.unwrap();
    let inst_bytes = if bytecode.starts_with(&[0x00, 0x6D, 0x56, 0x4D]) {
        &bytecode[6..]
    } else {
        &bytecode[..]
    };

    // `start` is address 0, where the `nop` is.
    assert_eq!(inst_bytes[0], OP_NOP);
    assert_eq!(inst_bytes[1], 0x30);

    let jump_target = u64::from_le_bytes(inst_bytes[2..10].try_into().unwrap());
    assert_eq!(jump_target, 0);
}

#[test]
fn test_lexer_error_invalid_char() {
    let source = "push r1, @42";
    let result = compile(source);

    assert!(result.is_err());
    let err_msg = result.err().unwrap().to_string();
    assert!(err_msg.contains("Lexical Analysis Error") || err_msg.contains("Unexpected character"));
}

#[test]
fn test_parser_error_missing_comma() {
    let source = "push r1 42";
    let result = compile(source);

    assert!(result.is_err());
    let err_msg = result.err().unwrap().to_string();
    assert!(err_msg.contains("Parsing Error") || err_msg.contains("Expected newline after instruction"));
}

#[test]
fn test_encoder_error_duplicate_label() {
    let source = "
    loop:
        nop
    loop:
        halt
    ";
    let result = compile(source);

    assert!(result.is_err());
    let err_msg = result.err().unwrap().to_string();
    assert!(err_msg.contains("Duplicate label definition"));
}

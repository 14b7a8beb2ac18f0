use minivm::assembler::compile;
use minivm::assembler::diagnostics::{Diagnostic, DiagnosticLevel};
use minivm::assembler::lexer::Location;
use minivm::bytecode::{executable_section, verify_header, write_header};
use minivm::cli::RunArgs;
use minivm::disassembler::printer::format_instruction;
use minivm::disassembler::{disassemble_bytes, Disassembler};
use minivm::error::MiniVmError;
use minivm::isa::Instruction;

#[test]
fn header_written_then_verified() {
    let mut buf = vec![0xAA];
    write_header(&mut buf);
    assert_eq!(buf, vec![0xAA, 0x00, 0x6D, 0x56, 0x4D, 1, 0]);
    let mut file = Vec::new();
    write_header(&mut file);
    file.extend_from_slice(&[0x00, 0xFF]);
    assert_eq!(verify_header(&file), Ok(6));
    assert_eq!(executable_section(&file).unwrap(), &[0x00, 0xFF]);
}

#[test]
fn header_errors() {
    assert_eq!(
        verify_header(&[0x00, 0x6D]),
        Err("Malformed binary: File data is too short to contain a valid header prefix.".to_string())
    );
    assert_eq!(
        verify_header(&[0x00, 0x6D, 0x56, 0x4E, 1, 0]),
        Err("Validation Error: Invalid file magic prefix. Not a valid miniVM compiled asset.".to_string())
    );
    assert_eq!(
        verify_header(&[0x00, 0x6D, 0x56, 0x4D, 2, 0]),
        Err("Compatibility Error: Unsupported binary layout major version (Expected v1, found v2)".to_string())
    );
    // Any minor version is accepted.
    assert_eq!(verify_header(&[0x00, 0x6D, 0x56, 0x4D, 1, 9, 0x00]), Ok(6));
    assert_eq!(
        executable_section(&[1, 2, 3]).err().unwrap().to_string(),
        "Invalid Bytecode Binary Format Header: Malformed binary: File data is too short to contain a valid header prefix."
    );
}

#[test]
fn error_texts_of_each_variant() {
    let lexical = MiniVmError::Lexical { message: "m1".to_string(), line: 3, column: 14 };
    assert_eq!(lexical.to_string(), "Lexical Analysis Error at line 3, col 14: m1");
    let syntax = MiniVmError::Syntax { message: "m2".to_string(), line: 10, column: 2 };
    assert_eq!(syntax.to_string(), "Parsing Syntax Error at line 10, col 2: m2");
    let encoding = MiniVmError::Encoding { message: "m3".to_string() };
    assert_eq!(encoding.to_string(), "Encoding Conversion Error: m3");
    let header = MiniVmError::InvalidBinaryHeader("m4".to_string());
    assert_eq!(header.to_string(), "Invalid Bytecode Binary Format Header: m4");
    let runtime = MiniVmError::RuntimeException { message: "m5".to_string(), pc: 0x1F };
    assert_eq!(runtime.to_string(), "VM Runtime Exception at PC offset 0x001F: m5");
    let generic: MiniVmError = "m6".to_string().into();
    assert_eq!(generic.to_string(), "Toolchain Error: m6");
    let io = MiniVmError::Io(std::io::Error::new(std::io::ErrorKind::Other, "disk gone"));
    assert_eq!(io.to_string(), "I/O System Error: disk gone");
}

#[test]
fn full_listing_text() {
    let mut bytes = vec![0x00, 0x21, 3];
    bytes.extend_from_slice(&512i64.to_le_bytes());
    bytes.push(0xFF);
    bytes.push(0x00);
    assert_eq!(
        disassemble_bytes(&bytes).unwrap(),
        "; --- Disassembled Bytecode Stream ---\n\n0x0000:  nop\n0x0001:  push r3, 512\n0x000B:  halt\n"
    );
    let d = Disassembler::new(&[0x50, 0x04, 0x20, 254, 0x20, 255]);
    assert_eq!(
        d.disassemble().unwrap(),
        "; --- Disassembled Bytecode Stream ---\n\n0x0000:  syscall 0x04\n0x0002:  pop  sp\n0x0004:  pop  pc\n"
    );
}

#[test]
fn listing_errors() {
    assert_eq!(
        disassemble_bytes(&[0x00, 0x99, 0xFF]).err().unwrap().to_string(),
        "Toolchain Error: Disassembly halted prematurely: Toolchain Error: Decode Error: Unrecognized opcode byte 0x99 at offset 0x0001"
    );
    assert_eq!(
        disassemble_bytes(&[0x21, 1]).err().unwrap().to_string(),
        "Toolchain Error: Disassembly halted prematurely: Toolchain Error: Decode Error: Truncated operands for opcode 0x21 at offset 0x0000"
    );
}

#[test]
fn instruction_texts() {
    assert_eq!(format_instruction(&Instruction::Jz(3)), "jz   0x0003");
    assert_eq!(format_instruction(&Instruction::Jmp(0x12345)), "jmp  0x12345");
    assert_eq!(format_instruction(&Instruction::Push(254, -7)), "push sp, -7");
    assert_eq!(format_instruction(&Instruction::Load(9, 0xABC)), "load r9, 0xABC");
    assert_eq!(format_instruction(&Instruction::Store(255, 0)), "store pc, 0x0");
    assert_eq!(format_instruction(&Instruction::Ret), "ret");
}

#[test]
fn diagnostic_report_text() {
    let d = Diagnostic::error("bad thing", Location { line: 2, column: 3 }).with_details("try this");
    assert_eq!(d.level, DiagnosticLevel::Error);
    assert_eq!(d.message, "bad thing");
    assert_eq!(d.details, Some("try this".to_string()));
    assert_eq!(
        d.render("nop\r\n\tab c\r\n", "f.tasm"),
        "\x1b[1;31merror\x1b[0m: bad thing\n  \x1b[1;34m-->\x1b[0m f.tasm:2:3\n   \x1b[1;34m|\x1b[0m\n  2 \x1b[1;34m|\x1b[0m \tab c\n    \x1b[1;34m|\x1b[0m \t \x1b[1;31m^\x1b[0m\n   \x1b[1;34m=\x1b[0m \x1b[1mhint:\x1b[0m try this\n\n"
    );
    // A line the source does not have: no excerpt.
    let far = Diagnostic::error("oops", Location { line: 7, column: 1 });
    assert_eq!(
        far.render("a\nb\n", "x"),
        "\x1b[1;31merror\x1b[0m: oops\n  \x1b[1;34m-->\x1b[0m x:7:1\n   \x1b[1;34m|\x1b[0m\n\n"
    );
    assert_eq!(DiagnosticLevel::Warning.label(), "\x1b[1;33mwarning\x1b[0m");
    assert_eq!(DiagnosticLevel::Error.label(), "\x1b[1;31merror\x1b[0m");
}

#[test]
fn run_options_to_config() {
    let args = RunArgs { input: "p.bin".to_string(), trace: true, stack_size: 32, globals_size: 8 };
    let c = args.vm_config();
    assert_eq!(c.stack_size, 32);
    assert_eq!(c.globals_size, 8);
    assert!(c.enable_tracing);
}

#[test]
fn disassembly_reassembles_to_the_same_bytes() {
    let mut bytes = vec![0x00, 0x10, 0x11, 0x12, 0x13, 0x14, 0x20, 254, 0x20, 7];
    bytes.extend_from_slice(&[0x21, 12]);
    bytes.extend_from_slice(&i64::MIN.to_le_bytes());
    bytes.extend_from_slice(&[0x40, 255]);
    bytes.extend_from_slice(&0x7FFF_FFFF_FFFF_FFFFu64.to_le_bytes());
    bytes.extend_from_slice(&[0x41, 0]);
    bytes.extend_from_slice(&0x10u64.to_le_bytes());
    bytes.push(0x30);
    bytes.extend_from_slice(&0x10000u64.to_le_bytes());
    bytes.push(0x31);
    bytes.extend_from_slice(&3u64.to_le_bytes());
    bytes.push(0x32);
    bytes.extend_from_slice(&0u64.to_le_bytes());
    bytes.push(0xFF);
    let text = disassemble_bytes(&bytes).unwrap();
    let again = compile(&text).unwrap();
    assert_eq!(&again[..6], &[0x00, 0x6D, 0x56, 0x4D, 1, 0]);
    assert_eq!(&again[6..], &bytes[..]);
}

#[test]
fn disassembly_stops_after_halt() {
    let bytes = vec![0x00, 0xFF, 0x10, 0x10];
    let text = disassemble_bytes(&bytes).unwrap();
    let again = compile(&text).unwrap();
    assert_eq!(&again[6..], &[0x00, 0xFF]);
}

#[test]
fn disassembly_of_a_trap_does_not_reassemble() {
    // The assembly language has no mnemonic for the system trap.
    let text = disassemble_bytes(&[0x50, 0x01]).unwrap();
    assert_eq!(
        compile(&text).err().unwrap().to_string(),
        "Toolchain Error: Encoding Error: Unknown opcode 'syscall' at line 3, col 10"
    );
}

#[test]
fn disassembly_of_a_far_jump_does_not_reassemble() {
    // Jump targets are read back as signed 64-bit literals.
    let mut bytes = vec![0x30];
    bytes.extend_from_slice(&0x8000_0000_0000_0000u64.to_le_bytes());
    let text = disassemble_bytes(&bytes).unwrap();
    assert_eq!(
        compile(&text).err().unwrap().to_string(),
        "Toolchain Error: Lexical Analysis Error: Invalid hex literal '0x8000000000000000' at line 3, col 15"
    );
}

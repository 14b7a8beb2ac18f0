use minivm::assembler::encoder::Encoder;
use minivm::assembler::lexer::{Lexer, Location, TokenKind};
use minivm::assembler::parser::{Operand, Parser};
use minivm::assembler::{compile, try_compile};

fn assembly_failure(source: &str) -> String {
    compile(source).err().unwrap().to_string()
}

fn body(source: &str) -> Vec<u8> {
    let bytes = compile(source).unwrap();
    assert_eq!(&bytes[..6], &[0x00, 0x6D, 0x56, 0x4D, 1, 0]);
    bytes[6..].to_vec()
}

#[test]
fn lexer_tokens_and_locations() {
    let mut lexer = Lexer::new("push r1, 42 ; note\n  end:");
    let t1 = lexer.next_token().unwrap();
    assert_eq!(t1.kind, TokenKind::Instruction("push"));
    assert_eq!(t1.lexeme, "push");
    assert_eq!(t1.loc, Location { line: 1, column: 1 });
    let t2 = lexer.next_token().unwrap();
    assert_eq!(t2.kind, TokenKind::Register("r1"));
    assert_eq!(t2.loc, Location { line: 1, column: 6 });
    let t3 = lexer.next_token().unwrap();
    assert_eq!(t3.kind, TokenKind::Comma);
    assert_eq!(t3.lexeme, ",");
    assert_eq!(t3.loc, Location { line: 1, column: 8 });
    let t4 = lexer.next_token().unwrap();
    assert_eq!(t4.kind, TokenKind::Integer(42));
    assert_eq!(t4.loc, Location { line: 1, column: 10 });
    let t5 = lexer.next_token().unwrap();
    assert_eq!(t5.kind, TokenKind::NewLine);
    assert_eq!(t5.loc, Location { line: 1, column: 19 });
    let t6 = lexer.next_token().unwrap();
    assert_eq!(t6.kind, TokenKind::LabelDef("end"));
    assert_eq!(t6.lexeme, "end:");
    assert_eq!(t6.loc, Location { line: 2, column: 3 });
    let t7 = lexer.next_token().unwrap();
    assert_eq!(t7.kind, TokenKind::EOF);
    assert_eq!(t7.loc, Location { line: 2, column: 7 });
}

#[test]
fn lexer_numbers_registers_and_strings() {
    let mut lexer = Lexer::new("-7 0x1F sp pc \"hi there\" 0x0A:");
    assert_eq!(lexer.next_token().unwrap().kind, TokenKind::Integer(-7));
    assert_eq!(lexer.next_token().unwrap().kind, TokenKind::HexInteger(31));
    assert_eq!(lexer.next_token().unwrap().kind, TokenKind::Register("sp"));
    assert_eq!(lexer.next_token().unwrap().kind, TokenKind::Register("pc"));
    let s = lexer.next_token().unwrap();
    assert_eq!(s.kind, TokenKind::StringLiteral("hi there"));
    assert_eq!(s.lexeme, "\"hi there\"");
    let l = lexer.next_token().unwrap();
    assert_eq!(l.kind, TokenKind::LabelDef("0x0A"));
    assert_eq!(lexer.next_token().unwrap().kind, TokenKind::EOF);
}

#[test]
fn lexer_columns_count_utf8_bytes() {
    // 'é' takes two bytes, so the '@' after it is at byte column 6.
    let mut lexer = Lexer::new("\"é\" @");
    assert_eq!(lexer.next_token().unwrap().kind, TokenKind::StringLiteral("é"));
    let err = lexer.next_token().err().unwrap();
    assert_eq!(err, "Unexpected character '@' at line 1, col 6");
}

#[test]
fn lexer_error_messages() {
    assert_eq!(
        assembly_failure("push r1, @42"),
        "Toolchain Error: Lexical Analysis Error: Unexpected character '@' at line 1, col 10"
    );
    assert_eq!(
        assembly_failure("push r1, 99999999999999999999"),
        "Toolchain Error: Lexical Analysis Error: Invalid integer literal '99999999999999999999' at line 1, col 10"
    );
    assert_eq!(
        assembly_failure("jmp 0xFFFFFFFFFFFFFFFF"),
        "Toolchain Error: Lexical Analysis Error: Invalid hex literal '0xFFFFFFFFFFFFFFFF' at line 1, col 5"
    );
    assert_eq!(
        assembly_failure("nop\n  \"abc\nhalt"),
        "Toolchain Error: Lexical Analysis Error: Unterminated string literal at line 2, col 3"
    );
    assert_eq!(
        assembly_failure("\"abc"),
        "Toolchain Error: Lexical Analysis Error: Unterminated string literal at end of file"
    );
}

#[test]
fn parser_builds_instructions_and_labels() {
    let mut lexer = Lexer::new("start:\n  push r2, 0x10\n  jmp start\n");
    let mut tokens = Vec::new();
    loop {
        let t = lexer.next_token().unwrap();
        let eof = t.kind == TokenKind::EOF;
        tokens.push(t);
        if eof {
            break;
        }
    }
    let mut parser = Parser::new(tokens);
    let program = parser.parse().unwrap();
    assert_eq!(program.labels, vec![("start", 0usize)]);
    assert_eq!(program.instructions.len(), 2);
    assert_eq!(program.instructions[0].opcode, "push");
    assert_eq!(
        program.instructions[0].operands,
        vec![Operand::Register("r2"), Operand::Integer(16)]
    );
    assert_eq!(program.instructions[0].loc, Location { line: 2, column: 3 });
    assert_eq!(program.instructions[1].opcode, "jmp");
    assert_eq!(program.instructions[1].operands, vec![Operand::LabelRef("start")]);

    let mut encoder = Encoder::new();
    let bytes = encoder.encode(&program).unwrap();
    let mut expected = vec![0x21, 2];
    expected.extend_from_slice(&16i64.to_le_bytes());
    expected.push(0x30);
    expected.extend_from_slice(&0u64.to_le_bytes());
    assert_eq!(bytes, expected);
}

#[test]
fn parser_error_messages() {
    assert_eq!(
        assembly_failure("push r1 42"),
        "Toolchain Error: Parsing Error: Expected newline after instruction components at line 1, col 9"
    );
    assert_eq!(
        assembly_failure("push ,"),
        "Toolchain Error: Parsing Error: Expected register, literal integer, or label reference, found 'Comma' at line 1, col 6"
    );
    assert_eq!(
        assembly_failure("jmp x:"),
        "Toolchain Error: Parsing Error: Expected register, literal integer, or label reference, found 'LabelDef(\"x\")' at line 1, col 5"
    );
    assert_eq!(
        assembly_failure("42"),
        "Toolchain Error: Parsing Error: Unexpected token 'Integer(42)' at line 1, col 1"
    );
    assert_eq!(
        assembly_failure("\"a\tb\""),
        "Toolchain Error: Parsing Error: Unexpected token 'StringLiteral(\"a\\tb\")' at line 1, col 1"
    );
    assert_eq!(
        assembly_failure("a:\nb:\na:\n"),
        "Toolchain Error: Parsing Error: Duplicate label definition found: 'a'"
    );
}

#[test]
fn encoder_error_messages() {
    assert_eq!(
        assembly_failure("nop\nfoo"),
        "Toolchain Error: Encoding Error: Unknown opcode 'foo' at line 2, col 1"
    );
    assert_eq!(
        assembly_failure("pop r999"),
        "Toolchain Error: Encoding Error: Invalid register identifier 'r999' in instruction at line 1"
    );
    assert_eq!(
        assembly_failure("pop 5"),
        "Toolchain Error: Encoding Error: Expected register operand for opcode 'pop' at line 1"
    );
    assert_eq!(
        assembly_failure("push r1, r2"),
        "Toolchain Error: Encoding Error: Expected integer literal operand for opcode 'push' at line 1"
    );
    assert_eq!(
        assembly_failure("\n\njmp nowhere"),
        "Toolchain Error: Encoding Error: Undeclared label reference 'nowhere' found at line 3"
    );
    assert_eq!(
        assembly_failure("jz r1"),
        "Toolchain Error: Encoding Error: Invalid jump target for opcode 'jz' at line 1"
    );
}

#[test]
fn encoding_of_each_mnemonic() {
    let src = "NOP\nhalt\nadd\nsub\nmul\ndiv\nret\npop sp\npop pc\npush r15, -1\nload r3, 0x20\nstore r4, 7\njnz end\nend: jz 0\n";
    let mut expected = vec![0x00, 0xFF, 0x10, 0x11, 0x12, 0x13, 0x14, 0x20, 254, 0x20, 255];
    expected.extend_from_slice(&[0x21, 15]);
    expected.extend_from_slice(&(-1i64).to_le_bytes());
    expected.extend_from_slice(&[0x40, 3]);
    expected.extend_from_slice(&0x20u64.to_le_bytes());
    expected.extend_from_slice(&[0x41, 4]);
    expected.extend_from_slice(&7u64.to_le_bytes());
    // `end` is the offset of the last instruction: 11 + 10 + 10 + 10 + 9 = 50.
    expected.push(0x32);
    expected.extend_from_slice(&50u64.to_le_bytes());
    expected.push(0x31);
    expected.extend_from_slice(&0u64.to_le_bytes());
    assert_eq!(body(src), expected);
}

#[test]
fn forward_label_resolves_to_later_offset() {
    let mut expected = vec![0x30];
    expected.extend_from_slice(&10u64.to_le_bytes());
    expected.push(0x00);
    expected.push(0xFF);
    assert_eq!(body("jmp end\nnop\nend:\nhalt"), expected);
}

#[test]
fn missing_operand_is_reported_by_try_compile() {
    assert!(try_compile("push r1").is_none());
    assert!(try_compile("jmp").is_none());
    assert!(matches!(try_compile("nop"), Some(Ok(_))));
}

#[test]
fn parsing_again_continues_from_the_cursor() {
    let mut lexer = Lexer::new("nop");
    let mut tokens = Vec::new();
    loop {
        let t = lexer.next_token().unwrap();
        let eof = t.kind == TokenKind::EOF;
        tokens.push(t);
        if eof {
            break;
        }
    }
    let mut parser = Parser::new(tokens);
    assert_eq!(parser.parse().unwrap().instructions.len(), 1);
    let again = parser.parse().unwrap();
    assert!(again.instructions.is_empty());
    assert!(again.labels.is_empty());
}

#[test]
fn compiled_output_has_a_valid_header() {
    let bytes = compile("push r0, 1\nhalt").unwrap();
    assert_eq!(minivm::bytecode::verify_header(&bytes), Ok(6));
    assert_eq!(&bytes[..6], &[0x00, 0x6D, 0x56, 0x4D, 1, 0]);
}

#[test]
fn tokens_stand_at_their_source_text() {
    let src = "start:\n  push r1, 0x2A ; c\n\tjmp start\n";
    let mut lexer = Lexer::new(src);
    let mut end_of_previous = 0usize;
    loop {
        let t = lexer.next_token().unwrap();
        if t.kind == TokenKind::EOF {
            break;
        }
        // The token's text is found in the source at or after the previous token's end.
        let start = end_of_previous + src[end_of_previous..].find(t.lexeme).unwrap();
        let before = &src[..start];
        let line = 1 + before.matches('\n').count();
        let line_start = before.rfind('\n').map(|i| i + 1).unwrap_or(0);
        assert_eq!(t.loc, Location { line, column: start - line_start + 1 });
        assert!(!t.lexeme.is_empty());
        end_of_previous = start + t.lexeme.len();
    }
}

//! Encoder: lays out the parsed instructions, resolves labels to byte
//! offsets and emits the binary form of each instruction.

use vstd::prelude::*;
use vstd::bytes::{spec_u64_to_le_bytes, u64_to_le_bytes};
use crate::assembler::parser::{
    AssembledProgram, Operand, ParsedInstruction, SpecInstruction, SpecOperand, SpecProgram,
};
use crate::isa::Opcode;
use crate::text::{
    chars_eq, chars_of, dec_nat, push_dec_u64, push_str, spec_parse_u8, parse_u8_dec, str_eq,
};

verus! {

// ---------------------------------------------------------------------------
// Mnemonics
// ---------------------------------------------------------------------------

/// ASCII lower-casing of a character.
pub open spec fn lower(c: char) -> char {
    if 'A' <= c && c <= 'Z' {
        ((c as u32) + 32) as char
    } else {
        c
    }
}

/// ASCII lower-casing of a word. Mnemonics are ASCII, so a word lower-cases
/// to a mnemonic under Unicode rules exactly when it does under ASCII rules.
pub open spec fn ascii_lower(s: Seq<char>) -> Seq<char> {
    s.map_values(|c: char| lower(c))
}

/// The opcode a mnemonic names, case-insensitively.
pub open spec fn spec_mnemonic(s: Seq<char>) -> Option<Opcode> {
    let l = ascii_lower(s);
    if l == "halt"@ {
        Some(Opcode::Halt)
    } else if l == "nop"@ {
        Some(Opcode::Nop)
    } else if l == "add"@ {
        Some(Opcode::Add)
    } else if l == "sub"@ {
        Some(Opcode::Sub)
    } else if l == "mul"@ {
        Some(Opcode::Mul)
    } else if l == "div"@ {
        Some(Opcode::Div)
    } else if l == "ret"@ {
        Some(Opcode::Ret)
    } else if l == "pop"@ {
        Some(Opcode::Pop)
    } else if l == "jmp"@ {
        Some(Opcode::Jmp)
    } else if l == "jz"@ {
        Some(Opcode::Jz)
    } else if l == "jnz"@ {
        Some(Opcode::Jnz)
    } else if l == "push"@ {
        Some(Opcode::Push)
    } else if l == "load"@ {
        Some(Opcode::Load)
    } else if l == "store"@ {
        Some(Opcode::Store)
    } else {
        None
    }
}

/// Size in bytes of the binary form of an instruction with this opcode.
pub open spec fn size_of(op: Opcode) -> nat {
    1 + op.operand_len()
}

pub open spec fn line_text(inst: SpecInstruction) -> Seq<char> {
    " at line "@ + dec_nat(inst.loc.line as nat)
}

pub open spec fn msg_unknown_opcode(inst: SpecInstruction) -> Seq<char> {
    "Unknown opcode '"@ + inst.opcode + "' at line "@ + dec_nat(inst.loc.line as nat) + ", col "@
        + dec_nat(inst.loc.column as nat)
}

pub open spec fn msg_too_large() -> Seq<char> {
    "Program too large to encode"@
}

// ---------------------------------------------------------------------------
// Layout
// ---------------------------------------------------------------------------

/// Offsets of the instructions, followed by the total size; or the message
/// for the first instruction whose opcode is unknown.
pub open spec fn layout(insts: Seq<SpecInstruction>) -> std::result::Result<Seq<nat>, Seq<char>>
    decreases insts.len(),
{
    if insts.len() == 0 {
        Ok(seq![0nat])
    } else {
        match layout(insts.drop_last()) {
            Err(m) => Err(m),
            Ok(offs) => match spec_mnemonic(insts.last().opcode) {
                None => Err(msg_unknown_opcode(insts.last())),
                Some(op) => Ok(offs.push(offs.last() + size_of(op))),
            },
        }
    }
}

/// The byte offset a label name resolves to: the offset of the instruction
/// the first label of that name stands before (or the end of the program).
pub open spec fn label_address(
    labels: Seq<(Seq<char>, nat)>,
    offs: Seq<nat>,
    name: Seq<char>,
) -> Option<nat>
    decreases labels.len(),
{
    if labels.len() == 0 {
        None
    } else {
        match label_address(labels.drop_last(), offs, name) {
            Some(a) => Some(a),
            None => {
                let (n, idx) = labels.last();
                if n == name && idx < offs.len() {
                    Some(offs[idx as int])
                } else {
                    None
                }
            },
        }
    }
}

// ---------------------------------------------------------------------------
// Emission
// ---------------------------------------------------------------------------

/// The outcome of emitting part of a program.
pub enum Emit {
    /// The bytes emitted.
    Bytes(Seq<u8>),
    /// An encoding error with its message.
    Fail(Seq<char>),
    /// An operand the instruction needs is missing.
    Missing,
}

pub open spec fn emit_then(a: Emit, b: Emit) -> Emit {
    match a {
        Emit::Bytes(x) => match b {
            Emit::Bytes(y) => Emit::Bytes(x + y),
            other => other,
        },
        other => other,
    }
}

/// The register byte for an operand.
pub open spec fn emit_register(op: SpecOperand, inst: SpecInstruction) -> Emit {
    match op {
        SpecOperand::Register(r) => if r == "sp"@ {
            Emit::Bytes(seq![254u8])
        } else if r == "pc"@ {
            Emit::Bytes(seq![255u8])
        } else if r.len() > 0 && r[0] == 'r' {
            match spec_parse_u8(r.drop_first()) {
                Some(id) => Emit::Bytes(seq![id]),
                None => Emit::Fail(
                    "Invalid register identifier '"@ + r + "' in instruction"@ + line_text(inst),
                ),
            }
        } else {
            Emit::Fail("Expected valid register, got '"@ + r + "'"@ + line_text(inst))
        },
        _ => Emit::Fail(
            "Expected register operand for opcode '"@ + inst.opcode + "'"@ + line_text(inst),
        ),
    }
}

/// The eight little-endian bytes of an integer operand.
pub open spec fn emit_immediate(op: SpecOperand, inst: SpecInstruction) -> Emit {
    match op {
        SpecOperand::Integer(v) => Emit::Bytes(spec_u64_to_le_bytes(v as u64)),
        _ => Emit::Fail(
            "Expected integer literal operand for opcode '"@ + inst.opcode + "'"@ + line_text(inst),
        ),
    }
}

/// The eight little-endian bytes of a jump target: an integer, or a label's offset.
pub open spec fn emit_target(
    op: SpecOperand,
    inst: SpecInstruction,
    labels: Seq<(Seq<char>, nat)>,
    offs: Seq<nat>,
) -> Emit {
    match op {
        SpecOperand::Integer(v) => Emit::Bytes(spec_u64_to_le_bytes(v as u64)),
        SpecOperand::LabelRef(l) => match label_address(labels, offs, l) {
            Some(a) => Emit::Bytes(spec_u64_to_le_bytes(a as u64)),
            None => Emit::Fail(
                "Undeclared label reference '"@ + l + "' found"@ + line_text(inst),
            ),
        },
        _ => Emit::Fail(
            "Invalid jump target for opcode '"@ + inst.opcode + "'"@ + line_text(inst),
        ),
    }
}

/// The `k`-th operand, or `Missing` when there is none.
pub open spec fn operand_or_missing(inst: SpecInstruction, k: int, f: spec_fn(SpecOperand) -> Emit) -> Emit {
    if k < inst.operands.len() {
        f(inst.operands[k])
    } else {
        Emit::Missing
    }
}

/// Emitting one instruction whose opcode is `op`.
pub open spec fn emit_instruction(
    inst: SpecInstruction,
    op: Opcode,
    labels: Seq<(Seq<char>, nat)>,
    offs: Seq<nat>,
) -> Emit {
    let head = Emit::Bytes(seq![op.byte()]);
    let reg = |o: SpecOperand| emit_register(o, inst);
    let imm = |o: SpecOperand| emit_immediate(o, inst);
    let tgt = |o: SpecOperand| emit_target(o, inst, labels, offs);
    match op {
        Opcode::Pop => emit_then(head, operand_or_missing(inst, 0, reg)),
        Opcode::Push | Opcode::Load | Opcode::Store => emit_then(
            head,
            emit_then(operand_or_missing(inst, 0, reg), operand_or_missing(inst, 1, imm)),
        ),
        Opcode::Jmp | Opcode::Jz | Opcode::Jnz => emit_then(head, operand_or_missing(inst, 0, tgt)),
        _ => head,
    }
}

/// Emitting the first `k` instructions of a laid-out program.
pub open spec fn emit_prefix(prog: SpecProgram, offs: Seq<nat>, k: nat) -> Emit
    decreases k,
{
    if k == 0 {
        Emit::Bytes(Seq::empty())
    } else {
        let inst = prog.instructions[k - 1];
        emit_then(
            emit_prefix(prog, offs, (k - 1) as nat),
            match spec_mnemonic(inst.opcode) {
                Some(op) => emit_instruction(inst, op, prog.labels, offs),
                None => Emit::Fail(msg_unknown_opcode(inst)),
            },
        )
    }
}

/// What encoding the program gives.
pub open spec fn spec_encode(prog: SpecProgram) -> Emit {
    if prog.instructions.len() > usize::MAX / 10 {
        Emit::Fail(msg_too_large())
    } else {
        match layout(prog.instructions) {
            Err(m) => Emit::Fail(m),
            Ok(offs) => emit_prefix(prog, offs, prog.instructions.len()),
        }
    }
}

pub proof fn lemma_layout(insts: Seq<SpecInstruction>)
    ensures
        layout(insts) matches Ok(offs) ==> offs.len() == insts.len() + 1 && offs[0] == 0
            && forall|k: int| 0 <= k < insts.len() ==> #[trigger] offs[k + 1] == offs[k] + size_of(
            spec_mnemonic(insts[k].opcode)->Some_0,
        ) && spec_mnemonic(insts[k].opcode) is Some,
        layout(insts) matches Ok(offs) ==> offs.last() <= 10 * insts.len(),
    decreases insts.len(),
{
    if insts.len() > 0 {
        lemma_layout(insts.drop_last());
    }
}

// ---------------------------------------------------------------------------
// The encoder
// ---------------------------------------------------------------------------

pub struct Encoder {
    bytecode: Vec<u8>,
}

/// Why encoding stopped: an error with its message, or an operand that an
/// instruction needs and lacks.
enum EncodeFailure {
    Message(String),
    MissingOperand,
}

fn mnemonic_of(op: &str) -> (r: Option<Opcode>)
    ensures
        r == spec_mnemonic(op@),
{
    let cs = chars_of(op);
    let mut l: Vec<char> = Vec::new();
    let mut i: usize = 0;
    while i < cs.len()
        invariant
            cs@ == op@,
            i <= cs@.len(),
            l@ == ascii_lower(cs@.take(i as int)),
        decreases cs@.len() - i,
    {
        let c = cs[i];
        let lc = if 'A' <= c && c <= 'Z' {
            ((c as u32) + 32) as u8 as char
        } else {
            c
        };
        assert(lc == lower(c)) by {
            if 'A' <= c && c <= 'Z' {
                assert(((c as u32) + 32) < 128);
            }
        }
        l.push(lc);
        i = i + 1;
        assert(l@ =~= ascii_lower(cs@.take(i as int)));
    }
    assert(cs@.take(i as int) =~= cs@);
    if chars_eq(&l, &chars_of("halt")) {
        Some(Opcode::Halt)
    } else if chars_eq(&l, &chars_of("nop")) {
        Some(Opcode::Nop)
    } else if chars_eq(&l, &chars_of("add")) {
        Some(Opcode::Add)
    } else if chars_eq(&l, &chars_of("sub")) {
        Some(Opcode::Sub)
    } else if chars_eq(&l, &chars_of("mul")) {
        Some(Opcode::Mul)
    } else if chars_eq(&l, &chars_of("div")) {
        Some(Opcode::Div)
    } else if chars_eq(&l, &chars_of("ret")) {
        Some(Opcode::Ret)
    } else if chars_eq(&l, &chars_of("pop")) {
        Some(Opcode::Pop)
    } else if chars_eq(&l, &chars_of("jmp")) {
        Some(Opcode::Jmp)
    } else if chars_eq(&l, &chars_of("jz")) {
        Some(Opcode::Jz)
    } else if chars_eq(&l, &chars_of("jnz")) {
        Some(Opcode::Jnz)
    } else if chars_eq(&l, &chars_of("push")) {
        Some(Opcode::Push)
    } else if chars_eq(&l, &chars_of("load")) {
        Some(Opcode::Load)
    } else if chars_eq(&l, &chars_of("store")) {
        Some(Opcode::Store)
    } else {
        None
    }
}

fn opcode_byte(op: Opcode) -> (b: u8)
    ensures
        b == op.byte(),
{
    match op {
        Opcode::Nop => 0x00,
        Opcode::Halt => 0xFF,
        Opcode::Add => 0x10,
        Opcode::Sub => 0x11,
        Opcode::Mul => 0x12,
        Opcode::Div => 0x13,
        Opcode::Ret => 0x14,
        Opcode::Pop => 0x20,
        Opcode::Push => 0x21,
        Opcode::Jmp => 0x30,
        Opcode::Jz => 0x31,
        Opcode::Jnz => 0x32,
        Opcode::Load => 0x40,
        Opcode::Store => 0x41,
        Opcode::Syscall => 0x50,
    }
}

fn push_line(m: &mut String, inst: &ParsedInstruction)
    ensures
        final(m)@ == old(m)@ + line_text(inst@),
{
    push_str(m, " at line ");
    push_dec_u64(m, inst.loc.line as u64);
}

impl Encoder {
    /// The bytes emitted so far.
    pub closed spec fn emitted(&self) -> Seq<u8> {
        self.bytecode@
    }

    pub fn new() -> (e: Self)
        ensures
            e.emitted() == Seq::<u8>::empty(),
    {
        Self { bytecode: Vec::new() }
    }

    /// Encodes the program. Where an instruction lacks an operand it needs,
    /// encoding cannot proceed; such programs are outside the contract
    /// (`encode_checked` answers for them).
    pub fn encode(&mut self, program: &AssembledProgram) -> (r: std::result::Result<Vec<u8>, String>)
        requires
            !(spec_encode(program@) is Missing),
        ensures
            match spec_encode(program@) {
                Emit::Bytes(b) => r matches Ok(v) && v@ == b,
                Emit::Fail(m) => r matches Err(e) && e@ == m,
                Emit::Missing => false,
            },
    {
        match self.encode_program(program) {
            Ok(v) => Ok(v),
            Err(EncodeFailure::Message(m)) => Err(m),
            Err(EncodeFailure::MissingOperand) => Err(String::new()),
        }
    }

    /// Encodes the program, or gives `None` where an instruction lacks an
    /// operand it needs.
    pub fn encode_checked(&mut self, program: &AssembledProgram) -> (r: Option<
        std::result::Result<Vec<u8>, String>,
    >)
        ensures
            match spec_encode(program@) {
                Emit::Bytes(b) => r matches Some(Ok(v)) && v@ == b,
                Emit::Fail(m) => r matches Some(Err(e)) && e@ == m,
                Emit::Missing => r is None,
            },
    {
        match self.encode_program(program) {
            Ok(v) => Some(Ok(v)),
            Err(EncodeFailure::Message(m)) => Some(Err(m)),
            Err(EncodeFailure::MissingOperand) => None,
        }
    }

    fn encode_program(&mut self, program: &AssembledProgram) -> (r: std::result::Result<
        Vec<u8>,
        EncodeFailure,
    >)
        ensures
            match spec_encode(program@) {
                Emit::Bytes(b) => r matches Ok(v) && v@ == b,
                Emit::Fail(m) => r matches Err(EncodeFailure::Message(e)) && e@ == m,
                Emit::Missing => r matches Err(EncodeFailure::MissingOperand),
            },
    {
        self.bytecode.clear();
        let n = program.instructions.len();
        if n > usize::MAX / 10 {
            return Err(EncodeFailure::Message(String::from_str("Program too large to encode")));
        }
        let ghost prog = program@;
        // First pass: offsets of the instructions, then the total size.
        let mut instruction_offsets: Vec<usize> = Vec::new();
        let mut current_offset: usize = 0;
        let mut idx: usize = 0;
        while idx < n
            invariant
                n == program.instructions@.len(),
                prog == program@,
                n <= usize::MAX / 10,
                idx <= n,
                layout(prog.instructions.take(idx as int)) matches Ok(offs) && offs
                    == instruction_offsets@.map_values(|o: usize| o as nat).push(current_offset as nat),
                current_offset <= 10 * idx,
            decreases n - idx,
        {
            let inst = &program.instructions[idx];
            let ghost sinst = prog.instructions[idx as int];
            assert(prog.instructions.take(idx + 1).drop_last() =~= prog.instructions.take(idx as int));
            assert(prog.instructions.take(idx + 1).last() == sinst);
            instruction_offsets.push(current_offset);
            let size = match self.calculate_instruction_size(inst) {
                Ok(size) => size,
                Err(m) => {
                    proof {
                        lemma_layout_prefix_err(prog.instructions, (idx + 1) as nat);
                    }
                    return Err(EncodeFailure::Message(m));
                },
            };
            let ghost prev = layout(prog.instructions.take(idx as int))->Ok_0;
            current_offset = current_offset + size;
            idx = idx + 1;
            assert(instruction_offsets@.map_values(|o: usize| o as nat).push(current_offset as nat)
                =~= prev.push(current_offset as nat));
        }
        let ghost before = instruction_offsets@.map_values(|o: usize| o as nat);
        assert(prog.instructions.take(n as int) =~= prog.instructions);
        proof {
            lemma_layout(prog.instructions);
        }
        instruction_offsets.push(current_offset);
        let ghost offs = instruction_offsets@.map_values(|o: usize| o as nat);
        assert(offs =~= before.push(current_offset as nat));
        assert(layout(prog.instructions) == Ok::<Seq<nat>, Seq<char>>(offs));
        // Second pass: emit every instruction.
        let mut k: usize = 0;
        while k < n
            invariant
                n == program.instructions@.len(),
                prog == program@,
                k <= n,
                instruction_offsets@.len() == n + 1,
                offs == instruction_offsets@.map_values(|o: usize| o as nat),
                layout(prog.instructions) == Ok::<Seq<nat>, Seq<char>>(offs),
                spec_encode(prog) == emit_prefix(prog, offs, n as nat),
                emit_prefix(prog, offs, k as nat) == Emit::Bytes(self.bytecode@),
            decreases n - k,
        {
            let inst = &program.instructions[k];
            match self.encode_instruction(inst, program, &instruction_offsets) {
                Ok(()) => {},
                Err(f) => {
                    proof {
                        lemma_emit_prefix_stops(prog, offs, (k + 1) as nat, n as nat);
                    }
                    return Err(f);
                },
            }
            k = k + 1;
        }
        Ok(self.bytecode.clone())
    }

    /// Size in bytes of the binary form of an instruction, from its mnemonic.
    fn calculate_instruction_size(&self, inst: &ParsedInstruction) -> (r: std::result::Result<
        usize,
        String,
    >)
        ensures
            match spec_mnemonic(inst@.opcode) {
                Some(op) => r == Ok::<usize, String>(size_of(op) as usize) && size_of(op) <= 10,
                None => r matches Err(m) && m@ == msg_unknown_opcode(inst@),
            },
    {
        match mnemonic_of(inst.opcode) {
            Some(op) => match op {
                Opcode::Pop | Opcode::Syscall => Ok(2),
                Opcode::Jmp | Opcode::Jz | Opcode::Jnz => Ok(9),
                Opcode::Push | Opcode::Load | Opcode::Store => Ok(10),
                _ => Ok(1),
            },
            None => {
                let mut m = String::from_str("Unknown opcode '");
                push_str(&mut m, inst.opcode);
                push_str(&mut m, "' at line ");
                push_dec_u64(&mut m, inst.loc.line as u64);
                push_str(&mut m, ", col ");
                push_dec_u64(&mut m, inst.loc.column as u64);
                assert(m@ =~= msg_unknown_opcode(inst@));
                Err(m)
            },
        }
    }

    /// Emits one instruction after the bytes already emitted.
    fn encode_instruction(
        &mut self,
        inst: &ParsedInstruction,
        program: &AssembledProgram,
        offsets: &Vec<usize>,
    ) -> (r: std::result::Result<(), EncodeFailure>)
        ensures
            match (match spec_mnemonic(inst@.opcode) {
                Some(op) => emit_instruction(
                    inst@,
                    op,
                    program@.labels,
                    offsets@.map_values(|o: usize| o as nat),
                ),
                None => Emit::Fail(msg_unknown_opcode(inst@)),
            }) {
                Emit::Bytes(b) => r is Ok && final(self).bytecode@ == old(self).bytecode@ + b,
                Emit::Fail(m) => r matches Err(EncodeFailure::Message(e)) && e@ == m,
                Emit::Missing => r matches Err(EncodeFailure::MissingOperand),
            },
    {
        let op = match mnemonic_of(inst.opcode) {
            Some(op) => op,
            None => {
                let mut m = String::from_str("Unknown opcode '");
                push_str(&mut m, inst.opcode);
                push_str(&mut m, "' at line ");
                push_dec_u64(&mut m, inst.loc.line as u64);
                push_str(&mut m, ", col ");
                push_dec_u64(&mut m, inst.loc.column as u64);
                assert(m@ =~= msg_unknown_opcode(inst@));
                return Err(EncodeFailure::Message(m));
            },
        };
        let ghost b0 = self.bytecode@;
        self.bytecode.push(opcode_byte(op));
        match op {
            Opcode::Pop => {
                if inst.operands.len() < 1 {
                    return Err(EncodeFailure::MissingOperand);
                }
                if let Err(m) = self.encode_register(&inst.operands[0], inst) {
                    return Err(EncodeFailure::Message(m));
                }
            },
            Opcode::Push | Opcode::Load | Opcode::Store => {
                if inst.operands.len() < 1 {
                    return Err(EncodeFailure::MissingOperand);
                }
                if let Err(m) = self.encode_register(&inst.operands[0], inst) {
                    return Err(EncodeFailure::Message(m));
                }
                if inst.operands.len() < 2 {
                    return Err(EncodeFailure::MissingOperand);
                }
                if let Err(m) = self.encode_immediate(&inst.operands[1], inst) {
                    return Err(EncodeFailure::Message(m));
                }
            },
            Opcode::Jmp | Opcode::Jz | Opcode::Jnz => {
                if inst.operands.len() < 1 {
                    return Err(EncodeFailure::MissingOperand);
                }
                if let Err(m) = self.encode_jump_target(&inst.operands[0], program, offsets, inst) {
                    return Err(EncodeFailure::Message(m));
                }
            },
            _ => {},
        }
        assert(self.bytecode@ =~= b0 + (self.bytecode@.subrange(b0.len() as int, self.bytecode@.len() as int)));
        Ok(())
    }

    fn encode_register(&mut self, operand: &Operand, inst: &ParsedInstruction) -> (r: std::result::Result<
        (),
        String,
    >)
        ensures
            match emit_register(operand@, inst@) {
                Emit::Bytes(b) => r is Ok && final(self).bytecode@ == old(self).bytecode@ + b,
                Emit::Fail(m) => r matches Err(e) && e@ == m,
                Emit::Missing => false,
            },
    {
        if let Operand::Register(reg_str) = operand {
            let reg_id: u8 = if str_eq(reg_str, "sp") {
                254
            } else if str_eq(reg_str, "pc") {
                255
            } else {
                let cs = chars_of(reg_str);
                if cs.len() > 0 && cs[0] == 'r' {
                    match parse_u8_dec(&cs, 1, cs.len()) {
                        Some(id) => {
                            assert(cs@.subrange(1, cs@.len() as int) =~= cs@.drop_first());
                            id
                        },
                        None => {
                            assert(cs@.subrange(1, cs@.len() as int) =~= cs@.drop_first());
                            let mut m = String::from_str("Invalid register identifier '");
                            push_str(&mut m, reg_str);
                            push_str(&mut m, "' in instruction");
                            push_line(&mut m, inst);
                            return Err(m);
                        },
                    }
                } else {
                    let mut m = String::from_str("Expected valid register, got '");
                    push_str(&mut m, reg_str);
                    push_str(&mut m, "'");
                    push_line(&mut m, inst);
                    return Err(m);
                }
            };
            self.bytecode.push(reg_id);
            Ok(())
        } else {
            let mut m = String::from_str("Expected register operand for opcode '");
            push_str(&mut m, inst.opcode);
            push_str(&mut m, "'");
            push_line(&mut m, inst);
            Err(m)
        }
    }

    fn encode_immediate(&mut self, operand: &Operand, inst: &ParsedInstruction) -> (r: std::result::Result<
        (),
        String,
    >)
        ensures
            match emit_immediate(operand@, inst@) {
                Emit::Bytes(b) => r is Ok && final(self).bytecode@ == old(self).bytecode@ + b,
                Emit::Fail(m) => r matches Err(e) && e@ == m,
                Emit::Missing => false,
            },
    {
        if let Operand::Integer(val) = operand {
            let bytes = u64_to_le_bytes(*val as u64);
            self.bytecode.extend_from_slice(bytes.as_slice());
            Ok(())
        } else {
            let mut m = String::from_str("Expected integer literal operand for opcode '");
            push_str(&mut m, inst.opcode);
            push_str(&mut m, "'");
            push_line(&mut m, inst);
            Err(m)
        }
    }

    fn encode_jump_target(
        &mut self,
        operand: &Operand,
        program: &AssembledProgram,
        offsets: &Vec<usize>,
        inst: &ParsedInstruction,
    ) -> (r: std::result::Result<(), String>)
        ensures
            match emit_target(
                operand@,
                inst@,
                program@.labels,
                offsets@.map_values(|o: usize| o as nat),
            ) {
                Emit::Bytes(b) => r is Ok && final(self).bytecode@ == old(self).bytecode@ + b,
                Emit::Fail(m) => r matches Err(e) && e@ == m,
                Emit::Missing => false,
            },
    {
        let target_absolute_address: u64 = match operand {
            Operand::Integer(val) => *val as u64,
            Operand::LabelRef(label_name) => match label_offset(program, offsets, label_name) {
                Some(a) => a as u64,
                None => {
                    let mut m = String::from_str("Undeclared label reference '");
                    push_str(&mut m, label_name);
                    push_str(&mut m, "' found");
                    push_line(&mut m, inst);
                    return Err(m);
                },
            },
            Operand::Register(_) => {
                let mut m = String::from_str("Invalid jump target for opcode '");
                push_str(&mut m, inst.opcode);
                push_str(&mut m, "'");
                push_line(&mut m, inst);
                return Err(m);
            },
        };
        let bytes = u64_to_le_bytes(target_absolute_address);
        self.bytecode.extend_from_slice(bytes.as_slice());
        Ok(())
    }
}

/// The offset a label name resolves to.
fn label_offset(program: &AssembledProgram, offsets: &Vec<usize>, name: &str) -> (r: Option<usize>)
    ensures
        match label_address(program@.labels, offsets@.map_values(|o: usize| o as nat), name@) {
            Some(a) => r matches Some(x) && x as nat == a,
            None => r is None,
        },
{
    let ghost offs = offsets@.map_values(|o: usize| o as nat);
    let mut i: usize = 0;
    while i < program.labels.len()
        invariant
            i <= program.labels@.len(),
            offs == offsets@.map_values(|o: usize| o as nat),
            label_address(program@.labels.take(i as int), offs, name@) is None,
        decreases program.labels@.len() - i,
    {
        let (n, idx) = program.labels[i];
        assert(program@.labels.take(i + 1).drop_last() =~= program@.labels.take(i as int));
        if idx < offsets.len() && str_eq(n, name) {
            proof {
                lemma_label_address_prefix(program@.labels, offs, name@, (i + 1) as nat);
            }
            return Some(offsets[idx]);
        }
        i = i + 1;
    }
    assert(program@.labels.take(i as int) =~= program@.labels);
    None
}

proof fn lemma_label_address_prefix(
    labels: Seq<(Seq<char>, nat)>,
    offs: Seq<nat>,
    name: Seq<char>,
    k: nat,
)
    requires
        k <= labels.len(),
        label_address(labels.take(k as int), offs, name) is Some,
    ensures
        label_address(labels, offs, name) == label_address(labels.take(k as int), offs, name),
    decreases labels.len() - k,
{
    if k < labels.len() {
        assert(labels.take((k + 1) as int).drop_last() =~= labels.take(k as int));
        lemma_label_address_prefix(labels, offs, name, k + 1);
    } else {
        assert(labels.take(k as int) =~= labels);
    }
}

proof fn lemma_layout_prefix_err(insts: Seq<SpecInstruction>, k: nat)
    requires
        k <= insts.len(),
        layout(insts.take(k as int)) is Err,
    ensures
        layout(insts) == layout(insts.take(k as int)),
    decreases insts.len() - k,
{
    if k < insts.len() {
        assert(insts.take((k + 1) as int).drop_last() =~= insts.take(k as int));
        lemma_layout_prefix_err(insts, k + 1);
    } else {
        assert(insts.take(k as int) =~= insts);
    }
}

proof fn lemma_emit_prefix_stops(prog: SpecProgram, offs: Seq<nat>, k: nat, n: nat)
    requires
        k <= n,
        !(emit_prefix(prog, offs, k) is Bytes),
    ensures
        emit_prefix(prog, offs, n) == emit_prefix(prog, offs, k),
    decreases n - k,
{
    if k < n {
        lemma_emit_prefix_stops(prog, offs, k + 1, n);
    }
}

} // verus!

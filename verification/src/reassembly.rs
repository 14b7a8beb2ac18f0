//! Reassembling a disassembly: the listing the disassembler prints reads
//! back, through the assembler, to the instruction bytes it lists.
//!
//! The proof follows the assembler's stages. The listing is described as a
//! sequence of text pieces (words, numbers, punctuation, spaces); the
//! lexer turns pieces into tokens one by one; the parser turns each line's
//! tokens into one instruction and one label; the encoder lays the
//! instructions out at the offsets the listing shows and emits their bytes.

use vstd::prelude::*;
use vstd::bytes::{lemma_auto_spec_u64_to_from_le_bytes, spec_u64_to_le_bytes};
use crate::assembler::encoder::{
    ascii_lower, emit_immediate, emit_instruction, emit_prefix, emit_register, emit_target,
    emit_then, label_address, layout, lemma_layout, lower, operand_or_missing, size_of,
    spec_encode, spec_mnemonic, Emit,
};
use crate::assembler::lexer::{
    is_blank, is_ident_char, is_register_name, line_end, scan_digits, scan_hex, scan_ident,
    skip_trivia, spec_next_token, LexState, LexStep, SpecToken, SpecTokenKind,
};
use crate::assembler::parser::{
    at_end, check, label_defined, parse_from, parse_operand, parse_operands, spec_parse,
    SpecInstruction, SpecOperand, SpecProgram,
};
use crate::assembler::{lemma_next_token_advances, lex_all, lex_start, prepend, spec_compile};
use crate::bytecode::header_bytes;
use crate::disassembler::printer::{instruction_text, register_text};
use crate::disassembler::{banner, listing_from, listing_line, spec_disassemble};
use crate::isa::{law_opcode_byte_roundtrip, Instruction, Opcode};
use crate::text::{
    dec_int, dec_nat, hex_nat, hex_padded, hex_value, is_ascii_alpha, is_dec_digit, is_hex_digit,
    lemma_dec_int_parses_back, lemma_dec_nat_reads_back, lemma_dec_u8_parses_back,
    lemma_hex_padded_reads_back, lemma_hex_parses_back,
};
use crate::vm::decoder::{decode_at, instruction_from, law_decoding_reads_encoding, DecodeStep};
use vstd::bytes::spec_u64_from_le_bytes;

verus! {

// ---------------------------------------------------------------------------
// Text pieces
// ---------------------------------------------------------------------------

/// A piece of assembly text.
pub enum Piece {
    /// One space.
    Space,
    /// A `;` comment with this text after the `;` (no newline in it).
    Comment(Seq<char>),
    /// An identifier: a mnemonic or a register name.
    Word(Seq<char>),
    /// `0x` and the value in upper-case hexadecimal, zero-padded to a width.
    Hex(nat, nat),
    /// A decimal integer.
    Dec(i64),
    /// A label definition: `0x`, the offset in four or more hexadecimal digits, `:`.
    Label(nat),
    Comma,
    NewLine,
}

/// The name a listing gives to the line at an offset.
pub open spec fn offset_label(off: nat) -> Seq<char> {
    seq!['0', 'x'] + hex_padded(off, 4)
}

pub open spec fn piece_text(p: Piece) -> Seq<char> {
    match p {
        Piece::Space => seq![' '],
        Piece::Comment(c) => seq![';'] + c,
        Piece::Word(w) => w,
        Piece::Hex(n, w) => seq!['0', 'x'] + hex_padded(n, w),
        Piece::Dec(v) => dec_int(v as int),
        Piece::Label(off) => offset_label(off) + seq![':'],
        Piece::Comma => seq![','],
        Piece::NewLine => seq!['\n'],
    }
}

/// The token kinds the lexer makes of a piece.
pub open spec fn piece_kinds(p: Piece) -> Seq<SpecTokenKind> {
    match p {
        Piece::Space => Seq::empty(),
        Piece::Comment(_) => Seq::empty(),
        Piece::Word(w) => seq![
            if is_register_name(w) {
                SpecTokenKind::Register(w)
            } else {
                SpecTokenKind::Instruction(w)
            },
        ],
        Piece::Hex(n, _) => seq![SpecTokenKind::HexInteger(n as i64)],
        Piece::Dec(v) => seq![SpecTokenKind::Integer(v)],
        Piece::Label(off) => seq![SpecTokenKind::LabelDef(offset_label(off))],
        Piece::Comma => seq![SpecTokenKind::Comma],
        Piece::NewLine => seq![SpecTokenKind::NewLine],
    }
}

pub open spec fn piece_ok(p: Piece) -> bool {
    match p {
        Piece::Comment(c) => forall|i: int| 0 <= i < c.len() ==> #[trigger] c[i] != '\n',
        Piece::Word(w) => w.len() > 0 && is_ascii_alpha(w[0]) && forall|i: int|
            0 <= i < w.len() ==> is_ident_char(#[trigger] w[i]),
        Piece::Hex(n, _) => n <= 0x7FFF_FFFF_FFFF_FFFF,
        _ => true,
    }
}

/// The piece ends in a scanned run of characters, so what follows must end the run.
pub open spec fn needs_separator(p: Piece) -> bool {
    p is Word || p is Hex || p is Dec
}

pub open spec fn is_separator(p: Piece) -> bool {
    p is Space || p is Comma || p is NewLine
}

pub open spec fn pieces_ok(ps: Seq<Piece>) -> bool
    decreases ps.len(),
{
    if ps.len() == 0 {
        true
    } else {
        &&& piece_ok(ps[0])
        &&& needs_separator(ps[0]) ==> ps.len() > 1 && is_separator(ps[1])
        &&& ps[0] is Comment ==> ps.len() > 1 && ps[1] is NewLine
        &&& pieces_ok(ps.drop_first())
    }
}

pub open spec fn pieces_text(ps: Seq<Piece>) -> Seq<char>
    decreases ps.len(),
{
    if ps.len() == 0 {
        Seq::empty()
    } else {
        piece_text(ps[0]) + pieces_text(ps.drop_first())
    }
}

pub open spec fn pieces_kinds(ps: Seq<Piece>) -> Seq<SpecTokenKind>
    decreases ps.len(),
{
    if ps.len() == 0 {
        Seq::empty()
    } else {
        piece_kinds(ps[0]) + pieces_kinds(ps.drop_first())
    }
}

pub open spec fn kinds_of(ts: Seq<SpecToken>) -> Seq<SpecTokenKind> {
    ts.map_values(|t: SpecToken| t.kind)
}

// ---------------------------------------------------------------------------
// Scanners over known text
// ---------------------------------------------------------------------------

proof fn lemma_scan_ident_to(s: Seq<char>, p: nat, q: nat)
    requires
        p <= q <= s.len(),
        forall|i: int| p <= i < q ==> is_ident_char(#[trigger] s[i]),
        q == s.len() || !is_ident_char(s[q as int]),
    ensures
        scan_ident(s, p) == q,
    decreases q - p,
{
    if p < q {
        lemma_scan_ident_to(s, p + 1, q);
    }
}

proof fn lemma_scan_hex_to(s: Seq<char>, p: nat, q: nat)
    requires
        p <= q <= s.len(),
        forall|i: int| p <= i < q ==> is_hex_digit(#[trigger] s[i]),
        q == s.len() || !is_hex_digit(s[q as int]),
    ensures
        scan_hex(s, p) == q,
    decreases q - p,
{
    if p < q {
        lemma_scan_hex_to(s, p + 1, q);
    }
}

proof fn lemma_scan_digits_to(s: Seq<char>, p: nat, q: nat)
    requires
        p <= q <= s.len(),
        forall|i: int| p <= i < q ==> is_dec_digit(#[trigger] s[i]),
        q == s.len() || !is_dec_digit(s[q as int]),
    ensures
        scan_digits(s, p) == q,
    decreases q - p,
{
    if p < q {
        lemma_scan_digits_to(s, p + 1, q);
    }
}

proof fn lemma_line_end_to(s: Seq<char>, p: nat, q: nat)
    requires
        p <= q < s.len(),
        forall|i: int| p <= i < q ==> #[trigger] s[i] != '\n',
        s[q as int] == '\n',
    ensures
        line_end(s, p) == q,
    decreases q - p,
{
    if p < q {
        lemma_line_end_to(s, p + 1, q);
    }
}

// ---------------------------------------------------------------------------
// The lexer over pieces
// ---------------------------------------------------------------------------

/// Starting the lexer anywhere in a run it skips anyway yields the same tokens.
proof fn lemma_lex_all_from_skipped(s: Seq<char>, st: LexState, q: nat)
    requires
        st.pos <= q <= s.len(),
        skip_trivia(s, st.pos) == skip_trivia(s, q),
    ensures
        lex_all(s, st) == lex_all(s, LexState { pos: q, ..st }),
{
    let st1 = LexState { pos: q, ..st };
    assert(spec_next_token(s, st) == spec_next_token(s, st1));
    lemma_next_token_advances(s, st1);
}

/// The text at the lexer's position is the piece's text, followed by a
/// separator where the piece needs one.
pub open spec fn at_piece(s: Seq<char>, st: LexState, pc: Piece) -> bool {
    let p = st.pos as int;
    let q = p + piece_text(pc).len();
    &&& q <= s.len()
    &&& s.subrange(p, q) == piece_text(pc)
    &&& needs_separator(pc) ==> q < s.len() && (s[q] == ' ' || s[q] == ',' || s[q] == '\n')
}

/// The token a piece yields, when the lexer is at the start of that piece.
pub open spec fn yields(s: Seq<char>, st: LexState, pc: Piece) -> bool {
    &&& spec_next_token(s, st).0 matches LexStep::Token(t) && seq![t.kind] == piece_kinds(pc)
    &&& spec_next_token(s, st).1.pos == st.pos + piece_text(pc).len()
}

proof fn lemma_text_at(s: Seq<char>, st: LexState, pc: Piece)
    requires
        at_piece(s, st, pc),
    ensures
        forall|i: int|
            0 <= i < piece_text(pc).len() ==> s[st.pos + i] == #[trigger] piece_text(pc)[i],
{
    let p = st.pos as int;
    let text = piece_text(pc);
    let q = p + text.len();
    assert forall|i: int| 0 <= i < text.len() implies s[p + i] == #[trigger] text[i] by {
        assert(s.subrange(p, q)[i] == s[p + i]);
    }
}

proof fn lemma_word_token(s: Seq<char>, st: LexState, w: Seq<char>)
    requires
        piece_ok(Piece::Word(w)),
        at_piece(s, st, Piece::Word(w)),
    ensures
        yields(s, st, Piece::Word(w)),
{
    lemma_text_at(s, st, Piece::Word(w));
    let p = st.pos as int;
    let q = p + w.len();
    assert(s[p] == w[0]);
    assert(!is_blank(s[p]) && s[p] != ';');
    assert(skip_trivia(s, p as nat) == p);
    assert forall|i: int| p + 1 <= i < q implies is_ident_char(#[trigger] s[i]) by {
        assert(s[p + (i - p)] == w[i - p]);
    }
    lemma_scan_ident_to(s, (p + 1) as nat, q as nat);
}

proof fn lemma_hex_token(s: Seq<char>, st: LexState, n: nat, width: nat)
    requires
        piece_ok(Piece::Hex(n, width)),
        at_piece(s, st, Piece::Hex(n, width)),
    ensures
        yields(s, st, Piece::Hex(n, width)),
{
    let pc = Piece::Hex(n, width);
    lemma_text_at(s, st, pc);
    let p = st.pos as int;
    let text = piece_text(pc);
    let q = p + text.len();
    let d = hex_padded(n, width);
    lemma_hex_padded_reads_back(n, width);
    lemma_hex_parses_back(n, width);
    assert(text[0] == '0');
    assert(s[p] == '0');
    assert(skip_trivia(s, p as nat) == p);
    assert(text[1] == 'x');
    assert(s[p + 1] == 'x');
    assert forall|i: int| p + 2 <= i < q implies is_hex_digit(#[trigger] s[i]) by {
        assert(s[p + (i - p)] == text[i - p]);
        assert(text[i - p] == d[i - p - 2]);
    }
    lemma_scan_hex_to(s, (p + 2) as nat, q as nat);
    assert(s.subrange(p + 2, q) =~= d) by {
        assert forall|i: int| 0 <= i < d.len() implies s.subrange(p + 2, q)[i] == d[i] by {
            assert(s[p + (2 + i)] == text[2 + i]);
        }
    }
}

proof fn lemma_label_token(s: Seq<char>, st: LexState, off: nat)
    requires
        at_piece(s, st, Piece::Label(off)),
    ensures
        yields(s, st, Piece::Label(off)),
{
    let pc = Piece::Label(off);
    lemma_text_at(s, st, pc);
    let p = st.pos as int;
    let text = piece_text(pc);
    let q = p + text.len();
    let d = hex_padded(off, 4);
    lemma_hex_padded_reads_back(off, 4);
    assert(text[0] == '0');
    assert(s[p] == '0');
    assert(skip_trivia(s, p as nat) == p);
    assert(text[1] == 'x');
    assert(s[p + 1] == 'x');
    assert forall|i: int| p + 2 <= i < q - 1 implies is_hex_digit(#[trigger] s[i]) by {
        assert(s[p + (i - p)] == text[i - p]);
        assert(text[i - p] == d[i - p - 2]);
    }
    assert(text[text.len() - 1] == ':');
    assert(s[p + (text.len() - 1)] == ':');
    lemma_scan_hex_to(s, (p + 2) as nat, (q - 1) as nat);
    assert(s.subrange(p, q - 1) =~= offset_label(off)) by {
        assert forall|i: int| 0 <= i < q - 1 - p implies s.subrange(p, q - 1)[i]
            == offset_label(off)[i] by {
            assert(s[p + i] == text[i]);
        }
    }
    assert(s.subrange(p, q) =~= text) by {
        assert forall|i: int| 0 <= i < q - p implies s.subrange(p, q)[i] == text[i] by {
            assert(s[p + i] == text[i]);
        }
    }
}

proof fn lemma_dec_token(s: Seq<char>, st: LexState, v: i64)
    requires
        at_piece(s, st, Piece::Dec(v)),
    ensures
        yields(s, st, Piece::Dec(v)),
{
    let pc = Piece::Dec(v);
    lemma_text_at(s, st, pc);
    let p = st.pos as int;
    let text = piece_text(pc);
    let q = p + text.len();
    let m: nat = if v < 0 { (-(v as int)) as nat } else { v as nat };
    lemma_dec_nat_reads_back(m);
    lemma_dec_int_parses_back(v);
    let digits = dec_nat(m);
    let start: int = if v < 0 { p + 1 } else { p };
    assert(text == if v < 0 { seq!['-'] + digits } else { digits });
    assert forall|i: int| start <= i < q implies is_dec_digit(#[trigger] s[i]) by {
        assert(s[p + (i - p)] == text[i - p]);
        if v < 0 {
            assert(text[i - p] == digits[i - p - 1]);
        } else {
            assert(text[i - p] == digits[i - p]);
        }
    }
    assert(is_dec_digit(s[start]));
    assert(s[p] == text[0]);
    assert(skip_trivia(s, p as nat) == p);
    // The character after the first is a digit or the separator, never `x`.
    assert(s[p + 1] != 'x');
    lemma_scan_digits_to(s, (p + 1) as nat, q as nat);
    assert(s.subrange(p, q) =~= text);
}

/// The token a piece starts with, when the lexer is at the start of that piece.
proof fn lemma_piece_token(s: Seq<char>, st: LexState, pc: Piece)
    requires
        piece_ok(pc),
        !(pc is Space),
        !(pc is Comment),
        at_piece(s, st, pc),
    ensures
        yields(s, st, pc),
{
    match pc {
        Piece::Word(w) => lemma_word_token(s, st, w),
        Piece::Hex(n, width) => lemma_hex_token(s, st, n, width),
        Piece::Label(off) => lemma_label_token(s, st, off),
        Piece::Dec(v) => lemma_dec_token(s, st, v),
        _ => {
            lemma_text_at(s, st, pc);
            assert(piece_text(pc)[0] == s[st.pos as int]);
            assert(skip_trivia(s, st.pos) == st.pos);
        },
    }
}

/// Lexing text made of well-formed pieces gives the pieces' token kinds, then end of file.
pub proof fn lemma_lex_pieces(s: Seq<char>, st: LexState, ps: Seq<Piece>) -> (ts: Seq<SpecToken>)
    requires
        pieces_ok(ps),
        st.pos <= s.len(),
        s.subrange(st.pos as int, s.len() as int) == pieces_text(ps),
    ensures
        lex_all(s, st) == Ok::<Seq<SpecToken>, Seq<char>>(ts),
        kinds_of(ts) == pieces_kinds(ps).push(SpecTokenKind::EOF),
    decreases ps.len(),
{
    let p: int = st.pos as int;
    if ps.len() == 0 {
        assert(s.subrange(p, s.len() as int).len() == 0);
        assert(skip_trivia(s, p as nat) == p);
        let (step, st2) = spec_next_token(s, st);
        let t = step->Token_0;
        assert(kinds_of(seq![t]) =~= pieces_kinds(ps).push(SpecTokenKind::EOF));
        seq![t]
    } else {
        let pc = ps[0];
        let rest = ps.drop_first();
        let text = piece_text(pc);
        assert(pieces_text(ps) == text + pieces_text(rest));
        let q: int = p + text.len();
        let whole = s.subrange(p, s.len() as int);
        assert(whole == text + pieces_text(rest));
        assert(q <= s.len());
        assert forall|i: int| 0 <= i < s.len() - p implies s[p + i] == #[trigger] whole[i] by {}
        assert(s.subrange(p, q) =~= text) by {
            assert forall|i: int| 0 <= i < text.len() implies s.subrange(p, q)[i] == text[i] by {
                assert(whole[i] == text[i]);
            }
        }
        assert(s.subrange(q, s.len() as int) =~= pieces_text(rest)) by {
            assert forall|i: int| 0 <= i < s.len() - q implies s.subrange(q, s.len() as int)[i]
                == pieces_text(rest)[i] by {
                assert(whole[text.len() + i] == pieces_text(rest)[i]);
            }
        }
        if pc is Space {
            assert(whole[0] == text[0]);
            assert(s[p] == ' ');
            assert(skip_trivia(s, p as nat) == skip_trivia(s, q as nat));
            lemma_lex_all_from_skipped(s, st, q as nat);
            let ts = lemma_lex_pieces(s, LexState { pos: q as nat, ..st }, rest);
            assert(pieces_kinds(ps) =~= pieces_kinds(rest));
            ts
        } else if pc is Comment {
            let c = pc->Comment_0;
            assert(rest[0] is NewLine);
            assert(pieces_text(rest) == seq!['\n'] + pieces_text(rest.drop_first()));
            assert(s[q] == pieces_text(rest)[0]);
            assert forall|i: int| p <= i < q implies #[trigger] s[i] != '\n' by {
                assert(s[i] == s.subrange(p, q)[i - p]);
                if i > p {
                    assert(text[i - p] == c[i - p - 1]);
                }
            }
            assert(whole[0] == text[0]);
            assert(s[p] == ';');
            lemma_line_end_to(s, p as nat, q as nat);
            assert(skip_trivia(s, q as nat) == q);
            lemma_lex_all_from_skipped(s, st, q as nat);
            let ts = lemma_lex_pieces(s, LexState { pos: q as nat, ..st }, rest);
            assert(pieces_kinds(ps) =~= pieces_kinds(rest));
            ts
        } else {
            if needs_separator(pc) {
                let next = rest[0];
                assert(pieces_text(rest) == piece_text(next) + pieces_text(rest.drop_first()));
                assert(s[q] == pieces_text(rest)[0]);
                assert(s[q] == ' ' || s[q] == ',' || s[q] == '\n');
            }
            lemma_piece_token(s, st, pc);
            lemma_next_token_advances(s, st);
            let (step, st2) = spec_next_token(s, st);
            let t = step->Token_0;
            assert(!(t.kind is EOF)) by {
                assert(seq![t.kind][0] == piece_kinds(pc)[0]);
            }
            let ts = lemma_lex_pieces(s, st2, rest);
            assert(lex_all(s, st) == prepend(seq![t], lex_all(s, st2)));
            assert(kinds_of(seq![t] + ts) =~= seq![t.kind] + kinds_of(ts));
            assert(pieces_kinds(ps) == piece_kinds(pc) + pieces_kinds(rest));
            assert(seq![t.kind] + pieces_kinds(rest).push(SpecTokenKind::EOF) =~= (piece_kinds(pc)
                + pieces_kinds(rest)).push(SpecTokenKind::EOF));
            seq![t] + ts
        }
    }
}

// ---------------------------------------------------------------------------
// The listing
// ---------------------------------------------------------------------------

/// An instruction the assembler can write back: it is not a system trap, and
/// its jump target or memory address fits a signed 64-bit literal.
pub open spec fn reassemblable_inst(inst: Instruction) -> bool {
    match inst {
        Instruction::Syscall(_) => false,
        Instruction::Jmp(t) => t <= 0x7FFF_FFFF_FFFF_FFFF,
        Instruction::Jz(t) => t <= 0x7FFF_FFFF_FFFF_FFFF,
        Instruction::Jnz(t) => t <= 0x7FFF_FFFF_FFFF_FFFF,
        Instruction::Load(_, a) => a <= 0x7FFF_FFFF_FFFF_FFFF,
        Instruction::Store(_, a) => a <= 0x7FFF_FFFF_FFFF_FFFF,
        _ => true,
    }
}

/// The stream from `off` disassembles, and every instruction listed can be written back.
pub open spec fn reassemblable(b: Seq<u8>, off: nat) -> bool
    decreases b.len() - off,
{
    match decode_at(b, off as int) {
        DecodeStep::End => true,
        DecodeStep::Decoded(inst, n) => reassemblable_inst(inst) && (inst is Halt || n == 0
            || reassemblable(b, off + n)),
        _ => false,
    }
}

/// The offsets and instructions the listing of `b` from `off` shows.
pub open spec fn listed(b: Seq<u8>, off: nat) -> Seq<(nat, Instruction)>
    decreases b.len() - off,
{
    match decode_at(b, off as int) {
        DecodeStep::Decoded(inst, n) => if inst is Halt || n == 0 {
            seq![(off, inst)]
        } else {
            seq![(off, inst)] + listed(b, off + n)
        },
        _ => Seq::empty(),
    }
}

/// Where the listed part of the stream ends: after a `halt`, or at the end.
pub open spec fn listed_end(b: Seq<u8>, off: nat) -> nat
    decreases b.len() - off,
{
    match decode_at(b, off as int) {
        DecodeStep::Decoded(inst, n) => if inst is Halt || n == 0 {
            off + n
        } else {
            listed_end(b, off + n)
        },
        _ => off,
    }
}

/// The listing lines of some items.
pub open spec fn lines_text(items: Seq<(nat, Instruction)>) -> Seq<char>
    decreases items.len(),
{
    if items.len() == 0 {
        Seq::empty()
    } else {
        listing_line(items[0].0, items[0].1) + lines_text(items.drop_first())
    }
}

pub proof fn lemma_listing_text(b: Seq<u8>, off: nat)
    requires
        reassemblable(b, off),
    ensures
        listing_from(b, off) == Ok::<Seq<char>, Seq<char>>(lines_text(listed(b, off))),
    decreases b.len() - off,
{
    match decode_at(b, off as int) {
        DecodeStep::Decoded(inst, n) => {
            let line = listing_line(off, inst);
            if inst is Halt || n == 0 {
                let one = seq![(off, inst)];
                assert(one.drop_first() =~= Seq::<(nat, Instruction)>::empty());
                assert(lines_text(one.drop_first()) =~= Seq::<char>::empty());
                assert(lines_text(one) =~= line);
            } else {
                lemma_listing_text(b, off + n);
                let rest = listed(b, off + n);
                assert((seq![(off, inst)] + rest).drop_first() =~= rest);
            }
        },
        _ => {
            assert(lines_text(Seq::<(nat, Instruction)>::empty()) =~= Seq::<char>::empty());
        },
    }
}

// ---------------------------------------------------------------------------
// Listing lines as pieces
// ---------------------------------------------------------------------------

pub open spec fn register_word(reg: u8) -> Seq<char> {
    if reg == 254 {
        seq!['s', 'p']
    } else if reg == 255 {
        seq!['p', 'c']
    } else {
        seq!['r'] + dec_nat(reg as nat)
    }
}

/// The mnemonic a listing writes for an instruction.
pub open spec fn mnemonic_word(inst: Instruction) -> Seq<char> {
    match inst {
        Instruction::Nop => seq!['n', 'o', 'p'],
        Instruction::Halt => seq!['h', 'a', 'l', 't'],
        Instruction::Add => seq!['a', 'd', 'd'],
        Instruction::Sub => seq!['s', 'u', 'b'],
        Instruction::Mul => seq!['m', 'u', 'l'],
        Instruction::Div => seq!['d', 'i', 'v'],
        Instruction::Ret => seq!['r', 'e', 't'],
        Instruction::Pop(_) => seq!['p', 'o', 'p'],
        Instruction::Push(_, _) => seq!['p', 'u', 's', 'h'],
        Instruction::Load(_, _) => seq!['l', 'o', 'a', 'd'],
        Instruction::Store(_, _) => seq!['s', 't', 'o', 'r', 'e'],
        Instruction::Jmp(_) => seq!['j', 'm', 'p'],
        Instruction::Jz(_) => seq!['j', 'z'],
        Instruction::Jnz(_) => seq!['j', 'n', 'z'],
        Instruction::Syscall(_) => seq!['s', 'y', 's', 'c', 'a', 'l', 'l'],
    }
}

/// The pieces of an instruction's operands, with the spaces before them.
pub open spec fn operand_pieces(inst: Instruction) -> Seq<Piece> {
    match inst {
        Instruction::Pop(r) => seq![Piece::Space, Piece::Space, Piece::Word(register_word(r))],
        Instruction::Push(r, v) => seq![
            Piece::Space,
            Piece::Word(register_word(r)),
            Piece::Comma,
            Piece::Space,
            Piece::Dec(v),
        ],
        Instruction::Load(r, a) => seq![
            Piece::Space,
            Piece::Word(register_word(r)),
            Piece::Comma,
            Piece::Space,
            Piece::Hex(a as nat, 0),
        ],
        Instruction::Store(r, a) => seq![
            Piece::Space,
            Piece::Word(register_word(r)),
            Piece::Comma,
            Piece::Space,
            Piece::Hex(a as nat, 0),
        ],
        Instruction::Jmp(t) => seq![Piece::Space, Piece::Space, Piece::Hex(t as nat, 4)],
        Instruction::Jz(t) => seq![Piece::Space, Piece::Space, Piece::Space, Piece::Hex(t as nat, 4)],
        Instruction::Jnz(t) => seq![Piece::Space, Piece::Space, Piece::Hex(t as nat, 4)],
        _ => Seq::empty(),
    }
}

/// The token kinds of an instruction's operands.
pub open spec fn operand_kinds(inst: Instruction) -> Seq<SpecTokenKind> {
    match inst {
        Instruction::Pop(r) => seq![SpecTokenKind::Register(register_word(r))],
        Instruction::Push(r, v) => seq![
            SpecTokenKind::Register(register_word(r)),
            SpecTokenKind::Comma,
            SpecTokenKind::Integer(v),
        ],
        Instruction::Load(r, a) => seq![
            SpecTokenKind::Register(register_word(r)),
            SpecTokenKind::Comma,
            SpecTokenKind::HexInteger(a as i64),
        ],
        Instruction::Store(r, a) => seq![
            SpecTokenKind::Register(register_word(r)),
            SpecTokenKind::Comma,
            SpecTokenKind::HexInteger(a as i64),
        ],
        Instruction::Jmp(t) => seq![SpecTokenKind::HexInteger(t as i64)],
        Instruction::Jz(t) => seq![SpecTokenKind::HexInteger(t as i64)],
        Instruction::Jnz(t) => seq![SpecTokenKind::HexInteger(t as i64)],
        _ => Seq::empty(),
    }
}

/// The pieces of an instruction's text.
pub open spec fn op_pieces(inst: Instruction) -> Seq<Piece> {
    seq![Piece::Word(mnemonic_word(inst))] + operand_pieces(inst)
}

/// The token kinds of a listing line.
pub open spec fn line_kinds(off: nat, inst: Instruction) -> Seq<SpecTokenKind> {
    seq![SpecTokenKind::LabelDef(offset_label(off)), SpecTokenKind::Instruction(mnemonic_word(inst))]
        + operand_kinds(inst) + seq![SpecTokenKind::NewLine]
}

pub open spec fn line_pieces(off: nat, inst: Instruction) -> Seq<Piece> {
    seq![Piece::Label(off), Piece::Space, Piece::Space] + op_pieces(inst) + seq![Piece::NewLine]
}

pub proof fn lemma_pieces_concat(a: Seq<Piece>, c: Seq<Piece>)
    ensures
        pieces_text(a + c) == pieces_text(a) + pieces_text(c),
        pieces_kinds(a + c) == pieces_kinds(a) + pieces_kinds(c),
        pieces_ok(a) && pieces_ok(c) && (a.len() > 0 ==> !needs_separator(a.last()) && !(
        a.last() is Comment)) ==> pieces_ok(a + c),
    decreases a.len(),
{
    if a.len() == 0 {
        assert(a + c =~= c);
        assert(pieces_text(a) + pieces_text(c) =~= pieces_text(c));
        assert(pieces_kinds(a) + pieces_kinds(c) =~= pieces_kinds(c));
    } else {
        lemma_pieces_concat(a.drop_first(), c);
        assert((a + c).drop_first() =~= a.drop_first() + c);
        assert((a + c)[0] == a[0]);
        assert(pieces_text(a + c) =~= pieces_text(a) + pieces_text(c));
        assert(pieces_kinds(a + c) =~= pieces_kinds(a) + pieces_kinds(c));
        if a.len() > 1 {
            assert((a + c)[1] == a[1]);
        } else {
            assert(a.drop_first() =~= Seq::<Piece>::empty());
            assert(a.drop_first() + c =~= c);
        }
    }
}

proof fn lemma_register_word(r: u8)
    ensures
        register_word(r) == register_text(r),
        piece_ok(Piece::Word(register_word(r))),
        is_register_name(register_word(r)),
{
    reveal_strlit("sp");
    reveal_strlit("pc");
    reveal_strlit("r");
    let w = register_word(r);
    if r == 254 {
        assert(w =~= "sp"@);
    } else if r == 255 {
        assert(w =~= "pc"@);
    } else {
        lemma_dec_nat_reads_back(r as nat);
        let d = dec_nat(r as nat);
        assert(w.drop_first() =~= d);
        assert(w =~= "r"@ + d);
        assert forall|i: int| 0 <= i < w.len() implies is_ident_char(#[trigger] w[i]) by {
            if i > 0 {
                assert(w[i] == d[i - 1]);
                assert(is_dec_digit(d[i - 1]));
            }
        }
    }
}

proof fn lemma_mnemonic_word(inst: Instruction)
    ensures
        piece_ok(Piece::Word(mnemonic_word(inst))),
        !is_register_name(mnemonic_word(inst)),
{
    reveal_strlit("sp");
    reveal_strlit("pc");
    let w = mnemonic_word(inst);
    assert(w.len() > 0 && is_ascii_alpha(w[0]));
    assert(forall|i: int| 0 <= i < w.len() ==> is_ident_char(#[trigger] w[i]));
    assert(w != "sp"@) by {
        if w.len() == 2 {
            assert(w[0] != "sp"@[0] || w[1] != "sp"@[1]);
        }
    }
    assert(w != "pc"@) by {
        if w.len() == 2 {
            assert(w[0] != "pc"@[0] || w[1] != "pc"@[1]);
        }
    }
    if w[0] == 'r' {
        assert(!is_dec_digit(w.drop_first()[0]));
    }
}

proof fn lemma_op_nullary(inst: Instruction)
    requires
        operand_pieces(inst).len() == 0,
        !(inst is Syscall),
    ensures
        pieces_text(op_pieces(inst)) == instruction_text(inst),
        pieces_kinds(op_pieces(inst)) == seq![SpecTokenKind::Instruction(mnemonic_word(inst))]
            + operand_kinds(inst),
        pieces_ok(op_pieces(inst) + seq![Piece::NewLine]),
{
    reveal_with_fuel(pieces_text, 2);
    reveal_with_fuel(pieces_kinds, 2);
    reveal_with_fuel(pieces_ok, 3);
    lemma_mnemonic_word(inst);
    let mw = mnemonic_word(inst);
    assert(op_pieces(inst) =~= seq![Piece::Word(mw)]);
    assert(op_pieces(inst) + seq![Piece::NewLine] =~= seq![Piece::Word(mw), Piece::NewLine]);
    assert(operand_kinds(inst) =~= Seq::<SpecTokenKind>::empty());
    assert(seq![Piece::Word(mw), Piece::NewLine].drop_first() =~= seq![Piece::NewLine]);
    assert(seq![Piece::NewLine].drop_first() =~= Seq::<Piece>::empty());
    assert(seq![Piece::Word(mw)].drop_first() =~= Seq::<Piece>::empty());
    assert(pieces_text(op_pieces(inst)) =~= mw);
    assert(pieces_kinds(op_pieces(inst)) =~= seq![SpecTokenKind::Instruction(mw)]);
    match inst {
        Instruction::Nop => {
            reveal_strlit("nop");
        },
        Instruction::Halt => {
            reveal_strlit("halt");
        },
        Instruction::Add => {
            reveal_strlit("add");
        },
        Instruction::Sub => {
            reveal_strlit("sub");
        },
        Instruction::Mul => {
            reveal_strlit("mul");
        },
        Instruction::Div => {
            reveal_strlit("div");
        },
        Instruction::Ret => {
            reveal_strlit("ret");
        },
        _ => {},
    }
    assert(mw =~= instruction_text(inst));
}

proof fn lemma_cons(x: Piece, r: Seq<Piece>)
    ensures
        pieces_text(seq![x] + r) == piece_text(x) + pieces_text(r),
        pieces_kinds(seq![x] + r) == piece_kinds(x) + pieces_kinds(r),
        pieces_ok(seq![x] + r) == (piece_ok(x) && (needs_separator(x) ==> r.len() > 0
            && is_separator(r[0])) && (x is Comment ==> r.len() > 0 && r[0] is NewLine)
            && pieces_ok(r)),
{
    let ps = seq![x] + r;
    assert(ps.drop_first() =~= r);
    assert(ps[0] == x);
    if r.len() > 0 {
        assert(ps[1] == r[0]);
    }
}

proof fn lemma_nl()
    ensures
        pieces_text(seq![Piece::NewLine]) == seq!['\n'],
        pieces_kinds(seq![Piece::NewLine]) == seq![SpecTokenKind::NewLine],
        pieces_ok(seq![Piece::NewLine]),
{
    lemma_cons(Piece::NewLine, Seq::empty());
    assert(seq![Piece::NewLine] =~= seq![Piece::NewLine] + Seq::<Piece>::empty());
    assert(seq!['\n'] + Seq::<char>::empty() =~= seq!['\n']);
    assert(seq![SpecTokenKind::NewLine] + Seq::<SpecTokenKind>::empty() =~= seq![
        SpecTokenKind::NewLine,
    ]);
}

/// Pieces `w, sp..., x, NL` where `x` is a register word or a hexadecimal number.
proof fn lemma_op_with_one(inst: Instruction, x: Piece, spaces: nat)
    requires
        1 <= spaces <= 3,
        op_pieces(inst) == seq![Piece::Word(mnemonic_word(inst))] + Seq::new(
            spaces,
            |_i: int| Piece::Space,
        ) + seq![x],
        piece_ok(x),
        x is Word || x is Hex,
    ensures
        pieces_text(op_pieces(inst)) == mnemonic_word(inst) + Seq::new(spaces, |_i: int| ' ')
            + piece_text(x),
        pieces_kinds(op_pieces(inst)) == seq![SpecTokenKind::Instruction(mnemonic_word(inst))]
            + piece_kinds(x),
        pieces_ok(op_pieces(inst) + seq![Piece::NewLine]),
{
    lemma_mnemonic_word(inst);
    let mw = mnemonic_word(inst);
    lemma_nl();
    let t = seq![x] + seq![Piece::NewLine];
    lemma_cons(x, seq![Piece::NewLine]);
    let s1 = seq![Piece::Space] + t;
    lemma_cons(Piece::Space, t);
    let s2 = seq![Piece::Space] + s1;
    lemma_cons(Piece::Space, s1);
    let s3 = seq![Piece::Space] + s2;
    lemma_cons(Piece::Space, s2);
    let body = if spaces == 1 {
        s1
    } else if spaces == 2 {
        s2
    } else {
        s3
    };
    lemma_cons(Piece::Word(mw), body);
    assert(op_pieces(inst) + seq![Piece::NewLine] =~= seq![Piece::Word(mw)] + body);
    let t2 = seq![x];
    lemma_cons(x, Seq::empty());
    assert(t2 =~= seq![x] + Seq::<Piece>::empty());
    let u1 = seq![Piece::Space] + t2;
    lemma_cons(Piece::Space, t2);
    let u2 = seq![Piece::Space] + u1;
    lemma_cons(Piece::Space, u1);
    let u3 = seq![Piece::Space] + u2;
    lemma_cons(Piece::Space, u2);
    let ubody = if spaces == 1 {
        u1
    } else if spaces == 2 {
        u2
    } else {
        u3
    };
    lemma_cons(Piece::Word(mw), ubody);
    assert(op_pieces(inst) =~= seq![Piece::Word(mw)] + ubody);
    assert(pieces_text(op_pieces(inst)) =~= mw + Seq::new(spaces, |_i: int| ' ') + piece_text(x));
    assert(pieces_kinds(op_pieces(inst)) =~= seq![SpecTokenKind::Instruction(mw)] + piece_kinds(x));
}

/// Pieces `w, sp, reg, comma, sp, y, NL` where `y` is a decimal or hexadecimal number.
proof fn lemma_op_with_two(inst: Instruction, rw: Seq<char>, y: Piece)
    requires
        op_pieces(inst) == seq![
            Piece::Word(mnemonic_word(inst)),
            Piece::Space,
            Piece::Word(rw),
            Piece::Comma,
            Piece::Space,
            y,
        ],
        piece_ok(Piece::Word(rw)),
        piece_ok(y),
        y is Dec || y is Hex,
    ensures
        pieces_text(op_pieces(inst)) == mnemonic_word(inst) + seq![' '] + rw + seq![',', ' ']
            + piece_text(y),
        pieces_kinds(op_pieces(inst)) == seq![SpecTokenKind::Instruction(mnemonic_word(inst))]
            + piece_kinds(Piece::Word(rw)) + seq![SpecTokenKind::Comma] + piece_kinds(y),
        pieces_ok(op_pieces(inst) + seq![Piece::NewLine]),
{
    lemma_mnemonic_word(inst);
    let mw = mnemonic_word(inst);
    lemma_nl();
    let a5 = seq![y] + seq![Piece::NewLine];
    lemma_cons(y, seq![Piece::NewLine]);
    let a4 = seq![Piece::Space] + a5;
    lemma_cons(Piece::Space, a5);
    let a3 = seq![Piece::Comma] + a4;
    lemma_cons(Piece::Comma, a4);
    let a2 = seq![Piece::Word(rw)] + a3;
    lemma_cons(Piece::Word(rw), a3);
    let a1 = seq![Piece::Space] + a2;
    lemma_cons(Piece::Space, a2);
    lemma_cons(Piece::Word(mw), a1);
    assert(op_pieces(inst) + seq![Piece::NewLine] =~= seq![Piece::Word(mw)] + a1);
    let b5 = seq![y];
    lemma_cons(y, Seq::empty());
    assert(b5 =~= seq![y] + Seq::<Piece>::empty());
    let b4 = seq![Piece::Space] + b5;
    lemma_cons(Piece::Space, b5);
    let b3 = seq![Piece::Comma] + b4;
    lemma_cons(Piece::Comma, b4);
    let b2 = seq![Piece::Word(rw)] + b3;
    lemma_cons(Piece::Word(rw), b3);
    let b1 = seq![Piece::Space] + b2;
    lemma_cons(Piece::Space, b2);
    lemma_cons(Piece::Word(mw), b1);
    assert(op_pieces(inst) =~= seq![Piece::Word(mw)] + b1);
    assert(pieces_text(op_pieces(inst)) =~= mw + seq![' '] + rw + seq![',', ' '] + piece_text(y));
    assert(pieces_kinds(op_pieces(inst)) =~= seq![SpecTokenKind::Instruction(mw)] + piece_kinds(
        Piece::Word(rw),
    ) + seq![SpecTokenKind::Comma] + piece_kinds(y));
}

/// What every instruction's pieces satisfy.
pub open spec fn op_pieces_facts(inst: Instruction) -> bool {
    &&& pieces_text(op_pieces(inst)) == instruction_text(inst)
    &&& pieces_kinds(op_pieces(inst)) == seq![SpecTokenKind::Instruction(mnemonic_word(inst))]
        + operand_kinds(inst)
    &&& pieces_ok(op_pieces(inst) + seq![Piece::NewLine])
}

proof fn lemma_op_pop(r: u8)
    ensures
        op_pieces_facts(Instruction::Pop(r)),
{
    let inst = Instruction::Pop(r);
    lemma_register_word(r);
    let x = Piece::Word(register_word(r));
    assert(op_pieces(inst) =~= seq![Piece::Word(mnemonic_word(inst))] + Seq::new(
        2,
        |_i: int| Piece::Space,
    ) + seq![x]);
    lemma_op_with_one(inst, x, 2);
    reveal_strlit("pop  ");
    assert(pieces_text(op_pieces(inst)) =~= instruction_text(inst));
    assert(pieces_kinds(op_pieces(inst)) =~= seq![SpecTokenKind::Instruction(mnemonic_word(inst))]
        + operand_kinds(inst));
}

proof fn lemma_op_jump(inst: Instruction)
    requires
        reassemblable_inst(inst),
        inst is Jmp || inst is Jz || inst is Jnz,
    ensures
        op_pieces_facts(inst),
{
    let t: u64 = match inst {
        Instruction::Jmp(t) => t,
        Instruction::Jz(t) => t,
        Instruction::Jnz(t) => t,
        _ => 0,
    };
    let x = Piece::Hex(t as nat, 4);
    let spaces: nat = if inst is Jz { 3 } else { 2 };
    assert(op_pieces(inst) =~= seq![Piece::Word(mnemonic_word(inst))] + Seq::new(
        spaces,
        |_i: int| Piece::Space,
    ) + seq![x]);
    lemma_op_with_one(inst, x, spaces);
    reveal_strlit("jmp  0x");
    reveal_strlit("jz   0x");
    reveal_strlit("jnz  0x");
    assert(pieces_text(op_pieces(inst)) =~= instruction_text(inst));
    assert(pieces_kinds(op_pieces(inst)) =~= seq![SpecTokenKind::Instruction(mnemonic_word(inst))]
        + operand_kinds(inst));
}

proof fn lemma_op_reg_imm(inst: Instruction)
    requires
        reassemblable_inst(inst),
        inst is Push || inst is Load || inst is Store,
    ensures
        op_pieces_facts(inst),
{
    let r: u8 = match inst {
        Instruction::Push(r, _) => r,
        Instruction::Load(r, _) => r,
        Instruction::Store(r, _) => r,
        _ => 0,
    };
    let y = match inst {
        Instruction::Push(_, v) => Piece::Dec(v),
        Instruction::Load(_, a) => Piece::Hex(a as nat, 0),
        Instruction::Store(_, a) => Piece::Hex(a as nat, 0),
        _ => Piece::Comma,
    };
    lemma_register_word(r);
    let rw = register_word(r);
    assert(op_pieces(inst) =~= seq![
        Piece::Word(mnemonic_word(inst)),
        Piece::Space,
        Piece::Word(rw),
        Piece::Comma,
        Piece::Space,
        y,
    ]);
    lemma_op_with_two(inst, rw, y);
    reveal_strlit("push ");
    reveal_strlit("load ");
    reveal_strlit("store ");
    reveal_strlit(", ");
    reveal_strlit(", 0x");
    match inst {
        Instruction::Load(_, a) => {
            assert(hex_padded(a as nat, 0) =~= hex_nat(a as nat));
        },
        Instruction::Store(_, a) => {
            assert(hex_padded(a as nat, 0) =~= hex_nat(a as nat));
        },
        _ => {},
    }
    assert(pieces_text(op_pieces(inst)) =~= instruction_text(inst));
    assert(pieces_kinds(op_pieces(inst)) =~= seq![SpecTokenKind::Instruction(mnemonic_word(inst))]
        + operand_kinds(inst));
}

proof fn lemma_op_pieces(inst: Instruction)
    requires
        reassemblable_inst(inst),
    ensures
        op_pieces_facts(inst),
{
    match inst {
        Instruction::Pop(r) => lemma_op_pop(r),
        Instruction::Push(_, _) => lemma_op_reg_imm(inst),
        Instruction::Load(_, _) => lemma_op_reg_imm(inst),
        Instruction::Store(_, _) => lemma_op_reg_imm(inst),
        Instruction::Jmp(_) => lemma_op_jump(inst),
        Instruction::Jz(_) => lemma_op_jump(inst),
        Instruction::Jnz(_) => lemma_op_jump(inst),
        _ => lemma_op_nullary(inst),
    }
}

proof fn lemma_line_pieces(off: nat, inst: Instruction)
    requires
        reassemblable_inst(inst),
    ensures
        pieces_ok(line_pieces(off, inst)),
        pieces_text(line_pieces(off, inst)) == listing_line(off, inst),
        pieces_kinds(line_pieces(off, inst)) == line_kinds(off, inst),
        line_pieces(off, inst).len() > 0,
        line_pieces(off, inst).last() is NewLine,
{
    lemma_op_pieces(inst);
    let body = op_pieces(inst) + seq![Piece::NewLine];
    lemma_pieces_concat(op_pieces(inst), seq![Piece::NewLine]);
    lemma_nl();
    let a2 = seq![Piece::Space] + body;
    lemma_cons(Piece::Space, body);
    let a1 = seq![Piece::Space] + a2;
    lemma_cons(Piece::Space, a2);
    lemma_cons(Piece::Label(off), a1);
    assert(line_pieces(off, inst) =~= seq![Piece::Label(off)] + a1);
    reveal_strlit("0x");
    reveal_strlit(":  ");
    reveal_strlit("\n");
    assert(pieces_text(line_pieces(off, inst)) =~= listing_line(off, inst));
    assert(pieces_kinds(line_pieces(off, inst)) =~= line_kinds(off, inst));
}

/// The pieces of listing lines.
pub open spec fn items_pieces(items: Seq<(nat, Instruction)>) -> Seq<Piece>
    decreases items.len(),
{
    if items.len() == 0 {
        Seq::empty()
    } else {
        line_pieces(items[0].0, items[0].1) + items_pieces(items.drop_first())
    }
}

/// The token kinds of listing lines.
pub open spec fn items_kinds(items: Seq<(nat, Instruction)>) -> Seq<SpecTokenKind>
    decreases items.len(),
{
    if items.len() == 0 {
        Seq::empty()
    } else {
        line_kinds(items[0].0, items[0].1) + items_kinds(items.drop_first())
    }
}

pub open spec fn all_reassemblable(items: Seq<(nat, Instruction)>) -> bool {
    forall|i: int| 0 <= i < items.len() ==> reassemblable_inst(#[trigger] items[i].1)
}

proof fn lemma_items_pieces(items: Seq<(nat, Instruction)>)
    requires
        all_reassemblable(items),
    ensures
        pieces_ok(items_pieces(items)),
        pieces_text(items_pieces(items)) == lines_text(items),
        pieces_kinds(items_pieces(items)) == items_kinds(items),
    decreases items.len(),
{
    if items.len() > 0 {
        let rest = items.drop_first();
        assert(all_reassemblable(rest)) by {
            assert forall|i: int| 0 <= i < rest.len() implies reassemblable_inst(
                #[trigger] rest[i].1,
            ) by {
                assert(rest[i] == items[i + 1]);
            }
        }
        assert(reassemblable_inst(items[0].1));
        lemma_items_pieces(rest);
        lemma_line_pieces(items[0].0, items[0].1);
        lemma_pieces_concat(line_pieces(items[0].0, items[0].1), items_pieces(rest));
    }
}

/// The banner comment, after the `;`.
pub open spec fn banner_comment() -> Seq<char> {
    " --- Disassembled Bytecode Stream ---"@
}

pub open spec fn banner_pieces() -> Seq<Piece> {
    seq![Piece::Comment(banner_comment()), Piece::NewLine, Piece::NewLine]
}

proof fn lemma_banner_pieces()
    ensures
        pieces_ok(banner_pieces()),
        pieces_text(banner_pieces()) == banner(),
        pieces_kinds(banner_pieces()) == seq![SpecTokenKind::NewLine, SpecTokenKind::NewLine],
        banner_pieces().last() is NewLine,
{
    reveal_strlit(" --- Disassembled Bytecode Stream ---");
    reveal_strlit("; --- Disassembled Bytecode Stream ---\n\n");
    let c = banner_comment();
    lemma_nl();
    let a2 = seq![Piece::NewLine] + seq![Piece::NewLine];
    lemma_cons(Piece::NewLine, seq![Piece::NewLine]);
    lemma_cons(Piece::Comment(c), a2);
    assert(banner_pieces() =~= seq![Piece::Comment(c)] + a2);
    assert(piece_ok(Piece::Comment(c)));
    assert(pieces_text(banner_pieces()) =~= banner());
    assert(pieces_kinds(banner_pieces()) =~= seq![SpecTokenKind::NewLine, SpecTokenKind::NewLine]);
}

/// The tokens of a whole listing.
proof fn lemma_lex_listing(b: Seq<u8>) -> (ts: Seq<SpecToken>)
    requires
        reassemblable(b, 0),
    ensures
        spec_disassemble(b) is Ok,
        lex_all(spec_disassemble(b)->Ok_0, lex_start()) == Ok::<Seq<SpecToken>, Seq<char>>(ts),
        kinds_of(ts) == seq![SpecTokenKind::NewLine, SpecTokenKind::NewLine] + items_kinds(
            listed(b, 0),
        ) + seq![SpecTokenKind::EOF],
{
    lemma_listing_text(b, 0);
    let items = listed(b, 0);
    lemma_listed_reassemblable(b, 0);
    lemma_items_pieces(items);
    lemma_banner_pieces();
    let ps = banner_pieces() + items_pieces(items);
    lemma_pieces_concat(banner_pieces(), items_pieces(items));
    let s = banner() + lines_text(items);
    assert(spec_disassemble(b) == Ok::<Seq<char>, Seq<char>>(s));
    assert(s.subrange(0, s.len() as int) =~= pieces_text(ps));
    let ts = lemma_lex_pieces(s, lex_start(), ps);
    assert(pieces_kinds(ps).push(SpecTokenKind::EOF) =~= seq![
        SpecTokenKind::NewLine,
        SpecTokenKind::NewLine,
    ] + items_kinds(items) + seq![SpecTokenKind::EOF]);
    ts
}

proof fn lemma_listed_reassemblable(b: Seq<u8>, off: nat)
    requires
        reassemblable(b, off),
    ensures
        all_reassemblable(listed(b, off)),
    decreases b.len() - off,
{
    match decode_at(b, off as int) {
        DecodeStep::Decoded(inst, n) => {
            if !(inst is Halt || n == 0) {
                lemma_listed_reassemblable(b, off + n);
                let rest = listed(b, off + n);
                let all = seq![(off, inst)] + rest;
                assert forall|i: int| 0 <= i < all.len() implies reassemblable_inst(
                    #[trigger] all[i].1,
                ) by {
                    if i > 0 {
                        assert(all[i] == rest[i - 1]);
                    }
                }
            }
        },
        _ => {},
    }
}

// ---------------------------------------------------------------------------
// The parser over listing tokens
// ---------------------------------------------------------------------------

/// The operands the parser reads from a listing line.
pub open spec fn operand_values(inst: Instruction) -> Seq<SpecOperand> {
    match inst {
        Instruction::Pop(r) => seq![SpecOperand::Register(register_word(r))],
        Instruction::Push(r, v) => seq![
            SpecOperand::Register(register_word(r)),
            SpecOperand::Integer(v),
        ],
        Instruction::Load(r, a) => seq![
            SpecOperand::Register(register_word(r)),
            SpecOperand::Integer(a as i64),
        ],
        Instruction::Store(r, a) => seq![
            SpecOperand::Register(register_word(r)),
            SpecOperand::Integer(a as i64),
        ],
        Instruction::Jmp(t) => seq![SpecOperand::Integer(t as i64)],
        Instruction::Jz(t) => seq![SpecOperand::Integer(t as i64)],
        Instruction::Jnz(t) => seq![SpecOperand::Integer(t as i64)],
        _ => Seq::empty(),
    }
}

/// The program after parsing one listing line at cursor `c`.
pub open spec fn after_line(
    toks: Seq<SpecToken>,
    c: nat,
    prog: SpecProgram,
    off: nat,
    inst: Instruction,
) -> SpecProgram {
    SpecProgram {
        instructions: prog.instructions.push(
            SpecInstruction {
                opcode: mnemonic_word(inst),
                operands: operand_values(inst),
                loc: toks[c as int + 1].loc,
            },
        ),
        labels: prog.labels.push((offset_label(off), prog.instructions.len())),
    }
}

/// The tokens from cursor `c` have these kinds.
pub open spec fn kinds_at(toks: Seq<SpecToken>, c: nat, ks: Seq<SpecTokenKind>) -> bool {
    c + ks.len() <= toks.len() && forall|j: int| 0 <= j < ks.len() ==> #[trigger] toks[c + j].kind
        == ks[j]
}

proof fn lemma_parse_line(
    toks: Seq<SpecToken>,
    c: nat,
    prog: SpecProgram,
    off: nat,
    inst: Instruction,
)
    requires
        reassemblable_inst(inst),
        kinds_at(toks, c, line_kinds(off, inst)),
        !label_defined(prog.labels, offset_label(off)),
    ensures
        parse_from(toks, c, prog) == parse_from(
            toks,
            c + line_kinds(off, inst).len(),
            after_line(toks, c, prog, off, inst),
        ),
{
    let lk = line_kinds(off, inst);
    let mw = mnemonic_word(inst);
    let ok = operand_kinds(inst);
    assert(toks[c as int + 0].kind == lk[0]);
    assert(toks[c as int + 1].kind == lk[1]);
    assert(lk[0] == SpecTokenKind::LabelDef(offset_label(off)));
    assert(lk[1] == SpecTokenKind::Instruction(mw));
    let prog_l = SpecProgram {
        labels: prog.labels.push((offset_label(off), prog.instructions.len())),
        ..prog
    };
    assert(parse_from(toks, c, prog) == parse_from(toks, c + 1, prog_l));
    let c1 = c + 2;
    let nl = lk.len() - 1;
    assert(lk[nl] == SpecTokenKind::NewLine);
    assert(toks[c + nl].kind == SpecTokenKind::NewLine);
    let inst_v = SpecInstruction { opcode: mw, operands: operand_values(inst), loc: toks[c as int + 1].loc };
    let prog2 = SpecProgram { instructions: prog_l.instructions.push(inst_v), ..prog_l };
    assert(prog2 == after_line(toks, c, prog, off, inst));
    if ok.len() == 0 {
        assert(check(toks, c1, SpecTokenKind::NewLine));
        assert(parse_from(toks, c + 1, prog_l) == parse_from(toks, c1 + 1, prog2));
    } else if ok.len() == 1 {
        assert(toks[c as int + 2].kind == lk[2]);
        assert(lk[2] == ok[0]);
        assert(!check(toks, c1, SpecTokenKind::NewLine));
        assert(!check(toks, c1, SpecTokenKind::EOF));
        assert(parse_operand(toks, c1) == Ok::<(SpecOperand, nat), Seq<char>>(
            (operand_values(inst)[0], c1 + 1),
        ));
        assert(!check(toks, c1 + 1, SpecTokenKind::Comma));
        assert(seq![].push(operand_values(inst)[0]) =~= operand_values(inst));
        assert(parse_operands(toks, c1, Seq::empty()) == Ok::<(Seq<SpecOperand>, nat), Seq<char>>(
            (operand_values(inst), c1 + 1),
        ));
        assert(parse_from(toks, c + 1, prog_l) == parse_from(toks, c1 + 2, prog2));
    } else {
        assert(toks[c as int + 2].kind == lk[2]);
        assert(toks[c as int + 3].kind == lk[3]);
        assert(toks[c as int + 4].kind == lk[4]);
        assert(lk[2] == ok[0]);
        assert(lk[3] == ok[1]);
        assert(lk[4] == ok[2]);
        assert(!check(toks, c1, SpecTokenKind::NewLine));
        assert(!check(toks, c1, SpecTokenKind::EOF));
        let v0 = operand_values(inst)[0];
        let v1 = operand_values(inst)[1];
        assert(parse_operand(toks, c1) == Ok::<(SpecOperand, nat), Seq<char>>((v0, c1 + 1)));
        assert(check(toks, c1 + 1, SpecTokenKind::Comma));
        assert(parse_operand(toks, c1 + 2) == Ok::<(SpecOperand, nat), Seq<char>>((v1, c1 + 3)));
        assert(!check(toks, c1 + 3, SpecTokenKind::Comma));
        assert(parse_operands(toks, c1 + 2, seq![v0]) == Ok::<(Seq<SpecOperand>, nat), Seq<char>>(
            (seq![v0].push(v1), c1 + 3),
        ));
        assert(seq![].push(v0) =~= seq![v0]);
        assert(seq![v0].push(v1) =~= operand_values(inst));
        assert(parse_operands(toks, c1, Seq::empty()) == Ok::<(Seq<SpecOperand>, nat), Seq<char>>(
            (operand_values(inst), c1 + 3),
        ));
        assert(parse_from(toks, c + 1, prog_l) == parse_from(toks, c1 + 4, prog2));
    }
}

/// The program after parsing the listing lines of `items` from cursor `c`.
pub open spec fn prog_after(
    toks: Seq<SpecToken>,
    c: nat,
    prog: SpecProgram,
    items: Seq<(nat, Instruction)>,
) -> SpecProgram
    decreases items.len(),
{
    if items.len() == 0 {
        prog
    } else {
        prog_after(
            toks,
            c + line_kinds(items[0].0, items[0].1).len(),
            after_line(toks, c, prog, items[0].0, items[0].1),
            items.drop_first(),
        )
    }
}

/// Every label names an offset below `bound`.
pub open spec fn labels_below(labels: Seq<(Seq<char>, nat)>, bound: nat) -> bool {
    forall|i: int|
        0 <= i < labels.len() ==> (#[trigger] labels[i]).0.len() >= 2 && hex_value(
            labels[i].0.skip(2),
        ) < bound
}

pub open spec fn offsets_increasing(items: Seq<(nat, Instruction)>) -> bool {
    forall|i: int, j: int| 0 <= i < j < items.len() ==> (#[trigger] items[i]).0 < (#[trigger] items[j]).0
}

proof fn lemma_offset_label_value(off: nat)
    ensures
        offset_label(off).len() >= 2,
        hex_value(offset_label(off).skip(2)) == off,
{
    lemma_hex_padded_reads_back(off, 4);
    assert(offset_label(off).skip(2) =~= hex_padded(off, 4));
}

proof fn lemma_parse_items(
    toks: Seq<SpecToken>,
    c: nat,
    prog: SpecProgram,
    items: Seq<(nat, Instruction)>,
)
    requires
        all_reassemblable(items),
        offsets_increasing(items),
        items.len() > 0 ==> labels_below(prog.labels, items[0].0),
        kinds_at(toks, c, items_kinds(items)),
        c + items_kinds(items).len() < toks.len(),
        toks[c + items_kinds(items).len() as int].kind is EOF,
    ensures
        parse_from(toks, c, prog) == Ok::<SpecProgram, Seq<char>>(prog_after(toks, c, prog, items)),
    decreases items.len(),
{
    if items.len() == 0 {
        assert(at_end(toks, c));
    } else {
        let (off, inst) = items[0];
        let rest = items.drop_first();
        let lk = line_kinds(off, inst);
        let ik = items_kinds(items);
        assert(ik == lk + items_kinds(rest));
        assert(reassemblable_inst(inst));
        assert(kinds_at(toks, c, lk)) by {
            assert forall|j: int| 0 <= j < lk.len() implies #[trigger] toks[c + j].kind == lk[j] by {
                assert(toks[c + j].kind == ik[j]);
            }
        }
        assert(!label_defined(prog.labels, offset_label(off))) by {
            lemma_offset_label_value(off);
            if label_defined(prog.labels, offset_label(off)) {
                let i = choose|i: int|
                    0 <= i < prog.labels.len() && #[trigger] prog.labels[i].0 == offset_label(off);
                assert(hex_value(prog.labels[i].0.skip(2)) < off);
            }
        }
        lemma_parse_line(toks, c, prog, off, inst);
        let c2 = c + lk.len();
        let prog2 = after_line(toks, c, prog, off, inst);
        assert(all_reassemblable(rest)) by {
            assert forall|i: int| 0 <= i < rest.len() implies reassemblable_inst(
                #[trigger] rest[i].1,
            ) by {
                assert(rest[i] == items[i + 1]);
            }
        }
        assert(offsets_increasing(rest)) by {
            assert forall|i: int, j: int| 0 <= i < j < rest.len() implies (#[trigger] rest[i]).0
                < (#[trigger] rest[j]).0 by {
                assert(rest[i] == items[i + 1]);
                assert(rest[j] == items[j + 1]);
            }
        }
        if rest.len() > 0 {
            assert(rest[0] == items[1]);
            assert(items[0].0 < items[1].0);
            assert(labels_below(prog2.labels, rest[0].0)) by {
                lemma_offset_label_value(off);
                assert forall|i: int| 0 <= i < prog2.labels.len() implies (
                #[trigger] prog2.labels[i]).0.len() >= 2 && hex_value(prog2.labels[i].0.skip(2))
                    < rest[0].0 by {
                    if i < prog.labels.len() {
                        assert(prog2.labels[i] == prog.labels[i]);
                    }
                }
            }
        }
        assert(kinds_at(toks, c2, items_kinds(rest))) by {
            assert forall|j: int| 0 <= j < items_kinds(rest).len() implies #[trigger] toks[c2
                + j].kind == items_kinds(rest)[j] by {
                assert(toks[c + (lk.len() + j)].kind == ik[lk.len() + j]);
            }
        }
        lemma_parse_items(toks, c2, prog2, rest);
    }
}

/// What parsing the listing lines gives.
proof fn lemma_prog_after(
    toks: Seq<SpecToken>,
    c: nat,
    prog: SpecProgram,
    items: Seq<(nat, Instruction)>,
)
    ensures
        ({
            let r = prog_after(toks, c, prog, items);
            &&& r.instructions.len() == prog.instructions.len() + items.len()
            &&& forall|i: int|
                0 <= i < prog.instructions.len() ==> #[trigger] r.instructions[i]
                    == prog.instructions[i]
            &&& forall|j: int|
                0 <= j < items.len() ==> (#[trigger] r.instructions[prog.instructions.len()
                    + j]).opcode == mnemonic_word(items[j].1)
                    && r.instructions[prog.instructions.len() + j].operands == operand_values(
                    items[j].1,
                )
        }),
    decreases items.len(),
{
    if items.len() > 0 {
        let (off, inst) = items[0];
        let rest = items.drop_first();
        let c2 = c + line_kinds(off, inst).len();
        let prog2 = after_line(toks, c, prog, off, inst);
        lemma_prog_after(toks, c2, prog2, rest);
        let r = prog_after(toks, c, prog, items);
        let n = prog.instructions.len();
        assert forall|j: int| 0 <= j < items.len() implies (#[trigger] r.instructions[n
            + j]).opcode == mnemonic_word(items[j].1) && r.instructions[n + j].operands
            == operand_values(items[j].1) by {
            if j == 0 {
                assert(r.instructions[n as int] == prog2.instructions[n as int]);
            } else {
                assert(rest[j - 1] == items[j]);
                assert(r.instructions[n + 1 + (j - 1)] == r.instructions[n + j]);
            }
        }
    }
}

// ---------------------------------------------------------------------------
// The listed bytes
// ---------------------------------------------------------------------------

/// The binary forms of some items, one after another.
pub open spec fn enc_concat(items: Seq<(nat, Instruction)>) -> Seq<u8>
    decreases items.len(),
{
    if items.len() == 0 {
        Seq::empty()
    } else {
        items[0].1.encoding() + enc_concat(items.drop_first())
    }
}

/// Each item starts where the previous one's binary form ends.
pub open spec fn consecutive(items: Seq<(nat, Instruction)>) -> bool {
    forall|i: int|
        0 <= i < items.len() - 1 ==> #[trigger] items[i + 1].0 == items[i].0 + items[i].1.encoding().len()
}

proof fn lemma_listed_shape(b: Seq<u8>, off: nat)
    requires
        off <= b.len(),
    ensures
        ({
            let items = listed(b, off);
            let end = listed_end(b, off);
            &&& off <= end <= b.len()
            &&& items.len() <= end - off
            &&& items.len() > 0 ==> items[0].0 == off
            &&& items.len() > 0 ==> end == items.last().0 + items.last().1.encoding().len()
            &&& items.len() == 0 ==> end == off
        }),
    decreases b.len() - off,
{
    match decode_at(b, off as int) {
        DecodeStep::Decoded(inst, n) => {
            law_decoding_reads_encoding(b, off as int);
            if !(inst is Halt || n == 0) {
                let next = off + n;
                lemma_listed_shape(b, next);
                let rest = listed(b, next);
                let items = seq![(off, inst)] + rest;
                assert(listed(b, off) == items);
                if rest.len() > 0 {
                    assert(items.last() == rest.last());
                }
            }
        },
        _ => {},
    }
}

proof fn lemma_listed_consecutive(b: Seq<u8>, off: nat)
    requires
        off <= b.len(),
    ensures
        consecutive(listed(b, off)),
    decreases b.len() - off,
{
    match decode_at(b, off as int) {
        DecodeStep::Decoded(inst, n) => {
            law_decoding_reads_encoding(b, off as int);
            if !(inst is Halt || n == 0) {
                let next = off + n;
                lemma_listed_consecutive(b, next);
                lemma_listed_shape(b, next);
                let rest = listed(b, next);
                let items = seq![(off, inst)] + rest;
                assert(listed(b, off) == items);
                assert forall|i: int| 0 <= i < items.len() - 1 implies #[trigger] items[i + 1].0
                    == items[i].0 + items[i].1.encoding().len() by {
                    if i > 0 {
                        assert(items[i] == rest[i - 1]);
                        assert(items[i + 1] == rest[i]);
                        assert(rest[(i - 1) + 1].0 == rest[i - 1].0 + rest[i - 1].1.encoding().len());
                    } else {
                        assert(items[1] == rest[0]);
                    }
                }
            }
        },
        _ => {},
    }
}

proof fn lemma_listed_enc(b: Seq<u8>, off: nat)
    requires
        off <= b.len(),
    ensures
        listed_end(b, off) <= b.len(),
        b.subrange(off as int, listed_end(b, off) as int) == enc_concat(listed(b, off)),
    decreases b.len() - off,
{
    lemma_listed_shape(b, off);
    let end = listed_end(b, off);
    match decode_at(b, off as int) {
        DecodeStep::Decoded(inst, n) => {
            law_decoding_reads_encoding(b, off as int);
            let one = seq![(off, inst)];
            if inst is Halt || n == 0 {
                assert(one.drop_first() =~= Seq::<(nat, Instruction)>::empty());
                assert(enc_concat(one.drop_first()) =~= Seq::<u8>::empty());
                assert(enc_concat(one) =~= inst.encoding());
            } else {
                let next = off + n;
                lemma_listed_enc(b, next);
                lemma_listed_shape(b, next);
                assert(end == listed_end(b, next));
                let rest = listed(b, next);
                let items = one + rest;
                assert(listed(b, off) == items);
                assert(items.drop_first() =~= rest);
                assert(enc_concat(items) == inst.encoding() + enc_concat(rest));
                assert(b.subrange(off as int, end as int) =~= b.subrange(off as int, next as int)
                    + b.subrange(next as int, end as int));
            }
        },
        _ => {
            assert(b.subrange(off as int, end as int) =~= Seq::<u8>::empty());
        },
    }
}

// ---------------------------------------------------------------------------
// The encoder over the parsed listing
// ---------------------------------------------------------------------------

proof fn lemma_mnemonic_lower(inst: Instruction)
    ensures
        ascii_lower(mnemonic_word(inst)) == mnemonic_word(inst),
{
    let w = mnemonic_word(inst);
    assert forall|i: int| 0 <= i < w.len() implies lower(#[trigger] w[i]) == w[i] by {}
    assert(ascii_lower(w) =~= w);
}

proof fn lemma_mnemonic_opcode_a(inst: Instruction)
    requires
        inst is Halt || inst is Nop || inst is Add || inst is Sub || inst is Mul || inst is Div
            || inst is Ret,
    ensures
        spec_mnemonic(mnemonic_word(inst)) == Some(inst.opcode()),
{
    lemma_mnemonic_lower(inst);
    reveal_strlit("halt");
    reveal_strlit("nop");
    reveal_strlit("add");
    reveal_strlit("sub");
    reveal_strlit("mul");
    reveal_strlit("div");
    reveal_strlit("ret");
    let w = mnemonic_word(inst);
    match inst {
        Instruction::Halt => assert(w =~= "halt"@),
        Instruction::Nop => {
            assert(w =~= "nop"@);
            assert(w != "halt"@);
        },
        Instruction::Add => {
            assert(w =~= "add"@);
            assert(w != "halt"@ && w != "nop"@);
        },
        Instruction::Sub => {
            assert(w =~= "sub"@);
            assert(w != "halt"@ && w[0] != "nop"@[0] && w[0] != "add"@[0]);
        },
        Instruction::Mul => {
            assert(w =~= "mul"@);
            assert(w != "halt"@ && w[0] != "nop"@[0] && w[0] != "add"@[0] && w[0] != "sub"@[0]);
        },
        Instruction::Div => {
            assert(w =~= "div"@);
            assert(w != "halt"@ && w[0] != "nop"@[0] && w[0] != "add"@[0] && w[0] != "sub"@[0]
                && w[0] != "mul"@[0]);
        },
        Instruction::Ret => {
            assert(w =~= "ret"@);
            assert(w != "halt"@ && w[0] != "nop"@[0] && w[0] != "add"@[0] && w[0] != "sub"@[0]
                && w[0] != "mul"@[0] && w[0] != "div"@[0]);
        },
        _ => {},
    }
}

proof fn lemma_mnemonic_opcode_b(inst: Instruction)
    requires
        inst is Pop || inst is Jmp || inst is Jz || inst is Jnz || inst is Push || inst is Load
            || inst is Store,
    ensures
        spec_mnemonic(mnemonic_word(inst)) == Some(inst.opcode()),
{
    lemma_mnemonic_lower(inst);
    reveal_strlit("halt");
    reveal_strlit("nop");
    reveal_strlit("add");
    reveal_strlit("sub");
    reveal_strlit("mul");
    reveal_strlit("div");
    reveal_strlit("ret");
    reveal_strlit("pop");
    reveal_strlit("jmp");
    reveal_strlit("jz");
    reveal_strlit("jnz");
    reveal_strlit("push");
    reveal_strlit("load");
    reveal_strlit("store");
    let w = mnemonic_word(inst);
    // The words of the first seven opcodes begin with other letters or have other lengths.
    assert(w != "halt"@ && w != "nop"@ && w != "add"@ && w != "sub"@ && w != "mul"@ && w != "div"@
        && w != "ret"@) by {
        if w.len() == 3 {
            assert(w[0] != "nop"@[0] || w[1] != "nop"@[1]);
            assert(w[0] != "add"@[0]);
            assert(w[0] != "sub"@[0] || w[1] != "sub"@[1]);
            assert(w[0] != "mul"@[0]);
            assert(w[0] != "div"@[0]);
            assert(w[0] != "ret"@[0]);
        }
        if w.len() == 4 {
            assert(w[0] != "halt"@[0]);
        }
    }
    match inst {
        Instruction::Pop(_) => assert(w =~= "pop"@),
        Instruction::Jmp(_) => {
            assert(w =~= "jmp"@);
            assert(w[0] != "pop"@[0]);
        },
        Instruction::Jz(_) => {
            assert(w =~= "jz"@);
            assert(w[0] != "pop"@[0] && w.len() != "jmp"@.len());
        },
        Instruction::Jnz(_) => {
            assert(w =~= "jnz"@);
            assert(w[0] != "pop"@[0] && w[1] != "jmp"@[1] && w.len() != "jz"@.len());
        },
        Instruction::Push(_, _) => {
            assert(w =~= "push"@);
            assert(w.len() != 3 && w.len() != 2);
        },
        Instruction::Load(_, _) => {
            assert(w =~= "load"@);
            assert(w.len() != 3 && w.len() != 2 && w[0] != "push"@[0]);
        },
        Instruction::Store(_, _) => {
            assert(w =~= "store"@);
            assert(w.len() != 3 && w.len() != 2 && w.len() != 4);
        },
        _ => {},
    }
}

proof fn lemma_mnemonic_opcode(inst: Instruction)
    requires
        !(inst is Syscall),
    ensures
        spec_mnemonic(mnemonic_word(inst)) == Some(inst.opcode()),
{
    if inst is Halt || inst is Nop || inst is Add || inst is Sub || inst is Mul || inst is Div
        || inst is Ret {
        lemma_mnemonic_opcode_a(inst);
    } else {
        lemma_mnemonic_opcode_b(inst);
    }
}

proof fn lemma_emit_register(r: u8, inst_v: SpecInstruction)
    ensures
        emit_register(SpecOperand::Register(register_word(r)), inst_v) == Emit::Bytes(seq![r]),
{
    reveal_strlit("sp");
    reveal_strlit("pc");
    let w = register_word(r);
    if r == 254 {
        assert(w =~= "sp"@);
    } else if r == 255 {
        assert(w =~= "pc"@);
        assert(w[0] != "sp"@[0]);
    } else {
        assert(w[0] != "sp"@[0]);
        assert(w[0] != "pc"@[0]);
        assert(w.drop_first() =~= dec_nat(r as nat));
        lemma_dec_u8_parses_back(r);
    }
}

proof fn lemma_emit_instruction(
    inst_v: SpecInstruction,
    inst: Instruction,
    labels: Seq<(Seq<char>, nat)>,
    offs: Seq<nat>,
)
    requires
        reassemblable_inst(inst),
        inst_v.opcode == mnemonic_word(inst),
        inst_v.operands == operand_values(inst),
    ensures
        emit_instruction(inst_v, inst.opcode(), labels, offs) == Emit::Bytes(inst.encoding()),
{
    let op = inst.opcode();
    let b = op.byte();
    match inst {
        Instruction::Pop(r) => {
            lemma_emit_register(r, inst_v);
            assert(inst_v.operands[0] == SpecOperand::Register(register_word(r)));
            assert(seq![b] + seq![r] =~= inst.encoding());
        },
        Instruction::Push(r, v) => {
            lemma_emit_register(r, inst_v);
            assert(inst_v.operands[0] == SpecOperand::Register(register_word(r)));
            assert(inst_v.operands[1] == SpecOperand::Integer(v));
            assert(seq![b] + (seq![r] + spec_u64_to_le_bytes(v as u64)) =~= inst.encoding());
        },
        Instruction::Load(r, a) => {
            lemma_emit_register(r, inst_v);
            assert(((a as i64) as u64) == a) by (bit_vector)
                requires
                    a <= 0x7FFF_FFFF_FFFF_FFFFu64,
            ;
            assert(inst_v.operands[0] == SpecOperand::Register(register_word(r)));
            assert(inst_v.operands[1] == SpecOperand::Integer(a as i64));
            assert(seq![b] + (seq![r] + spec_u64_to_le_bytes(a)) =~= inst.encoding());
        },
        Instruction::Store(r, a) => {
            lemma_emit_register(r, inst_v);
            assert(((a as i64) as u64) == a) by (bit_vector)
                requires
                    a <= 0x7FFF_FFFF_FFFF_FFFFu64,
            ;
            assert(inst_v.operands[0] == SpecOperand::Register(register_word(r)));
            assert(inst_v.operands[1] == SpecOperand::Integer(a as i64));
            assert(seq![b] + (seq![r] + spec_u64_to_le_bytes(a)) =~= inst.encoding());
        },
        Instruction::Jmp(t) => {
            assert(((t as i64) as u64) == t) by (bit_vector)
                requires
                    t <= 0x7FFF_FFFF_FFFF_FFFFu64,
            ;
            assert(inst_v.operands[0] == SpecOperand::Integer(t as i64));
            assert(seq![b] + spec_u64_to_le_bytes(t) =~= inst.encoding());
        },
        Instruction::Jz(t) => {
            assert(((t as i64) as u64) == t) by (bit_vector)
                requires
                    t <= 0x7FFF_FFFF_FFFF_FFFFu64,
            ;
            assert(inst_v.operands[0] == SpecOperand::Integer(t as i64));
            assert(seq![b] + spec_u64_to_le_bytes(t) =~= inst.encoding());
        },
        Instruction::Jnz(t) => {
            assert(((t as i64) as u64) == t) by (bit_vector)
                requires
                    t <= 0x7FFF_FFFF_FFFF_FFFFu64,
            ;
            assert(inst_v.operands[0] == SpecOperand::Integer(t as i64));
            assert(seq![b] + spec_u64_to_le_bytes(t) =~= inst.encoding());
        },
        _ => {},
    }
}

proof fn lemma_size(inst: Instruction)
    ensures
        size_of(inst.opcode()) == inst.encoding().len(),
{
    lemma_auto_spec_u64_to_from_le_bytes();
    match inst {
        Instruction::Jmp(t) => assert(spec_u64_to_le_bytes(t).len() == 8),
        Instruction::Jz(t) => assert(spec_u64_to_le_bytes(t).len() == 8),
        Instruction::Jnz(t) => assert(spec_u64_to_le_bytes(t).len() == 8),
        Instruction::Push(_, v) => assert(spec_u64_to_le_bytes(v as u64).len() == 8),
        Instruction::Load(_, a) => assert(spec_u64_to_le_bytes(a).len() == 8),
        Instruction::Store(_, a) => assert(spec_u64_to_le_bytes(a).len() == 8),
        _ => {},
    }
}

/// The parsed program holds the listed instructions, in order.
pub open spec fn holds_items(prog: SpecProgram, items: Seq<(nat, Instruction)>) -> bool {
    &&& prog.instructions.len() == items.len()
    &&& forall|j: int|
        0 <= j < items.len() ==> (#[trigger] prog.instructions[j]).opcode == mnemonic_word(
            items[j].1,
        ) && prog.instructions[j].operands == operand_values(items[j].1)
}

/// Where the binary forms of the items end.
pub open spec fn items_end(items: Seq<(nat, Instruction)>) -> nat {
    if items.len() == 0 {
        0
    } else {
        items.last().0 + items.last().1.encoding().len()
    }
}

/// The offset of item `j`, or the end after the last item.
pub open spec fn item_pos(items: Seq<(nat, Instruction)>, j: int) -> nat {
    if j < items.len() {
        items[j].0
    } else {
        items_end(items)
    }
}

proof fn lemma_layout_items(prog: SpecProgram, items: Seq<(nat, Instruction)>, k: nat)
    requires
        holds_items(prog, items),
        all_reassemblable(items),
        consecutive(items),
        items.len() > 0 ==> items[0].0 == 0,
        k <= items.len(),
    ensures
        layout(prog.instructions.take(k as int)) == Ok::<Seq<nat>, Seq<char>>(
            Seq::new(k + 1, |j: int| item_pos(items, j)),
        ),
    decreases k,
{
    let insts = prog.instructions.take(k as int);
    if k == 0 {
        assert(Seq::new(1, |j: int| item_pos(items, j)) =~= seq![0nat]);
    } else {
        lemma_layout_items(prog, items, (k - 1) as nat);
        assert(insts.drop_last() =~= prog.instructions.take(k - 1));
        let i = k - 1;
        let inst = items[i].1;
        assert(reassemblable_inst(inst));
        assert(insts.last() == prog.instructions[i]);
        lemma_mnemonic_opcode(inst);
        lemma_size(inst);
        let prev = Seq::new(k as nat, |j: int| item_pos(items, j));
        assert(prev.last() == items[i].0);
        if k < items.len() {
            assert(items[i + 1].0 == items[i].0 + items[i].1.encoding().len());
        }
        assert(prev.push(prev.last() + size_of(inst.opcode())) =~= Seq::new(
            k + 1,
            |j: int| item_pos(items, j),
        ));
    }
}

proof fn lemma_enc_concat_push(xs: Seq<(nat, Instruction)>, x: (nat, Instruction))
    ensures
        enc_concat(xs.push(x)) == enc_concat(xs) + x.1.encoding(),
    decreases xs.len(),
{
    if xs.len() == 0 {
        assert(xs.push(x).drop_first() =~= Seq::<(nat, Instruction)>::empty());
        assert(enc_concat(xs.push(x).drop_first()) =~= Seq::<u8>::empty());
        assert(enc_concat(xs.push(x)) =~= enc_concat(xs) + x.1.encoding());
    } else {
        lemma_enc_concat_push(xs.drop_first(), x);
        assert(xs.push(x).drop_first() =~= xs.drop_first().push(x));
        assert(enc_concat(xs.push(x)) =~= enc_concat(xs) + x.1.encoding());
    }
}

proof fn lemma_emit_items(prog: SpecProgram, items: Seq<(nat, Instruction)>, offs: Seq<nat>, k: nat)
    requires
        holds_items(prog, items),
        all_reassemblable(items),
        k <= items.len(),
    ensures
        emit_prefix(prog, offs, k) == Emit::Bytes(enc_concat(items.take(k as int))),
    decreases k,
{
    if k == 0 {
        assert(items.take(0) =~= Seq::<(nat, Instruction)>::empty());
    } else {
        let i = k - 1;
        lemma_emit_items(prog, items, offs, i as nat);
        let inst = items[i].1;
        assert(reassemblable_inst(inst));
        lemma_mnemonic_opcode(inst);
        lemma_emit_instruction(prog.instructions[i], inst, prog.labels, offs);
        assert(items.take(k as int) =~= items.take(i).push(items[i]));
        lemma_enc_concat_push(items.take(i), items[i]);
    }
}

proof fn lemma_encode_items(prog: SpecProgram, items: Seq<(nat, Instruction)>)
    requires
        holds_items(prog, items),
        all_reassemblable(items),
        consecutive(items),
        items.len() > 0 ==> items[0].0 == 0,
        items.len() <= usize::MAX / 10,
    ensures
        spec_encode(prog) == Emit::Bytes(enc_concat(items)),
{
    let n = items.len();
    lemma_layout_items(prog, items, n);
    assert(prog.instructions.take(n as int) =~= prog.instructions);
    let offs = Seq::new(n + 1, |j: int| item_pos(items, j));
    lemma_emit_items(prog, items, offs, n);
    assert(items.take(n as int) =~= items);
}

proof fn lemma_consecutive_increasing(items: Seq<(nat, Instruction)>)
    requires
        consecutive(items),
    ensures
        offsets_increasing(items),
{
    assert forall|i: int, j: int| 0 <= i < j < items.len() implies (#[trigger] items[i]).0 < (
    #[trigger] items[j]).0 by {
        lemma_consecutive_gap(items, i, j);
    }
}

proof fn lemma_consecutive_gap(items: Seq<(nat, Instruction)>, i: int, j: int)
    requires
        consecutive(items),
        0 <= i < j < items.len(),
    ensures
        items[i].0 + (j - i) <= items[j].0,
    decreases j - i,
{
    let k = j - 1;
    assert(items[k + 1].0 == items[k].0 + items[k].1.encoding().len());
    assert(items[k].1.encoding().len() >= 1);
    if i < k {
        lemma_consecutive_gap(items, i, k);
    }
}

// ---------------------------------------------------------------------------
// The law
// ---------------------------------------------------------------------------

/// Disassembling an instruction stream and assembling the listing gives
/// back the header followed by exactly the bytes that were listed: the whole
/// stream, or the stream up to and including its first `halt`.
///
/// This holds for every stream that disassembles, whose instructions the
/// assembly language can express (it has no mnemonic for the system trap,
/// and reads jump targets and memory addresses as signed 64-bit literals),
/// and whose length is below the encoder's limit on program size.
pub proof fn law_disassembly_reassembles(b: Seq<u8>)
    requires
        reassemblable(b, 0),
        b.len() <= usize::MAX / 10,
    ensures
        spec_disassemble(b) matches Ok(text) && spec_compile(text) == Emit::Bytes(
            header_bytes() + b.subrange(0, listed_end(b, 0) as int),
        ),
{
    let items = listed(b, 0);
    let ts = lemma_lex_listing(b);
    let text = spec_disassemble(b)->Ok_0;
    let ik = items_kinds(items);
    let ks = seq![SpecTokenKind::NewLine, SpecTokenKind::NewLine] + ik + seq![SpecTokenKind::EOF];
    assert(kinds_of(ts) == ks);
    assert(ts.len() == ks.len());
    assert forall|j: int| 0 <= j < ts.len() implies #[trigger] ts[j].kind == ks[j] by {
        assert(kinds_of(ts)[j] == ts[j].kind);
    }
    let empty = SpecProgram { instructions: Seq::empty(), labels: Seq::empty() };
    assert(ts[0].kind == ks[0]);
    assert(ts[1].kind == ks[1]);
    assert(parse_from(ts, 0, empty) == parse_from(ts, 1, empty));
    assert(parse_from(ts, 1, empty) == parse_from(ts, 2, empty));
    lemma_listed_reassemblable(b, 0);
    lemma_listed_shape(b, 0);
    lemma_listed_consecutive(b, 0);
    lemma_listed_enc(b, 0);
    lemma_consecutive_increasing(items);
    assert(kinds_at(ts, 2, ik)) by {
        assert forall|j: int| 0 <= j < ik.len() implies #[trigger] ts[2 + j].kind == ik[j] by {
            assert(ts[2 + j].kind == ks[2 + j]);
        }
    }
    assert(ts[2 + ik.len() as int].kind == ks[2 + ik.len() as int]);
    lemma_parse_items(ts, 2, empty, items);
    let prog = prog_after(ts, 2, empty, items);
    assert(spec_parse(ts) == Ok::<SpecProgram, Seq<char>>(prog));
    lemma_prog_after(ts, 2, empty, items);
    assert(holds_items(prog, items)) by {
        assert forall|j: int| 0 <= j < items.len() implies (#[trigger] prog.instructions[j]).opcode
            == mnemonic_word(items[j].1) && prog.instructions[j].operands == operand_values(
            items[j].1,
        ) by {
            assert(prog.instructions[0 + j] == prog.instructions[j]);
        }
    }
    lemma_encode_items(prog, items);
}

/// A compiled program whose instruction stream the listing covers to its end
/// assembles again, from its own disassembly, to the same output.
pub proof fn law_compile_disassemble_compile(src: Seq<char>, body: Seq<u8>)
    requires
        spec_compile(src) == Emit::Bytes(header_bytes() + body),
        reassemblable(body, 0),
        listed_end(body, 0) == body.len(),
        body.len() <= usize::MAX / 10,
    ensures
        spec_disassemble(body) matches Ok(text) && spec_compile(text) == spec_compile(src),
{
    law_disassembly_reassembles(body);
    assert(body.subrange(0, body.len() as int) =~= body);
}

// ---------------------------------------------------------------------------
// What the assembler emits can be listed and written back
// ---------------------------------------------------------------------------

/// An integer operand is not negative; other operands pass.
pub open spec fn integer_not_negative(o: SpecOperand) -> bool {
    match o {
        SpecOperand::Integer(v) => v >= 0,
        _ => true,
    }
}

/// The operands of a parsed instruction that the listing writes back as
/// signed literals are not negative: integer jump targets, and the memory
/// addresses of `load` and `store`.
pub open spec fn operands_in_range(inst: SpecInstruction) -> bool {
    let op = spec_mnemonic(inst.opcode);
    &&& (op == Some(Opcode::Jmp) || op == Some(Opcode::Jz) || op == Some(Opcode::Jnz)) ==> (
    inst.operands.len() > 0 ==> integer_not_negative(inst.operands[0]))
    &&& (op == Some(Opcode::Load) || op == Some(Opcode::Store)) ==> (inst.operands.len() > 1
        ==> integer_not_negative(inst.operands[1]))
}

/// `halt` stands, if anywhere, only as the last instruction.
pub open spec fn halt_only_last(insts: Seq<SpecInstruction>) -> bool {
    forall|k: int|
        0 <= k < insts.len() - 1 ==> spec_mnemonic(#[trigger] insts[k].opcode) != Some(
            Opcode::Halt,
        )
}

/// The binary form one instruction emits, when it emits one: the opcode byte,
/// then operand bytes of the opcode's operand length, and the instruction they
/// decode to can be written back.
proof fn lemma_emit_shape(
    inst: SpecInstruction,
    op: Opcode,
    labels: Seq<(Seq<char>, nat)>,
    offs: Seq<nat>,
    bound: nat,
)
    requires
        emit_instruction(inst, op, labels, offs) is Bytes,
        spec_mnemonic(inst.opcode) == Some(op),
        operands_in_range(inst),
        forall|j: int| 0 <= j < offs.len() ==> #[trigger] offs[j] <= bound,
        bound <= 0x7FFF_FFFF_FFFF_FFFF,
    ensures
        ({
            let e = emit_instruction(inst, op, labels, offs)->Bytes_0;
            let i = instruction_from(op, e.subrange(1, e.len() as int));
            &&& e.len() == 1 + op.operand_len()
            &&& e[0] == op.byte()
            &&& reassemblable_inst(i)
            &&& (i is Halt <==> op is Halt)
        }),
{
    lemma_auto_spec_u64_to_from_le_bytes();
    let e = emit_instruction(inst, op, labels, offs)->Bytes_0;
    let b = op.byte();
    assert(op != Opcode::Syscall);
    match op {
        Opcode::Pop => {
            let r = emit_register(inst.operands[0], inst)->Bytes_0;
            assert(e == seq![b] + r);
            assert(r.len() == 1);
        },
        Opcode::Push | Opcode::Load | Opcode::Store => {
            let r = emit_register(inst.operands[0], inst)->Bytes_0;
            let m = emit_immediate(inst.operands[1], inst)->Bytes_0;
            assert(e == seq![b] + (r + m));
            assert(r.len() == 1);
            let v = inst.operands[1]->Integer_0;
            assert(m == spec_u64_to_le_bytes(v as u64));
            assert(e.subrange(1, e.len() as int).subrange(1, 9) =~= m);
            if op is Load || op is Store {
                assert(v >= 0);
                assert((v as u64) <= 0x7FFF_FFFF_FFFF_FFFFu64) by (bit_vector)
                    requires
                        v >= 0,
                ;
            }
        },
        Opcode::Jmp | Opcode::Jz | Opcode::Jnz => {
            let t = emit_target(inst.operands[0], inst, labels, offs)->Bytes_0;
            assert(e == seq![b] + t);
            assert(e.subrange(1, e.len() as int) =~= t);
            match inst.operands[0] {
                SpecOperand::Integer(v) => {
                    assert(v >= 0);
                    assert((v as u64) <= 0x7FFF_FFFF_FFFF_FFFFu64) by (bit_vector)
                        requires
                            v >= 0,
                    ;
                },
                SpecOperand::LabelRef(l) => {
                    let a = label_address(labels, offs, l)->Some_0;
                    lemma_label_address_in(labels, offs, l);
                    assert(a <= bound);
                    assert(t == spec_u64_to_le_bytes(a as u64));
                },
                _ => {},
            }
        },
        _ => {
            assert(e == seq![b]);
        },
    }
}

proof fn lemma_label_address_in(labels: Seq<(Seq<char>, nat)>, offs: Seq<nat>, name: Seq<char>)
    ensures
        label_address(labels, offs, name) matches Some(a) ==> exists|j: int|
            0 <= j < offs.len() && #[trigger] offs[j] == a,
    decreases labels.len(),
{
    if labels.len() > 0 {
        lemma_label_address_in(labels.drop_last(), offs, name);
        if label_address(labels.drop_last(), offs, name) is None {
            let (n, idx) = labels.last();
            if n == name && idx < offs.len() {
                assert(offs[idx as int] == offs[idx as int]);
            }
        }
    }
}

/// What instruction `k` of a laid-out program emits.
pub open spec fn emitted_at(prog: SpecProgram, offs: Seq<nat>, k: int) -> Emit {
    let inst = prog.instructions[k];
    match spec_mnemonic(inst.opcode) {
        Some(op) => emit_instruction(inst, op, prog.labels, offs),
        None => Emit::Fail(crate::assembler::encoder::msg_unknown_opcode(inst)),
    }
}

proof fn lemma_emit_prefix_prefix(prog: SpecProgram, offs: Seq<nat>, k: nat, n: nat)
    requires
        k <= n <= prog.instructions.len(),
        emit_prefix(prog, offs, n) is Bytes,
    ensures
        emit_prefix(prog, offs, k) is Bytes,
        ({
            let bk = emit_prefix(prog, offs, k)->Bytes_0;
            let body = emit_prefix(prog, offs, n)->Bytes_0;
            bk.len() <= body.len() && body.subrange(0, bk.len() as int) == bk
        }),
        k < n ==> emitted_at(prog, offs, k as int) is Bytes && emit_prefix(prog, offs, k + 1)
            == Emit::Bytes(emit_prefix(prog, offs, k)->Bytes_0 + emitted_at(
            prog,
            offs,
            k as int,
        )->Bytes_0),
    decreases n - k,
{
    let body = emit_prefix(prog, offs, n)->Bytes_0;
    if k == n {
        assert(body.subrange(0, body.len() as int) =~= body);
    } else {
        lemma_emit_prefix_prefix(prog, offs, k + 1, n);
        let b1 = emit_prefix(prog, offs, k + 1)->Bytes_0;
        assert(emit_prefix(prog, offs, k + 1) == emit_then(
            emit_prefix(prog, offs, k),
            emitted_at(prog, offs, k as int),
        ));
        let bk = emit_prefix(prog, offs, k)->Bytes_0;
        let ek = emitted_at(prog, offs, k as int)->Bytes_0;
        assert(b1 == bk + ek);
        assert(body.subrange(0, bk.len() as int) =~= b1.subrange(0, bk.len() as int));
        assert(b1.subrange(0, bk.len() as int) =~= bk);
    }
}

/// The conditions of the law below, on a laid-out program.
pub open spec fn listable(prog: SpecProgram, offs: Seq<nat>) -> bool {
    &&& layout(prog.instructions) == Ok::<Seq<nat>, Seq<char>>(offs)
    &&& halt_only_last(prog.instructions)
    &&& forall|k: int|
        0 <= k < prog.instructions.len() ==> operands_in_range(#[trigger] prog.instructions[k])
    &&& offs.last() <= 0x7FFF_FFFF_FFFF_FFFF
}

proof fn lemma_offsets_below_last(insts: Seq<SpecInstruction>, offs: Seq<nat>)
    requires
        layout(insts) == Ok::<Seq<nat>, Seq<char>>(offs),
    ensures
        offs.len() == insts.len() + 1,
        forall|j: int| 0 <= j < offs.len() ==> #[trigger] offs[j] <= offs.last(),
{
    lemma_layout(insts);
    assert forall|j: int| 0 <= j < offs.len() implies #[trigger] offs[j] <= offs.last() by {
        lemma_offsets_mono(insts, offs, j, offs.len() - 1);
    }
}

proof fn lemma_offsets_mono(insts: Seq<SpecInstruction>, offs: Seq<nat>, i: int, j: int)
    requires
        layout(insts) == Ok::<Seq<nat>, Seq<char>>(offs),
        0 <= i <= j < offs.len(),
    ensures
        offs[i] <= offs[j],
    decreases j - i,
{
    lemma_layout(insts);
    if i < j {
        lemma_offsets_mono(insts, offs, i, j - 1);
        assert(offs[(j - 1) + 1] == offs[j - 1] + size_of(
            spec_mnemonic(insts[j - 1].opcode)->Some_0,
        ));
    }
}

proof fn lemma_emit_length(prog: SpecProgram, offs: Seq<nat>, k: nat)
    requires
        listable(prog, offs),
        k <= prog.instructions.len(),
        emit_prefix(prog, offs, k) is Bytes,
    ensures
        emit_prefix(prog, offs, k)->Bytes_0.len() == offs[k as int],
    decreases k,
{
    lemma_layout(prog.instructions);
    lemma_offsets_below_last(prog.instructions, offs);
    if k > 0 {
        let i = (k - 1) as nat;
        lemma_emit_prefix_prefix(prog, offs, i, k);
        lemma_emit_length(prog, offs, i);
        let inst = prog.instructions[i as int];
        let op = spec_mnemonic(inst.opcode)->Some_0;
        lemma_emit_shape(inst, op, prog.labels, offs, offs.last());
        assert(offs[i + 1int] == offs[i as int] + size_of(op));
    }
}

proof fn lemma_emitted_lists(prog: SpecProgram, offs: Seq<nat>, k: nat)
    requires
        listable(prog, offs),
        k <= prog.instructions.len(),
        emit_prefix(prog, offs, prog.instructions.len()) is Bytes,
    ensures
        ({
            let body = emit_prefix(prog, offs, prog.instructions.len())->Bytes_0;
            reassemblable(body, offs[k as int]) && listed_end(body, offs[k as int]) == body.len()
        }),
    decreases prog.instructions.len() - k,
{
    let n = prog.instructions.len();
    let body = emit_prefix(prog, offs, n)->Bytes_0;
    lemma_layout(prog.instructions);
    lemma_offsets_below_last(prog.instructions, offs);
    lemma_emit_length(prog, offs, n);
    if k < n {
        lemma_emit_prefix_prefix(prog, offs, k, n);
        lemma_emit_prefix_prefix(prog, offs, k + 1, n);
        lemma_emit_length(prog, offs, k);
        let inst = prog.instructions[k as int];
        let op = spec_mnemonic(inst.opcode)->Some_0;
        lemma_emit_shape(inst, op, prog.labels, offs, offs.last());
        let e = emitted_at(prog, offs, k as int)->Bytes_0;
        let bk = emit_prefix(prog, offs, k)->Bytes_0;
        let b1 = emit_prefix(prog, offs, k + 1)->Bytes_0;
        let off = offs[k as int];
        assert(b1 == bk + e);
        assert(offs[k + 1int] == off + size_of(op));
        assert(body.subrange(off as int, off + e.len() as int) =~= e) by {
            assert forall|i: int| 0 <= i < e.len() implies body.subrange(off as int, off + e.len() as int)[i]
                == e[i] by {
                assert(body.subrange(0, b1.len() as int)[off + i] == b1[off + i]);
            }
        }
        assert(body[off as int] == e[0]);
        law_opcode_byte_roundtrip(op, e[0]);
        assert(body.subrange(off + 1int, off + 1 + op.operand_len() as int) =~= e.subrange(1, e.len() as int));
        let i = instruction_from(op, e.subrange(1, e.len() as int));
        assert(decode_at(body, off as int) == DecodeStep::Decoded(i, 1 + op.operand_len()));
        if !(op is Halt) {
            lemma_emitted_lists(prog, offs, k + 1);
        } else {
            assert(k == n - 1) by {
                if k < n - 1 {
                    assert(spec_mnemonic(prog.instructions[k as int].opcode) != Some(Opcode::Halt));
                }
            }
        }
    }
}

/// A source that assembles, whose parsed program has `halt` at most as its
/// last instruction and no negative integer jump target or memory address,
/// and that has at most `usize::MAX / 100` instructions, assembles to an
/// instruction stream that the disassembler lists completely and that
/// assembles again, from that listing, to the same output.
pub proof fn law_source_roundtrip(src: Seq<char>)
    requires
        spec_compile(src) is Bytes,
        lex_all(src, lex_start()) matches Ok(toks) && spec_parse(toks) matches Ok(prog) && {
            &&& halt_only_last(prog.instructions)
            &&& forall|k: int|
                0 <= k < prog.instructions.len() ==> operands_in_range(
                    #[trigger] prog.instructions[k],
                )
            &&& prog.instructions.len() <= usize::MAX / 100
        },
    ensures
        ({
            let a = spec_compile(src)->Bytes_0;
            let body = a.subrange(6, a.len() as int);
            &&& a == header_bytes() + body
            &&& reassemblable(body, 0)
            &&& listed_end(body, 0) == body.len()
            &&& spec_disassemble(body) matches Ok(text) && spec_compile(text) == spec_compile(src)
        }),
{
    let toks = lex_all(src, lex_start())->Ok_0;
    let prog = spec_parse(toks)->Ok_0;
    let n = prog.instructions.len();
    let offs = layout(prog.instructions)->Ok_0;
    let body = emit_prefix(prog, offs, n)->Bytes_0;
    let a = spec_compile(src)->Bytes_0;
    assert(a == header_bytes() + body);
    assert(a.subrange(6, a.len() as int) =~= body);
    lemma_layout(prog.instructions);
    assert(offs.last() <= 0x7FFF_FFFF_FFFF_FFFF);
    lemma_emitted_lists(prog, offs, 0);
    lemma_emit_length(prog, offs, n);
    law_compile_disassemble_compile(src, body);
}

} // verus!

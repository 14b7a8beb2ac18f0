//! System traps: decoding a trap vector and doing the machine's part of the
//! trap. What a trap reads or prints is handed back as a request for the
//! caller to carry out.

use vstd::prelude::*;
use crate::error::{MiniVmError, Result};
use crate::text::{
    dec_int, dec_nat, hex_padded, pad_right, push_dec_i64, push_dec_u64, push_hex_padded,
    push_repeat, push_str, chars_of, parse_i64_dec, spec_parse_i64, dec_width,
    lemma_dec_int_parses_back, lemma_dec_nat_reads_back, is_dec_digit,
};
use crate::vm::cpu::{Cpu, CpuState, NUM_REGISTERS};
use crate::vm::stack::{spec_pop, spec_push};

verus! {

#[derive(Debug, Clone, Copy, PartialEq, Eq, Structural)]
pub enum TrapCode {
    PrintInt,
    PrintChar,
    ReadInt,
    DumpRegs,
}

impl TrapCode {
    pub open spec fn spec_from_u8(value: u8) -> Option<TrapCode> {
        if value == 0x01 {
            Some(TrapCode::PrintInt)
        } else if value == 0x02 {
            Some(TrapCode::PrintChar)
        } else if value == 0x03 {
            Some(TrapCode::ReadInt)
        } else if value == 0x04 {
            Some(TrapCode::DumpRegs)
        } else {
            None
        }
    }

    pub fn from_u8(value: u8) -> (r: Option<Self>)
        ensures
            r == Self::spec_from_u8(value),
    {
        match value {
            0x01 => Some(TrapCode::PrintInt),
            0x02 => Some(TrapCode::PrintChar),
            0x03 => Some(TrapCode::ReadInt),
            0x04 => Some(TrapCode::DumpRegs),
            _ => None,
        }
    }
}

/// What the caller is to do to complete a trap.
pub enum TrapRequest {
    /// Print this integer.
    PrintInt(i64),
    /// Print this character.
    PrintChar(char),
    /// Read a line of input and hand it to `complete_read_int`.
    ReadInt,
    /// Print this register dump.
    DumpRegs(String),
}

pub open spec fn msg_bad_trap(trap: u8, pc: usize) -> Seq<char> {
    "Runtime Exception: Triggered undefined or malformed system trap vector '0x"@ + hex_padded(
        trap as nat,
        2,
    ) + "' at PC address 0x"@ + hex_padded(pc as nat, 4)
}

pub open spec fn msg_bad_char(v: i64) -> Seq<char> {
    "Runtime Exception: Invalid Unicode character scalar conversion attempt for value '"@
        + dec_int(v as int) + "'"@
}

pub open spec fn msg_bad_input() -> Seq<char> {
    "Runtime Exception: Invalid integer literal provided on standard input stream."@
}

/// A 32-bit value is a Unicode scalar value.
pub open spec fn is_char_scalar(u: u32) -> bool {
    u < 0xD800 || (0xE000 <= u && u <= 0x10FFFF)
}

/// Character with a given scalar value.
/// Trusted: calls `char::from_u32`, which gives the character exactly for
/// Unicode scalar values (below 0xD800, or 0xE000 through 0x10FFFF).
#[verifier::external_body]
fn char_from_u32(u: u32) -> (r: Option<char>)
    ensures
        r is Some <==> is_char_scalar(u),
        r matches Some(c) ==> c as u32 == u,
{
    char::from_u32(u)
}

/// One register of the dump: `rN: 0xHHHHHHHHHHHHHHHH (value)  `, the id
/// left-aligned in two columns and the value in ten.
pub open spec fn dump_entry(i: nat, v: i64) -> Seq<char> {
    "r"@ + pad_right(dec_nat(i), 2) + ": 0x"@ + hex_padded((v as u64) as nat, 16) + " ("@
        + pad_right(dec_int(v as int), 10) + ")  "@
}

/// The register entries from `i` on, two per line.
pub open spec fn dump_entries(regs: Seq<i64>, i: nat) -> Seq<char>
    decreases regs.len() - i,
{
    if i >= regs.len() {
        Seq::empty()
    } else {
        dump_entry(i, regs[i as int]) + (if (i + 1) % 2 == 0 {
            "\n"@
        } else {
            Seq::empty()
        }) + dump_entries(regs, i + 1)
    }
}

/// The register dump printed for the dump trap.
pub open spec fn dump_text(s: CpuState) -> Seq<char> {
    "\n--- [CPU REGISTER DIAGNOSTIC DUMP] ---\n"@ + dump_entries(s.registers, 0) + "pc : 0x"@
        + hex_padded(s.pc as nat, 4) + "               sp : "@ + dec_nat(s.stack.len()) + "\n"@
        + "---------------------------------------\n\n"@
}

fn push_pad_right_dec_u64(out: &mut String, n: u64, w: usize)
    ensures
        final(out)@ == old(out)@ + pad_right(dec_nat(n as nat), w as nat),
{
    let k = dec_width(n);
    push_dec_u64(out, n);
    if k < w {
        push_repeat(out, ' ', w - k);
    }
    assert(final(out)@ =~= old(out)@ + pad_right(dec_nat(n as nat), w as nat));
}

fn push_pad_right_dec_i64(out: &mut String, v: i64, w: usize)
    ensures
        final(out)@ == old(out)@ + pad_right(dec_int(v as int), w as nat),
{
    let mut s = String::new();
    push_dec_i64(&mut s, v);
    let k = if v < 0 {
        let m: u64 = if v == i64::MIN {
            9223372036854775808u64
        } else {
            (-v) as u64
        };
        dec_width(m) + 1
    } else {
        dec_width(v as u64)
    };
    assert(s@ =~= dec_int(v as int));
    out.append(s.as_str());
    if k < w {
        push_repeat(out, ' ', w - k);
    }
    assert(final(out)@ =~= old(out)@ + pad_right(dec_int(v as int), w as nat));
}

/// Renders the register dump.
pub fn register_dump(cpu: &Cpu) -> (s: String)
    ensures
        s@ == dump_text(cpu.state()),
{
    let mut out = String::from_str("\n--- [CPU REGISTER DIAGNOSTIC DUMP] ---\n");
    let ghost regs = cpu.registers@;
    let ghost head = out@;
    let mut i: usize = 0;
    while i < NUM_REGISTERS
        invariant
            i <= NUM_REGISTERS,
            regs == cpu.registers@,
            regs.len() == NUM_REGISTERS,
            out@ + dump_entries(regs, i as nat) == head + dump_entries(regs, 0),
        decreases NUM_REGISTERS - i,
    {
        let ghost before = out@;
        let v = cpu.registers[i];
        push_str(&mut out, "r");
        push_pad_right_dec_u64(&mut out, i as u64, 2);
        push_str(&mut out, ": 0x");
        push_hex_padded(&mut out, v as u64, 16);
        push_str(&mut out, " (");
        push_pad_right_dec_i64(&mut out, v, 10);
        push_str(&mut out, ")  ");
        if (i + 1) % 2 == 0 {
            push_str(&mut out, "\n");
        }
        proof {
            let nl = if (i + 1) % 2 == 0 {
                "\n"@
            } else {
                Seq::<char>::empty()
            };
            assert(out@ =~= before + dump_entry(i as nat, v) + nl);
            assert(dump_entries(regs, i as nat) == dump_entry(i as nat, v) + nl + dump_entries(
                regs,
                (i + 1) as nat,
            ));
            assert(out@ + dump_entries(regs, (i + 1) as nat) =~= before + dump_entries(
                regs,
                i as nat,
            ));
        }
        i = i + 1;
    }
    assert(dump_entries(regs, NUM_REGISTERS as nat) == Seq::<char>::empty());
    assert(out@ =~= head + dump_entries(regs, 0));
    push_str(&mut out, "pc : 0x");
    push_hex_padded(&mut out, cpu.pc as u64, 4);
    push_str(&mut out, "               sp : ");
    push_dec_u64(&mut out, cpu.stack.len() as u64);
    push_str(&mut out, "\n");
    push_str(&mut out, "---------------------------------------\n\n");
    assert(out@ =~= dump_text(cpu.state()));
    out
}

/// Does the machine's part of trap `trap_byte`: decodes the vector and,
/// where the trap consumes a value, pops it. The request tells the caller
/// what to print or read.
pub fn handle_trap(trap_byte: u8, cpu: &mut Cpu) -> (r: Result<TrapRequest>)
    ensures
        final(cpu).state().registers == old(cpu).state().registers,
        final(cpu).state().pc == old(cpu).state().pc,
        final(cpu).state().globals == old(cpu).state().globals,
        final(cpu).state().capacity == old(cpu).state().capacity,
        match TrapCode::spec_from_u8(trap_byte) {
            None => (r matches Err(e) && e.is_generic(msg_bad_trap(trap_byte, old(cpu).pc)))
                && final(cpu).state() == old(cpu).state(),
            Some(TrapCode::ReadInt) => r matches Ok(TrapRequest::ReadInt) && final(cpu).state()
                == old(cpu).state(),
            Some(TrapCode::DumpRegs) => (r matches Ok(TrapRequest::DumpRegs(t)) && t@ == dump_text(
                old(cpu).state(),
            )) && final(cpu).state() == old(cpu).state(),
            Some(code) => match spec_pop(old(cpu).state().stack) {
                Err(m) => (r matches Err(e) && e.is_generic(m)) && final(cpu).state() == old(
                    cpu,
                ).state(),
                Ok((v, rest)) => final(cpu).state() == (CpuState { stack: rest, ..old(cpu).state() })
                    && if code is PrintInt {
                    r matches Ok(TrapRequest::PrintInt(x)) && x == v
                } else if is_char_scalar(v as u32) {
                    r matches Ok(TrapRequest::PrintChar(c)) && c as u32 == v as u32
                } else {
                    r matches Err(e) && e.is_generic(msg_bad_char(v))
                },
            },
        },
{
    let trap = match TrapCode::from_u8(trap_byte) {
        Some(t) => t,
        None => {
            let mut m = String::from_str(
                "Runtime Exception: Triggered undefined or malformed system trap vector '0x",
            );
            push_hex_padded(&mut m, trap_byte as u64, 2);
            push_str(&mut m, "' at PC address 0x");
            push_hex_padded(&mut m, cpu.pc as u64, 4);
            return Err(MiniVmError::Generic(m));
        },
    };
    match trap {
        TrapCode::PrintInt => {
            let val = cpu.stack.pop()?;
            Ok(TrapRequest::PrintInt(val))
        },
        TrapCode::PrintChar => {
            let val = cpu.stack.pop()?;
            match char_from_u32(val as u32) {
                Some(c) => Ok(TrapRequest::PrintChar(c)),
                None => {
                    let mut m = String::from_str(
                        "Runtime Exception: Invalid Unicode character scalar conversion attempt for value '",
                    );
                    push_dec_i64(&mut m, val);
                    push_str(&mut m, "'");
                    Err(MiniVmError::Generic(m))
                },
            }
        },
        TrapCode::ReadInt => Ok(TrapRequest::ReadInt),
        TrapCode::DumpRegs => Ok(TrapRequest::DumpRegs(register_dump(cpu))),
    }
}

/// `char::is_whitespace`: the characters with the Unicode White_Space property.
pub open spec fn is_whitespace(c: char) -> bool {
    let u = c as u32;
    (0x09 <= u && u <= 0x0D) || u == 0x20 || u == 0x85 || u == 0xA0 || u == 0x1680 || (0x2000 <= u
        && u <= 0x200A) || u == 0x2028 || u == 0x2029 || u == 0x202F || u == 0x205F || u == 0x3000
}

/// Position of the first character at or after `i` that is not whitespace, or the end.
pub open spec fn trim_start_at(s: Seq<char>, i: nat) -> nat
    decreases s.len() - i,
{
    if i >= s.len() || !is_whitespace(s[i as int]) {
        i
    } else {
        trim_start_at(s, i + 1)
    }
}

/// Position just after the last character before `j` that is not whitespace, or `lo`.
pub open spec fn trim_end_at(s: Seq<char>, lo: nat, j: nat) -> nat
    decreases j,
{
    if j <= lo || j > s.len() || !is_whitespace(s[j - 1]) {
        j
    } else {
        trim_end_at(s, lo, (j - 1) as nat)
    }
}

/// `str::trim`: the text without leading and trailing whitespace.
pub open spec fn trimmed(s: Seq<char>) -> Seq<char> {
    let a = trim_start_at(s, 0);
    s.subrange(a as int, trim_end_at(s, a, s.len()) as int)
}

fn is_whitespace_exec(c: char) -> (r: bool)
    ensures
        r == is_whitespace(c),
{
    let u = c as u32;
    (0x09 <= u && u <= 0x0D) || u == 0x20 || u == 0x85 || u == 0xA0 || u == 0x1680 || (0x2000 <= u
        && u <= 0x200A) || u == 0x2028 || u == 0x2029 || u == 0x202F || u == 0x205F || u == 0x3000
}

/// Completes the read trap with the line of input that was read: the
/// trimmed line must be an integer literal, which is pushed.
pub fn complete_read_int(cpu: &mut Cpu, input: &str) -> (r: Result<()>)
    ensures
        final(cpu).state().registers == old(cpu).state().registers,
        final(cpu).state().pc == old(cpu).state().pc,
        final(cpu).state().globals == old(cpu).state().globals,
        final(cpu).state().capacity == old(cpu).state().capacity,
        match spec_parse_i64(trimmed(input@)) {
            None => (r matches Err(e) && e.is_generic(msg_bad_input())) && final(cpu).state()
                == old(cpu).state(),
            Some(v) => match spec_push(old(cpu).state().stack, old(cpu).state().capacity as nat, v) {
                Ok(items) => r is Ok && final(cpu).state() == (CpuState {
                    stack: items,
                    ..old(cpu).state()
                }),
                Err(m) => (r matches Err(e) && e.is_generic(m)) && final(cpu).state() == old(
                    cpu,
                ).state(),
            },
        },
{
    let cs = chars_of(input);
    let ghost s = cs@;
    let mut a: usize = 0;
    while a < cs.len() && is_whitespace_exec(cs[a])
        invariant
            s == cs@,
            a <= cs@.len(),
            trim_start_at(s, a as nat) == trim_start_at(s, 0),
        decreases cs@.len() - a,
    {
        a = a + 1;
    }
    let mut b: usize = cs.len();
    while b > a && is_whitespace_exec(cs[b - 1])
        invariant
            s == cs@,
            a <= b <= cs@.len(),
            a == trim_start_at(s, 0),
            trim_end_at(s, a as nat, b as nat) == trim_end_at(s, a as nat, s.len()),
        decreases b,
    {
        b = b - 1;
    }
    let parsed = match parse_i64_dec(&cs, a, b) {
        Some(v) => v,
        None => {
            return Err(
                MiniVmError::Generic(
                    String::from_str(
                        "Runtime Exception: Invalid integer literal provided on standard input stream.",
                    ),
                ),
            );
        },
    };
    cpu.stack.push(parsed)?;
    Ok(())
}

/// An integer the print trap shows, typed back as a line of input, is what
/// the read trap pushes: the decimal text of `v`, with its line end, parses
/// back to `v`.
pub proof fn law_printed_integer_reads_back(v: i64)
    ensures
        spec_parse_i64(trimmed(dec_int(v as int) + seq!['\n'])) == Some(v),
{
    let t = dec_int(v as int);
    let s = t + seq!['\n'];
    let m: nat = if v < 0 { (-(v as int)) as nat } else { v as nat };
    lemma_dec_nat_reads_back(m);
    lemma_dec_int_parses_back(v);
    let d = dec_nat(m);
    assert(t == if v < 0 { seq!['-'] + d } else { d });
    assert(s[0] == t[0]);
    assert(!is_whitespace(s[0])) by {
        if v >= 0 {
            assert(is_dec_digit(d[0]));
        }
    }
    assert(trim_start_at(s, 0) == 0);
    let n = s.len();
    assert(s[n - 1] == '\n');
    assert(s[n - 2] == t[t.len() - 1]);
    assert(is_dec_digit(d[d.len() - 1]));
    assert(t[t.len() - 1] == d[d.len() - 1]);
    assert(trim_end_at(s, 0, (n - 1) as nat) == n - 1);
    assert(trim_end_at(s, 0, n) == n - 1);
    assert(s.subrange(0, n - 1) =~= t);
}

/// The ASCII white-space characters: space, tab, line feed, vertical tab,
/// form feed and carriage return.
pub open spec fn ascii_space(c: char) -> bool {
    c == ' ' || c == '\t' || c == '\n' || c == '\r' || c == '\x0B' || c == '\x0C'
}

proof fn lemma_trim_start(s: Seq<char>, i: nat, a: nat)
    requires
        i <= a < s.len(),
        forall|j: int| i <= j < a ==> ascii_space(#[trigger] s[j]),
        !is_whitespace(s[a as int]),
    ensures
        trim_start_at(s, i) == a,
    decreases a - i,
{
    if i < a {
        assert(ascii_space(s[i as int]));
        lemma_trim_start(s, i + 1, a);
    }
}

proof fn lemma_trim_end(s: Seq<char>, lo: nat, j: nat, b: nat)
    requires
        lo < b <= j <= s.len(),
        forall|k: int| b <= k < j ==> ascii_space(#[trigger] s[k]),
        !is_whitespace(s[b - 1]),
    ensures
        trim_end_at(s, lo, j) == b,
    decreases j,
{
    if b < j {
        assert(ascii_space(s[j - 1]));
        lemma_trim_end(s, lo, (j - 1) as nat, b);
    }
}

/// Trimming removes exactly the white space around a text: surrounded by
/// ASCII white space (spaces, tabs, carriage returns, line feeds, vertical
/// tabs, form feeds), a text that neither starts nor ends with white space
/// comes back unchanged.
pub proof fn law_trim_removes_surrounding_space(w1: Seq<char>, t: Seq<char>, w2: Seq<char>)
    requires
        t.len() > 0,
        !is_whitespace(t[0]),
        !is_whitespace(t.last()),
        forall|j: int| 0 <= j < w1.len() ==> ascii_space(#[trigger] w1[j]),
        forall|j: int| 0 <= j < w2.len() ==> ascii_space(#[trigger] w2[j]),
    ensures
        trimmed(w1 + t + w2) == t,
{
    let s = w1 + t + w2;
    let a = w1.len();
    let b = w1.len() + t.len();
    assert(s[a as int] == t[0]);
    assert(s[b - 1] == t.last());
    assert forall|j: int| 0 <= j < a implies ascii_space(#[trigger] s[j]) by {
        assert(s[j] == w1[j]);
    }
    lemma_trim_start(s, 0, a);
    assert forall|k: int| b <= k < s.len() implies ascii_space(#[trigger] s[k]) by {
        assert(s[k] == w2[k - b]);
    }
    lemma_trim_end(s, a, s.len(), b);
    assert(s.subrange(a as int, b as int) =~= t);
}

/// A line of input holding an integer's decimal text, with any ASCII white
/// space around it (such as a `\r\n` line end), reads back as that integer.
pub proof fn law_read_integer_with_spaces(w1: Seq<char>, v: i64, w2: Seq<char>)
    requires
        forall|j: int| 0 <= j < w1.len() ==> ascii_space(#[trigger] w1[j]),
        forall|j: int| 0 <= j < w2.len() ==> ascii_space(#[trigger] w2[j]),
    ensures
        spec_parse_i64(trimmed(w1 + dec_int(v as int) + w2)) == Some(v),
{
    let t = dec_int(v as int);
    let m: nat = if v < 0 { (-(v as int)) as nat } else { v as nat };
    lemma_dec_nat_reads_back(m);
    lemma_dec_int_parses_back(v);
    let d = dec_nat(m);
    assert(t == if v < 0 { seq!['-'] + d } else { d });
    assert(!is_whitespace(t[0])) by {
        if v >= 0 {
            assert(is_dec_digit(d[0]));
        }
    }
    assert(t.last() == d.last());
    assert(is_dec_digit(d[d.len() - 1]));
    law_trim_removes_surrounding_space(w1, t, w2);
}

} // verus!

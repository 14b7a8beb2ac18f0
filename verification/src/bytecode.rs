//! The binary bytecode container: a six-byte header (magic prefix and
//! version) followed by the instruction stream, and the opcode bytes.

use vstd::prelude::*;
use crate::error::{MiniVmError, Result};
use crate::text::{dec_nat, push_dec_u64, push_str};

verus! {

pub const MV_MAGIC: [u8; 4] = [0x00, 0x6D, 0x56, 0x4D];

pub const MV_VERSION_MAJOR: u8 = 1;

pub const MV_VERSION_MINOR: u8 = 0;

pub const OP_NOP: u8 = 0x00;

pub const OP_HALT: u8 = 0xFF;

pub const OP_ADD: u8 = 0x10;

pub const OP_SUB: u8 = 0x11;

pub const OP_MUL: u8 = 0x12;

pub const OP_DIV: u8 = 0x13;

pub const OP_RET: u8 = 0x14;

pub const OP_POP: u8 = 0x20;

pub const OP_PUSH: u8 = 0x21;

pub const OP_JMP: u8 = 0x30;

pub const OP_JZ: u8 = 0x31;

pub const OP_JNZ: u8 = 0x32;

pub const OP_LOAD: u8 = 0x40;

pub const OP_STORE: u8 = 0x41;

pub const OP_SYSCALL: u8 = 0x50;

/// The six header bytes: the magic prefix, then the major and minor version.
pub open spec fn header_bytes() -> Seq<u8> {
    seq![0x00u8, 0x6Du8, 0x56u8, 0x4Du8, 1u8, 0u8]
}

/// The first four bytes are the magic prefix.
pub open spec fn magic_ok(b: Seq<u8>) -> bool {
    b[0] == 0x00 && b[1] == 0x6D && b[2] == 0x56 && b[3] == 0x4D
}

pub open spec fn msg_too_short() -> Seq<char> {
    "Malformed binary: File data is too short to contain a valid header prefix."@
}

pub open spec fn msg_bad_magic() -> Seq<char> {
    "Validation Error: Invalid file magic prefix. Not a valid miniVM compiled asset."@
}

pub open spec fn msg_bad_version(found: u8) -> Seq<char> {
    "Compatibility Error: Unsupported binary layout major version (Expected v"@ + dec_nat(1)
        + ", found v"@ + dec_nat(found as nat) + ")"@
}

/// What `verify_header` answers for the bytes `b`: the offset of the
/// instruction stream, or the message of the first check that fails.
pub open spec fn spec_verify_header(b: Seq<u8>) -> std::result::Result<usize, Seq<char>> {
    if b.len() < 6 {
        Err(msg_too_short())
    } else if !magic_ok(b) {
        Err(msg_bad_magic())
    } else if b[4] != 1 {
        Err(msg_bad_version(b[4]))
    } else {
        Ok(6)
    }
}

/// Appends the header to `buffer`.
pub fn write_header(buffer: &mut Vec<u8>)
    ensures
        final(buffer)@ == old(buffer)@ + header_bytes(),
{
    buffer.push(MV_MAGIC[0]);
    buffer.push(MV_MAGIC[1]);
    buffer.push(MV_MAGIC[2]);
    buffer.push(MV_MAGIC[3]);
    buffer.push(MV_VERSION_MAJOR);
    buffer.push(MV_VERSION_MINOR);
    assert(buffer@ =~= old(buffer)@ + header_bytes());
}

/// Checks the header and gives the offset where the instruction stream starts.
/// Only the major version is checked; any minor version is accepted.
pub fn verify_header(bytes: &[u8]) -> (r: std::result::Result<usize, String>)
    ensures
        r is Ok <==> spec_verify_header(bytes@) is Ok,
        r matches Ok(n) ==> spec_verify_header(bytes@) == Ok::<usize, Seq<char>>(n),
        r matches Err(m) ==> spec_verify_header(bytes@) == Err::<usize, Seq<char>>(m@),
{
    if bytes.len() < 6 {
        return Err(String::from_str(
            "Malformed binary: File data is too short to contain a valid header prefix.",
        ));
    }
    if bytes[0] != MV_MAGIC[0] || bytes[1] != MV_MAGIC[1] || bytes[2] != MV_MAGIC[2] || bytes[3]
        != MV_MAGIC[3] {
        return Err(String::from_str(
            "Validation Error: Invalid file magic prefix. Not a valid miniVM compiled asset.",
        ));
    }
    if bytes[4] != MV_VERSION_MAJOR {
        let mut m = String::from_str(
            "Compatibility Error: Unsupported binary layout major version (Expected v",
        );
        push_dec_u64(&mut m, MV_VERSION_MAJOR as u64);
        push_str(&mut m, ", found v");
        push_dec_u64(&mut m, bytes[4] as u64);
        push_str(&mut m, ")");
        return Err(m);
    }
    Ok(6)
}

/// The instruction stream of a compiled file: the bytes after a valid header.
/// A header that fails its checks is reported as an invalid binary header.
pub fn executable_section(raw_bytes: &[u8]) -> (r: Result<&[u8]>)
    ensures
        match spec_verify_header(raw_bytes@) {
            Ok(n) => r matches Ok(b) && b@ == raw_bytes@.subrange(n as int, raw_bytes@.len() as int),
            Err(m) => r matches Err(MiniVmError::InvalidBinaryHeader(e)) && e@ == m,
        },
{
    match verify_header(raw_bytes) {
        Ok(offset) => Ok(vstd::slice::slice_subrange(raw_bytes, offset, raw_bytes.len())),
        Err(e) => Err(MiniVmError::InvalidBinaryHeader(e)),
    }
}

/// Checking a header that `write_header` wrote succeeds, whatever follows it,
/// and gives the offset just past the header.
pub proof fn law_header_roundtrip(rest: Seq<u8>)
    ensures
        spec_verify_header(header_bytes() + rest) == Ok::<usize, Seq<char>>(6),
{
    let b = header_bytes() + rest;
    assert(b[0] == 0x00 && b[1] == 0x6D && b[2] == 0x56 && b[3] == 0x4D && b[4] == 1);
}

} // verus!

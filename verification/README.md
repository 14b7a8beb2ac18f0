# minivm

A small virtual machine toolchain, verified with Verus: an assembler for a
line-oriented assembly language, a binary bytecode format (a six-byte header
and an instruction stream), a stack-based virtual CPU, and a disassembler.

## Layout

- `src/` — the verified library.
  - `text.rs`: decimal and hexadecimal rendering and parsing, with read-back lemmas.
  - `isa.rs`, `bytecode.rs`: opcodes, instructions, their binary forms, the header.
  - `assembler/`: lexer, parser, encoder and `compile`, each specified by a
    spec function of the whole input (`spec_next_token`, `spec_parse`,
    `spec_encode`, `spec_compile`); `diagnostics.rs` renders source excerpts.
  - `disassembler/`: the listing of an instruction stream (`spec_disassemble`).
  - `vm/`: decoder, stack, globals, CPU (`spec_execute`, `spec_run`), traps and tracing.
  - `reassembly.rs`: the proof that assembling a disassembly gives back the
    listed bytes (`law_disassembly_reassembles`).
  - `cli.rs`: the command-line options as plain values.
- `app/` — the `minivm` command: argument parsing, files, terminal output,
  and carrying out the input and output of system traps.
- `tests/` — tests of the library, run against the compiled crate.

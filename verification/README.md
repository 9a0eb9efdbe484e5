# decoder

An x86 / x86-64 instruction decoder with a verified core. Instructions are found by
walking a tree of opcode bytes built from instruction tables; prefixes, ModRM/SIB bytes,
immediates and addresses are read from the code that follows, and the result is formatted
as assembly text.

Layout:

- `src/` is the library, verified with Verus:
  - `text.rs`: string helpers and the calls into `regex` and `textwrap`.
  - `instruction_tree.rs`: opcode patterns, instruction tables, the opcode tree and the walk
    through it.
  - `decoder.rs` and `decoding.rs`: the cursor over the code, the decoding of one instruction
    and of a run of instructions, and the mathematical model they are proved against.
  - `format.rs`: registers, operands and responses as text.
  - `cli.rs`: command-line options, help text and interactive commands.
  - `executable.rs`: ELF and PE files read through `goblin`, sections and symbols.
  - `listing.rs`: the text listing of a decoded executable.
- `tests/` runs the library on concrete inputs.
- `app/` is the program around it: files, terminal, JSON, progress bar and the interactive
  session.

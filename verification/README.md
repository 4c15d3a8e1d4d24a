# livectf_forth

A compiler from a small Forth dialect to LiveCTF VM bytecode, and a
disassembler for that bytecode, written in Verus.

- `src/model.rs` states what compiling each token does, over an abstract
  compiler state (`CompilerModel`); `src/compiler.rs` is the executable
  compiler, proved to follow it exactly, error messages included.
- `src/lexer.rs` tokenizes and parses numbers; `src/encode.rs` holds the
  byte encodings; `src/disasm.rs` decodes, annotates and renders listings.
- `src/laws.rs` proves properties of the whole: every compile keeps the
  state's invariant, a forward call keeps its zero placeholder until its
  word is defined and then gets its address, the bootstrap calls `main`,
  back jumps land on their `begin`, literals decode to their value, number
  text round-trips, compiling in chunks equals compiling at once, and more.
- `app/` holds the command-line front ends (`fthc` compiles a file, the same
  binary run as `fthd` disassembles one).

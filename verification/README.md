# msysypi

A small compiler for SysY, a subset of C, written and verified with Verus.

SysY syntax trees are compiled to Eeyore, a three-address intermediate
language; Eeyore is translated into Tigger register instructions and RISC-V
assembly.

Layout of `src/`:

- `text.rs` — building text: numbers and strings into character vectors.
- `sysY/ast.rs` — the SysY syntax tree, its mathematical view and its text.
- `sysY/eval.rs` — constant values, reshaping of initializer lists (with
  the laws that an array is never overfilled and that a flat list reads
  back in row-major order), constant folding with scopes in which a
  variable hides the constants of its name, and leaving a scope undoes
  what was bound in it.
- `sysY/compile.rs` — compilation of a program into segments of Eeyore code
  with jump lists filled by labels, each block in a scope of its own; laws
  on segments, on the scopes and the
  label counter, and on the labels placed.
- `eeyore/inst.rs` — Eeyore instructions and their text.
- `eeyore/parser.rs` — reading Eeyore text back, with the laws that printed
  instructions read back as themselves, that joined texts read as the
  texts one after the other, and that a trailing comment changes nothing.
- `eeyore/trans.rs` — translation of Eeyore into Tigger / RISC-V assembly,
  with the law that locals get consecutive, non-overlapping stack slots.
- `tigger/inst.rs` — Tigger instructions, registers, function name table,
  and their text and assembly, with the law that every return leaves the
  frame its function entered.
- `tigger/parser.rs` — reading Tigger programs from text, with the laws
  that printed instructions and global definitions read back as
  themselves.

Each public function states in its contract what it returns, over spec
functions that describe the result directly. `app/main.rs` is the command
line driver.

# bitmaze

A tile game whose world is binary: a `.bm` level is a header, bitplanes for
walls, items and hazards, a trigger plane and a table of BitVM scripts. This
crate is its engine, written in Verus: every function in `src/` carries a
contract that Verus proves.

## Layout

- `src/format.rs`, `src/bytes.rs`: the `.bm` format, parsed and written; its
  round trips are proved in `src/format_laws.rs`.
- `src/vm.rs`: BitVM, a stack machine with a step budget, run against a host.
- `src/assembler.rs`: the two-pass assembler for BitVM scripts.
- `src/world.rs`: moves, collisions, items, hazards and triggers; the laws of
  play (a finished game stays finished, one-shot triggers fire once, replays
  are deterministic) are in `src/world_laws.rs`.
- `src/replay.rs`: `.rec` recordings of a run.
- `src/sprite.rs`, `src/framebuffer.rs`: 1-bit sprites and the RGBA frame and
  PPM screenshot drawn from a world.
- `src/dump.rs`, `src/check.rs`, `src/newlevel.rs`, `src/samples.rs`: the
  level debugger, the validator, the maze generator and the built-in levels.
- `src/play.rs`: the decisions of the terminal front end, one input line at a
  time; `src/keys.rs`: which key presses move the player in the window.
- `app/`: the command line, file I/O, the terminal loop and the minifb window.
- `tests/`: the test suite.

## The assembler's size

The assembler's design rule caps the language at a small, fixed instruction
set: when scripts get awkward, the fix is a new opcode, not a new language
feature. That rule was once guarded by a test that counted the lines of the
assembler's source file and failed above 300. Here the same file also holds
the assembler's specification (the grammar of a line, both passes) and the
proofs that the code meets it, so its line count no longer measures the
language, and no such guard is kept. The rule itself still holds, and is
visible in `src/assembler.rs`: the whole language is the spec functions
`simple_byte`, `instruction` and `line_kind`, and `assemble` is proved to
accept exactly what they describe.

# toasttta

A verified library for ToastTTA, a small transport-triggered architecture:
instruction encoding, a cycle-accurate machine model, and an assembler for
its `.tasm` language. The library's logic is verified with Verus against
contracts stated over mathematical models; the few calls into std that vstd
does not specify (turning a `char` or a shared file name into a `String`,
splitting text into lines, formatting a character for a message) sit behind
small `#[verifier::external_body]` wrappers whose contracts state what std's
documentation says of them.

## Layout

- `src/isa.rs`, `src/isa/` — socket numbers, guard codes, MMIO addresses.
- `src/encoding.rs` — `Slot` and `IWord` bit layouts; decode/encode round trips.
- `src/text.rs` — decimal and hexadecimal numerals.
- `src/image.rs` — program images (16 little-endian bytes per word) and their
  round trip.
- `src/machine.rs` — the machine: `step` is specified by `step_state` and
  `step_outputs` (snapshot, operand phase, trigger phase), `run` by
  `run_state` and `run_outputs`, with laws on halting, squashed words, PC
  update, snapshot reads and operand-before-trigger. Loads from the
  standard-input address take bytes queued by `feed_input`; `output_text`
  gives the text each output event prints.
- `src/lexer.rs` — the lexer, specified step by step by `lex_spec`, with laws
  on maximal identifiers and on the single final `Eof`.
- `src/parser.rs`, `src/parser/grammar.rs`, `src/parser/names.rs` — the parser,
  specified rule by rule by `parse_spec`, and the case-insensitive socket names.
- `src/encoder.rs`, `src/encoder/laws.rs` — the two-pass encoder and its laws:
  one word per cycle for every program; with no error, word `k` is cycle `k`
  encoded under the final symbol table;
  duplicate definitions, undefined references and broken cycle rules are
  rejected.
- `src/assembler.rs` — `assemble` = lex, parse, encode.
- `src/diag.rs`, `src/diag/render.rs` — diagnostics and their text rendering.
- `app/main.rs` — the command line: `run <program.bin>` runs an image on the
  machine and prints its output; `asm INPUT.tasm [-o OUTPUT.bin]` assembles.

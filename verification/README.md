# faun

A small compiler. Programs are written in barb, a typed functional language,
lowered to an IR of structured regions, and written out for one of three
targets: an x86-64 Linux executable, a WebAssembly module for WASI, or an image
for the 6502 simulator sim65.

- `src/barb`: the language. Parsing, printing, type inference, what a program
  means (`meaning.rs`), and what stays while one is built (`history.rs`).
- `src/ir`: the IR. Building it, validating it, lowering barb to it, what it
  computes (`machine.rs`), and that lowering keeps what a program means
  (`faithful.rs`, `fresh.rs`, `order.rs`). `history.rs` has what stays while a
  program is built.
- `src/targets`: the three targets. Each has a model of the machine it writes
  for (`machine.rs`, `flow.rs`), `faithful.rs` has that what is written leaves
  with what the program comes to, and `refusal.rs` that nothing is written for
  a program that asks for a routine there is not.
- `app`: the command line.
- `tests`: the library from outside. The programs each target writes are run on
  small interpreters of the three machines.

Every function of the library has a contract, and Verus proves it, but for three
calls into the standard library at the edges of `src/text.rs`, whose contracts
are taken as given. What holds across functions stands beside them as public
proof functions.

# snacc_compiler

The front end of the Snacc language, a statically typed ahead-of-time
language, with the pure decisions of its command-line tools. Every function
in `src/` is verified with Verus against the contract it states.

## Layout

- `src/text.rs`: verified string building (decimal spelling, appends).
- `src/ast.rs`, `src/lexer.rs`, `src/parser.rs`: tokens and syntax trees.
  The lexer's contract is exact: its tokens and errors are the maximal-munch
  lexemes of the source, in order.
- `src/types.rs`, `src/collect.rs`: the type table (nominal types, interned
  sums and boxes), declaration collection, value-layout cycles, and the
  equality and move-only fixed points.
- `src/checker.rs`, `src/expressions.rs`, `src/statements.rs`: type checking
  of expressions, places, moves, type tests and blocks.
- `src/lib.rs`: `parse` and `check` over source text, with byte-offset
  diagnostics.
- `src/tools.rs`, `src/cargo.rs`, `src/bridge.rs`: argument parsing and
  command decisions of `snacc` and `cargo snacc`, diagnostic rendering, and
  the bridge assertions a Rust host includes.
- `src/workbench.rs`: request heads, routing, run-request limits and
  diagnostic reports of the local workbench server.
- `src/digests.rs`: hex SHA-256 digests (through `sha2`) and session tokens
  (through `getrandom`).
- `src/lowering.rs`: what code generation reads off checked types.
- `app/main.rs`: the `snacc` command, which checks a file and reports its
  diagnostics with `ariadne`.

Native code generation (LLVM) is not part of this crate.

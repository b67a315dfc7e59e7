# ryo_frontend

The front end of the Ryo compiler as a verified library: the indentation
pass over the token stream, the lowering of the syntax tree to UIR, the
builtin-function registry, and the ownership pass over typed IR (TIR) that
reports use after move, moves out of borrowed parameters and returns of
borrowed values, and tells codegen where to free each heap-owned string.

Every function in `src/` is verified by Verus against its contract.

## Layout

- `src/types.rs`, `src/text.rs`, `src/diag.rs`, `src/vecmap.rs`: interned
  names and primitive types, small string helpers, diagnostics, and the
  insertion-ordered map the passes use for their tables.
- `src/indent.rs`: `INDENT` / `DEDENT` insertion and indentation checks.
- `src/builtins.rs`: the builtin functions and the names they reserve.
- `src/ast.rs`, `src/uir.rs`, `src/astgen.rs`: the syntax tree, the untyped
  IR, and the lowering between them, stated as an exact translation
  relation together with the diagnostics it emits.
- `src/tir.rs`, `src/builder.rs`: typed IR and a builder for it.
- `src/ownership/`: the ownership pass. `semantics.rs` and `flow.rs` state
  what the forward walk computes (expressions and straight-line statements
  as functions; `if` and loops as relations, since the order in which the
  joins visit their tables is not fixed); `pass.rs` holds the exit passes
  and `check`, whose contract is the whole pass over every function.
- `app/`: conversions between the library's spans and the parser's, and a
  guarded entry to the indentation pass.
- `tests/`: the behaviour of the passes on concrete programs.

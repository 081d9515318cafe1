# calculator

A small calculator made of three programs (a server that evaluates
arithmetic operations, a window in which they are typed, and a trace that
records them), built around a verified library.

- `src/` — the library, verified with Verus:
  - `common.rs`: tokens and expression trees, with their mathematical models;
  - `lexer.rs`: the tokenizer, specified by `lex` and proved lossless;
  - `parser.rs`: the recursive-descent parser, specified by a grammar over
    token sequences, with the proof that a tree spells out exactly the tokens
    it was read from;
  - `gui/`: the check made on an operation before the window sends it.
- `app/` — the programs: sockets, the window, the trace file, and the
  floating-point evaluation of expression trees.
- `tests/` — tests of the library.

# trentlang

A compiler for Trentlang, a tiny C-like language (`int main()`, integer
expressions with `+ - * /`, parentheses and unary minus, `print(expr);`,
`return expr;`, `//` comments) to LLVM IR, verified with Verus.

- `src/` is the verified library: `lexer` (source text to tokens), `parser`
  (tokens to a `Program`), `codegen` (a `Program` to the text of an LLVM IR
  module), `error`, `ast` and `text` (decimal rendering, line joining).
  `lexer_laws` and `roundtrip` state and prove laws that relate several
  inputs: comments, joining texts, and parsing a printed program back.
  Each stage is specified by spec functions (`spec_lex`, `spec_parse`,
  `spec_ir`) and its executable code is proved to compute exactly them.
- `app/` is the command-line driver: it reads the source file, writes the
  `.ll` file and runs `clang`.
- `tests/` runs the library on concrete programs.

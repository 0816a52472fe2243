# monkey

A lexer, parser and evaluator for a small expression language, verified with Verus.

- `src/token.rs`: tokens and their text.
- `src/lexer.rs`: the lexical grammar as spec functions (`scan`, `tokenize`) and
  the `Lexer` that reads tokens one at a time against it.
- `src/ast.rs`: expressions and statements, and their mathematical values.
- `src/parser.rs`: the grammar as spec functions over token streams
  (`expression`, `statement`, `program`, ...) and the `Parser` that follows it.
- `src/objects.rs`: values and the bindings of names (`Env`).
- `src/eval.rs`: evaluation as spec functions (`eval_expr`, `eval_program`) and
  the `Evaluator`.
- `src/text.rs`: decimal text of integers and reading of integer literals.
- `app/main.rs`: the program that lexes, parses and evaluates one source text.

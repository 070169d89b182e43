# monkey

An interpreter for the Monkey programming language, written in Verus.

- `src/token.rs`: token kinds, keyword lookup, printed names.
- `src/text.rs`: character classes, decimal numerals (printing and
  parsing `i64`), trimming.
- `src/lexer.rs`: the lexer, with `lex_step` stating what each call of
  `next_token` reads and gives back, the law that the literals of all
  tokens, put together, are the source text without its whitespace, and
  how two texts joined after a `;` are lexed.
- `src/ast.rs`: the syntax tree, its mathematical view (`ExprView`,
  `StmtView`) and its printed form.
- `src/grammar.rs`: what the Pratt parser computes over a token stream,
  with laws on operator grouping, and on what each parsing function reads
  of the stream (it never moves back, and reads nothing past the token
  after where it ends).
- `src/parser.rs`: the parser, which borrows the lexer and takes one token
  from it at a time, proved to compute what `grammar.rs` states; laws over
  source text: the grouping of `a o1 b o2 c;`, and parsing two texts one
  after the other.
- `src/object.rs`, `src/evaluator.rs`: values and evaluation, with the
  arithmetic faults made explicit, and laws on `!`, `if` and `return`
  (`return` also over source text).
- `src/repl.rs`: what the interactive loop answers to one line.
- `app/main.rs`: the interactive loop itself (standard input and output).

# calculator

A verified calculator for one-line arithmetic expressions: integers, decimal
numbers, `+ - * /`, unary minus and parentheses.

- `src/text.rs`: character classes (ASCII digits, Unicode `White_Space`) and
  the characters of a `&str`.
- `src/number.rs`: `NumberValue` (an exact `i64`, or a float described by a
  `FloatTerm`) and its arithmetic.
- `src/lexer.rs`: `Lexer::tokenize`, specified by `lex`.
- `src/parser.rs`: `Parser::parse`, a precedence-climbing parser specified by
  `parse_tokens`.
- `src/evaluator.rs`: `Evaluator::evaluate`, specified by `evaluation`.
- `src/render.rs`: how tokens (all but floats), integers and positioned
  error messages are written.
- `app/main.rs`: the demo program, which also does all `f64` work: reading
  decimal literals, computing `FloatTerm`s, answering the evaluator's
  zero tests of float divisors, writing float tokens and lexer errors.

The library never holds a floating-point number. A float is a `FloatTerm`:
the exact sequence of IEEE operations that yields it. The only decision that
depends on a float's value, whether a float divisor is zero, is asked of the
caller: `evaluate` takes the answers given so far and hands back the next
divisor it needs to know about.

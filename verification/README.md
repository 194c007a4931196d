# INTERCAL runtime, verified

The runtime of an INTERCAL interpreter, written in Verus: the INTERCAL
operators, variables and arrays with their STASHes, the chance generator,
the NEXT stack, Roman and spelled-out English numerals, character I/O
encoding, and the interpreter itself as a state machine.

Layout:

- `src/ast.rs`: the program model (variables, expressions, statements).
- `src/err.rs`: error codes and runtime errors.
- `src/stdops.rs`: operators (mingle, select, unary AND/OR/XOR), `Bind` and
  `Array`, chance, jumps, character I/O encoding.
- `src/numerals.rs`: Roman numeral output and English numeral input.
- `src/eval.rs`: the interpreter. `Eval::step` takes the answer to the last
  action and returns the next action (write, read, trace, finish, or crash
  where the program cannot go on); its contract is `EvalView::step_spec`.
- `src/laws.rs`: properties that relate several operations (STASH and
  RETRIEVE, IGNORE and REMEMBER, ABSTAIN and REINSTATE, array reads and
  writes).
- `app/lib.rs`: standard input and output, the random seed, the debug
  trace, and the loop that runs `Eval::step`.

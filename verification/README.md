# verun

Verun is a small language of guarded state machines: a machine has typed
fields, invariants, an `init` block, and transitions with preconditions
(`where`), a body, postconditions (`ensure`) and emitted events.

This crate is its library, verified with Verus:

- `lexer`, `parser`, `statements`, `transitions`, `items`: the text of a
  program to its syntax tree (`ast`). Each reader states the grammar it
  reads, and is proved to read every text the grammar writes, and to read
  it as written.
- `value`, `state`, `semantics`, `engine`: the interpreter. `semantics`
  states what running a transition means; `engine` runs it and is proved to
  do exactly that.
- `run`: setting up every machine of a program and taking one transition,
  as the `run` command does.
- `symbolic`, `queries`, `checks`: the verification conditions of a machine
  (that `init` establishes the invariants, that each transition preserves
  them and meets its postconditions, that no transition is dead) as solver
  terms, and the reports made from what a solver answers.
- `cli`: reading a transition call and its arguments from the command line.
- `laws`: properties of the language proved for every program.

`app/` is the command line around it: `verun run FILE [--transition CALL]
[--show-state]` and `verun verify FILE`, which hands each query to the Z3
solver.

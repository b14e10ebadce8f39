# huub

Parts of a constraint solver with lazy explanations, verified with Verus.

- `src/helpers`: trailed values and lists, a priority queue, shortest paths, a time line.
- `src/solver`: domains, views, reasons, the context in which propagators act, the engine, and
  a brancher on the order of views.
- `src/constraints`: difference constraints, and the constraint that views take different values.
- `src/model`: models, and the simplification of their difference constraints.
- `app`: the connection to a SAT solver, and log output.

Propagators state what they infer over the assignments of all decisions: no assignment that
keeps the constraint is lost, and every consequence follows from its reason.

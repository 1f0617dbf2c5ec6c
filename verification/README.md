# whetstone

An optimizer for a tiny three-address IR: constant folding, constant
propagation, algebraic simplification and dead code elimination, run in
rounds until a round changes nothing, with a cap on the number of rounds.
The library is written in Verus and proved against its specification.

Layout:

- `src/text.rs`: character classes, words of a line, decimal numbers.
- `src/ir.rs`: the IR types, their mathematical views and text form, and
  the parser with its specification (`spec_parse`), and its laws: operator
  symbols read back as their operators, joined sources parse in order,
  printed programs parse back to themselves.
- `src/store.rs`: the register-keyed map and set the passes use.
- `src/passes.rs`: the four passes, each specified by a spec function, and
  `optimize`, specified stage by stage (`stage`, `round_changed`). Its cap
  on rounds grows with the program, so it always reaches a fixed point.
- `src/semantics.rs`: what a program prints when it runs, and the proofs
  that every pass, and so the whole pipeline, keeps it. Folding,
  propagation and simplification keep every run exactly; dead code
  elimination keeps runs that reach the end, since a removed assignment
  may have been a division by zero that stopped the original.
- `src/render.rs`: the text written on standard output and standard
  error for an optimization result.
- `app/main.rs`: the command-line program (`whetstone opt FILE [--show-passes]`).

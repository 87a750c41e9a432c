# busy_beaver_rs

An exhaustive Busy Beaver search whose logic is proved with Verus.

The library enumerates every transition table of an `n`-state, `m`-symbol
Turing machine, runs each from a blank tape with a step budget, and keeps the
two champion groups: Σ(n), the halting machines that leave the most ones, and
S(n), the halting machines that run the most steps.

- `src/model.rs`: states, directions, rules.
- `src/tape.rs`: the two-sided tape; reads give back writes, and the count of
  ones follows each write.
- `src/machine.rs`: transition tables and the machine; `step` and `run` are
  specified by `step_of` and `run_of`.
- `src/generator.rs`: the enumeration of candidate tables; `tables()` lists
  each table of candidate rules exactly once, `(2·m·(n+1))^(n·m)` in all, and
  `for_each` hands exactly that sequence, in order, to a `TableSink`
  (`CallbackSink` wraps a closure).
- `src/search.rs`: the search; it runs every table through the generator
  into its own sink, its result is the fold of `recorded` over all tables,
  and the laws there say what the counts and champion groups are.
- `src/notation.rs`: names of states (A, B, ..., H) and moves (L, R).
- `app/main.rs`: the command line, progress lines and the report.

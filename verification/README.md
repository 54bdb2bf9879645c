# ternary_automata

Cellular automata over the cell states {0, 1, 2}, verified with Verus.

- `src/base3.rs`: base-3 numerals, the arithmetic behind Wolfram numbers, and
  the proofs that encoding and decoding a rule table are inverse.
- `src/rule.rs`: `TernaryRule`, its constructors (from a table, from a Wolfram
  number, the named rules) and the laws of its tables.
- `src/simulator.rs`: `Boundary`, `CASimulator`, the one-generation step as a
  specification, stepping, running, cycle finding, and the laws of evolution
  (periodicity once a state repeats, the pigeonhole bound on cycle finding).
- `src/analysis.rs`: pattern detection in a history, state counts, Hamming
  distance and text renderings.
- `app/lib.rs`: Shannon entropy, which works in floating point.

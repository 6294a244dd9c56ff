# dfajit

Table-driven DFA scanning with an x86_64 code image, verified with Verus.

A `TransitionTable` holds a DFA over byte classes: flat transitions
(`state * class_count + class`), accept entries `(state, pattern)` and a fixed
length per pattern. `JitDfa::compile` checks a table and builds an
`ExecutableBuffer`: for up to 4096 states, the machine code of the scan loop
followed by its data tables; for larger tables, the table itself. Scanning
reports a match whenever a transition enters an accepting state, walks the
state's output links, and restarts from state 0.

## Layout

- `src/table.rs`: the table, its construction, checks, ranges and density;
  `src/table/serial.rs` the byte format; `src/table/reach.rs` the reachable
  part of a table; `src/table/minimize.rs` partition refinement.
- `src/machine.rs`: the mathematical model of scanning (`run`, `scan_matches`).
- `src/codegen.rs`, `src/codegen/image.rs`: the code image and the two scanners
  of a compiled buffer, each proved to report `scan_matches` of its program.
- `src/dfa.rs`: `JitDfa`; `src/dfa/literal.rs` literal matchers (a trie with
  failure links); `src/dfa/regex.rs` matchers built from `regex-automata`.
- `src/error.rs`: errors and their messages.
- `app/`: mapping a code image into executable memory and running it, and the
  error type with `Display` and `std::error::Error`.

## Proved properties

- `table::serial::lemma_bytes_round_trip`: decoding the bytes of a valid table
  gives the table back; `lemma_truncated_bytes_refused`: every proper prefix
  of those bytes is refused.
- `table::reach::lemma_reachable_part_keeps_matches`: the reachable part of a
  table reports the same matches as the table.
- `table::minimize::lemma_minimize_keeps_matches`: the minimized table reports
  the same matches as the table it came from (stated too in the contract of
  `minimize`); `dfa::lemma_minimized_counts_agree` and
  `dfa::lemma_minimized_buffers_agree`: so do the DFAs and buffers compiled
  from them, with or without a code image;
  `lemma_minimize_idempotent`: minimizing the minimized table gives nothing.
- `dfa::literal::lemma_literal_matches_sound`: a literal matcher reports only
  occurrences of its patterns; `lemma_literal_finds_pattern`: it finds a pattern
  scanned on its own.
- `dfa::lemma_count_agrees_with_scan`: counting and scanning agree.

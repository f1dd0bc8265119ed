# flowtracer

Reconstructs per-request execution traces from application logs and prints
them as trees in the terminal, with errors highlighted and propagated from
the failing call up to the root.

The library is written in Verus: every function states what it computes in
`requires`/`ensures` clauses over mathematical models (`Seq`, `int`, spec
functions), and Verus proves the code against them.

## Layout

- `src/text.rs` — character classes (`\s`, `\w`, `\d`, case folding) and
  scanning primitives over `Seq<char>`.
- `src/parser/` — the plain-text line format: timestamp, level, message, and
  request/trace/thread identifiers. Timestamps are milliseconds since
  1970-01-01 00:00:00 of the date written in the line.
- `src/classifier/` — entry, exit and error patterns, and the classification
  of events.
- `src/grouper/` — grouping of events by request, trace or thread id, or by
  time; `laws.rs` proves that the groups partition the events (as a
  multiset), leave no group empty, keep the input order within each group,
  and, by time, split exactly where a new group is due.
- `src/trace_builder/` — the span tree of a group and its inferred end times;
  the tree keeps exactly the logged events of the group, each span in the
  order they were logged.
- `src/model/` — events, errors, spans and traces; error propagation and its
  laws.
- `src/renderer/` — the tree view with colours, durations and the error
  summary; `laws.rs` proves that colour-free output is plain text, that it
  starts with the header line, and that the tree is drawn span by span in
  preorder.
- `src/order.rs` — subsequences, the order laws are stated with.
- `src/pipeline.rs` — a whole run over a batch of lines, with the filters of
  the command line.
- `src/session.rs` — the notes of a run that shows nothing and the decisions
  of the watch modes.
- `src/input.rs` — telling binary files from text logs.
- `app/` — the command-line program: argument parsing, file and terminal
  input and output, watch loops.
- `tests/` — scenarios, including the hand-written grammar run against the
  regular expressions it stands for.

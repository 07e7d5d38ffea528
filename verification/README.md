# crok

A literate testing tool for command-line applications: scripts run commands and
say, with patterns, what the commands should write. The library is written in
Verus, and its functions are proved against their contracts.

- `src/parser`: from the text of a script to its commands, blocks and patterns.
- `src/output`: matching output against patterns, and what was tried.
- `src/failure.rs`: presenting failures and traces.
- `src/procstream`: from the bytes that a child process writes to lines.
- `src/command.rs`, `src/run.rs`: running a command or a script, step by step.
- `src/util`, `src/term.rs`, `src/testing.rs`: words, paths, text for the
  terminal, lists of tests.
- `app`: files, terminals and processes around the library.
- `tests`: examples of all of this.

What the library promises beyond single functions stands in proof functions
whose names begin with `law_`: for instance, that the output of a command
matches only where each of its lines is matched or skipped
(`src/parser/v0/ending.rs`), that an `unordered` block takes its lines in any
order (`src/output/blocks.rs`), or that lines do not depend on the pieces in
which a stream arrives (`src/procstream/framer.rs`).

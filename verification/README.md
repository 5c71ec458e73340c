# lib — a verified shell front end

A small model of a POSIX-like shell, written in Verus. Every function in
`src/` carries a contract over mathematical models (sequences of characters,
maps, multisets) and is proved against it.

- `src/text.rs` — character and string helpers, and the few calls into the
  standard library that Verus takes on trust (`char::is_whitespace`,
  `char::is_alphanumeric`, `str::to_uppercase`, `String::push`).
- `src/lexer.rs` — `tokenize`: words, quotes, escapes, `|` and redirection
  operators.
- `src/parser.rs` — pipelines, redirections and here-documents.
- `src/state.rs` — the working directory and `cd`.
- `src/variables.rs` — `SET`, `UNSET` and `$`/`${...}` expansion.
- `src/glob.rs` — the virtual file system and `*`, `?`, `[...]` matching.
- `src/substitution.rs` — `$(...)` command substitution.
- `src/events.rs` — the process table (`FORK`, `EXEC`, `EXIT`, `WAIT`, `STATUS`).
- `app/main.rs` — the program that reads process-table commands from standard
  input.

The public `law_*` proof functions state what holds across calls and inputs
(for instance that `cd -` goes back, that listings are sorted and do not
depend on the order files were created, that every command keeps the process
table consistent).

# calc

A calculator whose text processing is verified with Verus.

- `src/lex.rs` filters out characters outside equation notation and splits the text into tokens (operators, parentheses, signed decimal numbers).
- `src/parse.rs` finds the outermost parenthesised groups and arranges tokens into a tree by precedence (`^` over `*` `/` over `+` `-`, left to right).
- `src/eval.rs` flattens a tree into a postfix program.
- `src/pipeline.rs` chains the three steps.
- `src/session.rs` holds the window's state and how each message changes it.
- `app/main.rs` is the window (iced) and the floating-point evaluation of programs.

# lattice

The core of the Lattice workflow language and of its interactive front
end, written in Verus: every function in `src/` carries a contract that
Verus proves.

## Layout

- `src/syntax/` — the language: escapes in string literals, the lexer
  (`tokenize`, with the exact error for text that does not lex; a text
  has at most one reading, and one that has a reading is never refused), the
  abstract syntax and a recursive-descent parser whose every result
  flattens back to the tokens it was read from, each node carrying the
  span of its own tokens (arithmetic expressions over integers and
  variables are always read, grouped as precedence says; so are type and
  enum definitions, and function definitions whose body is such an
  expression), and import resolution as a state machine that decides what
  to resolve, read or splice while its caller does the file work, and
  records the text read from each file and what it became.
- `src/ir.rs`, `src/prompt.rs`, `src/template.rs` — type and function
  definitions for LLM functions, and prompt templates.
- `src/repl.rs`, `src/editor.rs`, `src/blocks.rs`, `src/delimiters.rs`,
  `src/completion.rs`, `src/submit.rs`, `src/keys.rs` — the front end's
  state: the input line with a UTF-8 cursor, history, the editor, the
  completion popup, submitting input, and what each key or mouse event
  does.
- `src/output.rs`, `src/table_render.rs`, `src/tree.rs`,
  `src/tree_render.rs`, `src/markdown.rs`, `src/wrapping.rs`,
  `src/repl_pane.rs`, `src/selection.rs` — output items and how they are
  drawn as lines of styled pieces, the layout of the REPL pane, selecting
  and clicking output.
- `src/notebook.rs`, `src/cells.rs`, `src/commands.rs`, `src/version.rs`, `src/text.rs`,
  `src/builtins.rs`, `src/cli.rs` — notebooks as source files, front-end
  commands, version comparison, text utilities and builtins; a cell's
  output from its value (lists of records with the same fields become
  tables).
- `tests/` — tests run against the compiled library.
- `app/` — the `lat` command line program: argument handling, files and
  printing around the library.

Laws that relate several operations (for instance that backspace undoes
typing, that a second click on a tree node restores it, that table rows
line up with their frame) are public proof functions named `law_*`.

# exmodhop

Indexes the modules of an Elixir project and opens the chosen one in an editor through fzf.

- `src/` is the library, verified with Verus:
  - `parser.rs` parses Elixir with tree-sitter, flattens the syntax tree and walks it for
    `defmodule` calls, naming each module by its enclosing modules;
  - `index.rs` keeps the per-file module lists (stored with bincode, with pending updates held
    in a `DashMap`), merges the updates, and renders the sorted listing that fzf reads;
  - `files.rs` and `project.rs` choose the sources to index and where a project's index lives;
  - `fzf.rs` reads fzf's choice and builds the editor command; `init.rs` holds the shell
    init scripts; `cli.rs` the command-line types; `paths.rs` and `text.rs` the path and text
    helpers.
- `app/main.rs` is the command: argument parsing, file and process I/O, and the thread pool
  that parses the source files.
- `tests/` exercises the library.

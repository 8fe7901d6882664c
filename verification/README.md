# dedup

Shows the duplicates of a folder of code. The library holds everything that can
be decided without a window, a disk or a clock, and Verus proves what it states.

- `src/` is the library.
  - `profile`, `rust`, `python`, `typescript`, `syntax_tree`, `normalize`: how
    source files become syntax trees, and syntax trees become tokens and hashes
    that do not depend on the names of local variables.
  - `highlight`, `tint`, `detail`, `detail_rows`, `project_view::rows`: what the
    detail pane shows of a file: its colors, its window around a duplicate, the
    lines that differ.
  - `app_state`, `project_view`, `project_view::actions`, `toast`,
    `history_badge`, `suppressions_view`, `llm_prompt`: the state of the window
    and what changes it.
  - `menubar`, `project_view::widgets`: the parts of the window.
  - `recent`, `sidebar_prefs`, `logging`, `blame`, `dates`, `paths`, `equality`,
    `text`: what the rest is built on.
- `tests/` runs the library from outside.
- `app/` is the macOS program: the window, files, threads and processes.

Parsing and highlighting are done by tree-sitter and syntect. What the library
takes from them on trust is written down in `profile.rs` and `highlight.rs`; what
it takes from the standard library, in `text.rs`.

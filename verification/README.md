# rucycle

Finds Rust projects under a directory and cleans their Cargo build
artifacts, from the command line or an interactive terminal list.

The library under `src/` holds the tool's logic with contracts proved by
Verus:

- `text`, `format` — decimal digits, trimming, first lines, human-readable
  sizes (exact to the double-precision computation and its half-to-even
  rounding), shortened labels, padded columns.
- `paths` — paths as bytes, their components, component-wise comparison
  and prefix tests, what is left after a prefix, joining and parents.
- `scan` — project records, the two list orders and a stable sort proved
  against them, manifest recognition, discovery and size bookkeeping,
  duplicate roots, project names, relative display paths.
- `cleaner` — clean plans, the per-project clean session with its counts,
  busy-tree detection, cargo command-line reading and where a named
  manifest lies, the `cargo clean` command of a project, failure messages.
- `ui` — the interactive list: selection, cursor and scrolling, re-sorting
  that keeps rows with their projects, key handling, clean progress and
  the texts drawn on screen.
- `report` — the lines of the non-interactive output.

`app/` is the program around it: argument parsing, the filesystem walk,
the process table, running `cargo clean`, and the terminal.

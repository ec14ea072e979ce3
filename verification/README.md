# backlog

Fuzzy-search a game library gathered from Steam, Epic, GOG and Amazon, and
keep a ranked queue of what to play next.

- `src/` is the library, verified with Verus: merging the launchers' lists,
  ranking fuzzy matches, the play queue and its laws (`queue_laws.rs`), the
  rows the CLI prints, sync reports, and the interactive view's key handling
  and selection. Calls into chrono, nucleo-matcher and serde_json stand
  behind small trusted wrappers whose contracts name what those crates
  compute.
- `app/` is the `backlog` program: argument parsing, files, the Steam Web API
  request and the terminal UI loop and drawing.
- `tests/` runs the library on concrete values.

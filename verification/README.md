# doctrack

An index between the symbols of a project's source files and the notes of its documentation vault
(`.doctrack/`), kept in both directions.

A note is linked in three tiers. A file reference that resolves gives `Exact` links to the symbols of
the file. A name in backticks that matches a symbol gives `Strong` links, unless it is too short or
has too many definitions. Where no file reference made a link, the file whose name is most like the
note's title gives `Fuzzy` links, which are hints and never count as documentation.

- `src/` is the library, verified with Verus: paths and their order, reading notes, extracting
  symbols, resolving references, linking, keeping the index up to date, building it for a whole
  project, the reports of the one-shot commands, installing hooks, and the laws of the index
  (`src/laws.rs` on what holds at all times, `src/current.rs` on links that stay up to date,
  `src/scoring.rs` on titles that can be scored).
- `app/` is the `doctrack-mcp` program around it: walking and reading the project, watching it for
  changes, and the server. The assistant that launches it is named by `DOCTRACK_ASSISTANT`, and the
  directory of its settings by `DOCTRACK_SETTINGS_DIR`, when the program is built or when it runs.
- `tests/` runs the library on small projects held in memory.

The hash maps are those of `dashmap`, titles are scored by `nucleo-matcher`, source files are parsed
by `tree-sitter` with its grammars, and JSON is read and written by `serde_json`. What is taken for
granted of these crates stands in `src/slots.rs`, `src/fuzzy.rs`, `src/grammar.rs` and `src/json.rs`.

# zipin

A terminal application for writing in Chinese, driven by the Rime input
engine. This crate holds its logic as a library verified with Verus, and the
terminal program around it.

## Layout

- `src/` — the verified library.
  - `text.rs`: string helpers; display width comes from `unicode-width`.
  - `doc.rs`: the document (paragraphs of committed and composing segments,
    a cursor, at most one composition), its operations as transitions of a
    mathematical model, their well-formedness lemmas and laws (undo pairs,
    one segment per committed character).
  - `layout.rs`: greedy column wrap of a paragraph and cursor placement.
  - `engine.rs`: the input engine's state machine; each operation says which
    engine call to make, and `refresh` records what the engine reported.
  - `input.rs`: punctuation mapping, character classes, pasting, the text
    copied to the clipboard, and laws relating edits to that text.
  - `keys.rs`: what each key press asks for.
  - `view.rs`: screen model, scrolling, scrollbar, popup geometry, vertical
    cursor moves.
  - `storage.rs`: decisions about data directories, migration, `--forget`,
    the asset stamp and the command line.
- `tests/` — tests of the library, run with the real outside crates.
- `app/` — the program: terminal I/O with ratatui, the clipboard, the Rime
  session, the file system.

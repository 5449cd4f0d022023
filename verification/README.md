# needle

The core of the Needle text editor, written in Verus: text buffers addressed by UTF-8 byte
offsets, directional selections, transaction-based undo and redo, the built-in command set,
project search, settings and keybindings, and text-file encodings. Verus proves the contract of
every function in `src/` except the thin wrappers around the standard library, `serde_json`,
`encoding_rs` and `chardetng` (marked `#[verifier::external_body]`, in the `trusted` and
`encoding` modules), whose contracts are assumed from those libraries' documentation and source.

## Layout

- `src/` — the verified library.
  - `text`, `buffer`, `selection`, `view`, `history`, `ids`, `settings`: the data model.
  - `state`, `commands`, `line_commands`, `line_moves`: the editor state and its edits.
  - `command`, `app`: the command registry and the built-in commands.
  - `editor`, `text_edit`, `frontend`, `shortcuts`, `keys`: what the desktop front end
    computes: find and replace, minimal text edits, status texts, keybindings.
  - `search`: the project index, quick-open fuzzy matching and the text search state machine.
  - `encoding`: reading and writing text files by byte-order mark, UTF-8 or a guessed encoding.
  - `laws`: properties that span several operations (undo after edits, redo after undo,
    read after store, normal forms of selections).
  - `trusted`: calls into the standard library and `serde_json` shared by several modules,
    whose contracts are assumed (the encoding calls stand in `encoding`).
- `tests/` — tests of the library.
- `app/` — the desktop program (egui window, dialogs, clipboard, file watcher, disk and
  threads) around the library.

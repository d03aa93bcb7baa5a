# miv

A small modal terminal text editor (Normal and Insert mode, vi-like keys),
with its logic verified by Verus.

- `src/` — the verified library:
  - `text.rs`: UTF-8 byte widths and offsets, character edits at a byte position, decimal numbers;
  - `utils.rs`: modes, cursor positions, splitting a file's text into lines and joining them back;
  - `display.rs`: the renderer — line-number gutter, horizontal scrolling, info bar, cursor;
  - `key_bindings.rs`: the editor state and what each key does to it;
  - `terminal.rs`: the escape text that opens the editor's screen.
- `app/main.rs` — raw terminal mode, terminal size, files, arguments and the key loop.
- `tests/` — scenarios run against the compiled library.

Notes on behaviour:
- `q` quits in Normal mode; in Insert mode it is inserted like any other character.
- A line shorter than the start of a horizontally scrolled window is drawn empty.
- The debug log files that earlier versions wrote while rendering (`log.log`, `log2.log`) are no longer written.

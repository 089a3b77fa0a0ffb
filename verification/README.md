# ted

The core of a small text editor, verified with Verus.

- `src/btree*`: a counted B-tree with stable element handles, searchable by
  position or by running totals of a per-element summary (`info`, `kids`,
  `idx`, `number`, `large_text` build on it).
- `src/flow.rs`, `src/view*`, `src/commands.rs`, `src/command_handler.rs`,
  `src/event_loop.rs`, `src/window.rs`, `src/input.rs`: laying text out on a
  grid, the editor view (cursor, typing, deleting, drawing), and turning
  window events into commands and commands into effects.
- `src/compiler*`: a lexer, an arena syntax tree, a type checker and the
  start of an interpreter.
- `src/gon.rs`: the GON configuration format; `src/highlight.rs` reads a
  syntax-highlighting description written in it (colour variables, scopes,
  default colours and rules). `src/lisp.rs`, `src/pod.rs`,
  `src/istring.rs`: smaller pieces. `src/atlas.rs`: packing glyph bitmaps
  into one image.
- `app/`: a program that rasterizes a font's glyphs (floating point, with
  `ttf-parser`) and saves them packed as a PNG (`image`).
- `tests/`: tests run against the compiled library.

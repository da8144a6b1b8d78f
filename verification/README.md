# termlens

A headless terminal for testing terminal programs, with its core verified in
Verus: the byte-level escape-sequence tracker, the screen grid with its text,
snapshot, ANSI, SVG and HTML renderings, screen diffs, the saved-screen text
and JSON formats read back, key, mouse and paste encodings, the answers to
terminal queries, inline-graphics capture and the UTF-8 sanitizer.

Layout:

- `src/` — the verified library. Every public function states what it
  returns in `ensures` over spec models (`Seq`, `Map`, views of the types);
  the laws that relate several functions are public proof functions
  (`lemma_*`), among them: a screen diffed with itself is empty, a diff is
  empty exactly when every cell pair draws the same picture (and so either
  way round), changed rows ascend and match the changed cells, style changes
  follow the changed rows, a plain snapshot and a JSON document read back as
  the screen they came from, a parsed wide cell is followed by its
  continuation, `find` agrees with `contains` on one-line needles, every
  rendering's runs spell the row's text,
  the sequence tracker keeps its bounds, an end of a synchronized update
  only closes one that began, both grids are fed exactly the stream
  consumed, the UTF-8 sanitizer's output does not depend on how the stream
  is chunked, stripping paste markers is idempotent, and the
  unanswered-query and unhandled-sequence records stay bounded.
- `src/vt.rs` holds the trusted wrappers around the `vt100` parser, the one
  part of the emulator whose results are taken on trust. A grid is modelled
  by the list of operations done to it; each query's answer is named as a
  function of that list, so the emulator's cells, history capture and
  resizing are stated and proved over those names.
- `tests/` — tests on concrete values, for every law among others.
- `app/` — the `termlens` command-line tool (`inspect`, `diff`, `render`):
  argument handling, files, standard streams, the PTY and the reader thread,
  and the JSON document's serde shape. What the arguments mean and what is
  printed are the library's.

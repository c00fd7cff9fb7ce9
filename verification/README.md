# runk

A terminal viewer for diffs, and a companion that watches over a work tree and
keeps notes that follow the text they were taken over.

- `src/` is the library: reading and computing diffs, anchoring notes, the state
  of the interface and what keys and the mouse do to it, and what is drawn. Every
  function but one states what it returns or changes, and Verus proves it; the
  exception is `unique_id`, which reads the clock and promises nothing. What outside
  crates and the standard library are relied on for stands in small wrappers,
  each with the fact it claims.
- `app/` is the program around it: arguments, files, processes, the terminal.
- `tests/` run the library.

Notes are stored as JSON, one file per annotated source file, in `.sidecar/` at
the root of the repository.

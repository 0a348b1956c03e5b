# trondb

The query and storage logic of an embedded engine for documents, vectors and graphs,
written and verified in Verus.

- `src/` is the library. Collections, entities, edges and plans are plain values; every
  function states what it answers and is proved to answer it. The modules whose names end
  in `_laws`, `recovery` and `index_history`, and the proof functions beside the other
  functions, state what holds across statements.
- `app/` is the shell around it: files, the write-ahead log, the graphs of vectors, and
  everything that is floating point. Statements are JSON objects.
- `tests/` runs the library with the crates it calls.

Numbers with a fraction appear in the library as their bits: doubles as `u64`, singles as
`u32`.

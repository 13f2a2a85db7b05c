# symgraph

A symbol graph made from the index that clang leaves while it builds.

Compiled with `-index-store-path <dir>`, clang leaves a store: a unit for each
compilation, and a record for each source file as it was compiled. `symgraph`
brings a graph of symbols, occurrences and relations to what such a store says,
reading only what changed, and answers questions to it.

    symgraph update <store-dir> <db-path> [--full]
    symgraph stats <db-path>
    symgraph find|refs|callers|callees|hierarchy|members|outline <db-path> <query> [limit]

A symbol can be asked for by its USR (`c:@S@Widget`), by a scoped name
(`Widget::run`), or by its name or a part of it. Where a name stands for a few
symbols, each is answered for; where it stands for many, they are listed. An
answer that a limit cuts short says so: `(N total, showing M)`.

A unit that the store does not list any more, or whose main file is gone, has no
place in the graph; neither has a record that no unit is made of, nor a symbol
that does not occur.

## Layout

- `src/` is the library, verified with Verus. The graph, the store and the
  questions are plain values there: merging, removing what is left over, and
  answering are functions with contracts. Every contract says exactly what is
  returned. Beside them stand the laws: `laws.rs`, `mirror.rs`, `presence.rs` and
  `rebuild.rs` on merges, `answers.rs` and `wording.rs` on answers, `changes.rs`
  on what has to be written.
- `app/` is the program: the SQLite file that keeps the graph, the C library that
  reads a store, and the command line.
- `tests/` runs the library: word for word, and against SQLite on the same
  tables.

# macrame

A bitemporal edge ledger over an SQL engine. Every edge says when it holds and
when it was recorded; lineages fork from one another and see what their
ancestors had recorded before the fork.

The library in `src/` holds everything that is decided or computed, proved
against its contracts:

- `graph/` — traversals and their statements, lineages, the in-memory graph and
  its algorithms, filtered nearest-neighbour search
- `connection/` — what a write checks and binds, batches, chunk sizes, archive
  windows, the writer's commands
- `integrity/` — the current belief, its audit, and the two ways to derive it anew
- `branch`, `plan`, `kv`, `metrics`, `temporal`, `vector`, `error`, `sql` and
  `util/`

Weights are binary64 bits. What has to add or divide them is handed the
operation, and says of its answer what follows whatever that operation rounds to.

`app/` runs the library's statements against libSQL: the writer, the reader and
the branch view. What a ledger takes from its surroundings (a clock, a schema,
snapshots, the archive, the vector tables) is its trait `Parts`.

`tests/` runs the library, its statements included, against an engine in memory.

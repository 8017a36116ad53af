# smith

The model core of Smith, a UML modelling tool, as a Verus-verified library.

- `src/` — the verified library: element identity, the closed metaclass
  registry, visibility, multiplicity (parse and format), stereotypes and
  the built-in profiles; the model (an ownership tree of elements with
  relationships and comments), its `petgraph` projection and the undo/redo
  command stack; and the decisions of the `.smith` file format (header
  check, schema version, pending migrations, backup rotation).
- `tests/` — the library's tests.
- `app/` — the shell around the library: the SQLite file (opening,
  migrating, backing up, write-through persistence), JSON data blobs, error
  messages with `thiserror`, and logging.

Every public function carries a contract, and the laws that relate the
operations are stated in `src/` and proved: parsing reads back what
formatting writes, the ownership tree never closes a cycle and, under a
single root, stays connected, and a backup rotation keeps the last three
versions. Each command states when its forward and inverse deltas undo each
other exactly, and the stack carries this over: undo reverts the command
executed last and redo re-applies the command undone last. A batch command
is atomic: a failed redo undoes what it applied, a failed undo re-applies
what it undid, and when every step can be reverted exactly the model ends
as it was before the batch.

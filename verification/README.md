# oplist

Sequential range lists for text editing, verified with Verus.

A *sequential list* is a compact, base-anchored record of edits to a text: a
list of ranges `(ins, len)` where a negative `len` deletes `-len` characters
of the base text starting at base position `ins`, and a positive `len`
inserts `len` characters anchored at base position `ins`. User-facing
operations address *document* positions instead; the library converts
between the two, merges and transforms lists, and keeps them compact.

## Layout

- `src/ops.rs` — operations, operation lists and their builders.
- `src/locate.rs`, `src/delete.rs` — locating a document position in a list,
  and inserting into / deleting from a list.
- `src/merge.rs`, `src/convert.rs`, `src/transform.rs` — merging lists,
  converting between user-facing operations and lists (replay, backwards
  application), and transforming one list against another.
- `src/doc_view.rs`, `src/canonical.rs`, `src/doc_delete.rs`,
  `src/doc_replay.rs` — the document a list stands for, and the laws that
  relate the list operations to edits of that document.
- `src/tally.rs`, `src/merge_view.rs`, `src/transform_view.rs`,
  `src/transform_map.rs` — what a list inserts at each anchor and which base
  positions it removes, and the laws that relate merging and transforming to
  them.
- `src/document.rs`, `src/segment_view.rs`, `src/baseops.rs` — a
  segment-based document model, the laws of its edits, and the lists built
  through it.
- `src/random_data.rs` — random operation lists (through `rand`).
- `src/btree.rs`, `src/range_tree.rs`, `src/discontinuous.rs`,
  `src/oplog.rs`, `src/range_key.rs` — supporting structures: a positional
  B-tree, range-tree node search, discontinuous range folding, an operation
  log, and range keys compared by containment.
- `tests/` — tests of the library; `app/` — a small command-line demo.

Every function in `src/` is verified against its contract, except the
three trusted declarations in `src/random_data.rs` (the `StdRng` type, seeding
it, and drawing from a range), whose contracts restate what `rand` documents.
Public proof functions named `law_*` state the properties that hold across
functions.

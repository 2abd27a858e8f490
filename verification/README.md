# graphforge_storage

Verified core of the GraphForge storage layer, in Verus.

- `src/` is the library. Every function in it is verified against its contract;
  the laws that relate several functions are public proof functions beside them.
  The membership index is in `membership.rs`, `probing.rs`, `topology_delta.rs`,
  `construction.rs`, `construction_sources.rs` and `rebuild.rs`, with the laws on
  what is read back in `history.rs` and `construction_history.rs`. The ordinal
  artifacts are in the `ordinal_*.rs` files, `merge_stops.rs` and
  `carry_questions.rs`, with the laws on what they read back in
  `ordinal_history.rs`, and on which topologies they are rebuilt from and which
  manifests are refused in `ordinal_admission.rs`. Snapshots are in
  `snapshot.rs`, `revalidation.rs`, `references.rs`, `construction_stream.rs` and
  `payload_stops.rs`, topology rewrites in `rewrite.rs`, with the laws on a
  rewrite that is repeated in `rewrite_history.rs`, recovery in
  `private_residue.rs` and `plan_cleanup.rs`, vectors in `vector_store.rs`, the
  workspace records in the `workspace*.rs` files, and the verification of a
  project store in `verify.rs`.
- `tests/` runs the library.
- `app/` holds the files, Parquet and JSON around it, and the arithmetic on
  floating-point scores.

Work that can be cancelled asks whether to go on at fixed points
(`cancellation.rs`); the library is told the number of the first question that is
answered with no.

Files are byte strings to the library, directories are lists, UUIDs are 128-bit
numbers and floating-point numbers are their bit patterns. Digests come from
`sha2`, normal forms of free JSON documents and the numbers in records of other
crates from `serde_json`; nothing else is taken on trust but the standard
library's check of UTF-8.

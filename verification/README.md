# Blockyard

The consensus and storage logic of Blockyard, a distributed block storage system, written
and verified in Verus.

- `src/` is the verified library.
  - `raft/` holds the metadata state machine with its mathematical model (`model.rs`) and
    the laws that hold of it (`laws.rs`), the log and snapshot stores, the consensus groups,
    heartbeats, message framing and peer tables.
  - `storage/` holds placement of replicas and of erasure-coded chunks, the erasure codec,
    extent files and their index, disks with their health and bad regions, failure
    handling, draining and rebalancing; `storage/background/` holds the background
    workers and their I/O budget.
  - `ids.rs`, `types.rs`, `text.rs`, `name_map.rs` and `collections.rs` hold what the two
    share.
- `app/` is ordinary Rust around the library: serialization, openraft and redb, sockets,
  files, clocks, and the measures that are floating-point numbers.
- `tests/` runs the library from outside.

Time is handed to the library in milliseconds, and so is what files, sockets and clocks say.
Six small functions call outside crates (uuid, blake3 and reed-solomon-erasure); each
states, in its own contract, what is relied on.

# private_vault

A node of a small distributed file store. Files are cut into 1 MiB chunks,
each stored under its content address (the BLAKE3 digest in lowercase hex);
a manifest lists the chunks of a file. Nodes replicate new files to the
peers that a BLAKE3-score placement picks, fetch and check chunks they
lack, and merge their file listings into a cluster-wide view.

Layout:

- `src/` — the verified library (Verus). `chunker`, `hashing` and `files`
  cover chunking, content addresses, manifests, file status and download
  assembly; `placement` and `policy` choose replica targets; `replication`
  plans a push and runs it as a state machine, checks fetched chunks and
  steps through the peers when searching for a chunk or manifest;
  `registry` keeps the known peers; `cluster` merges listings; `text`,
  `order`, `paths` and `config` hold string, ordering, path and settings
  logic.
- `app/` — the program around it: the Axum HTTP API, SQLite metadata via
  sqlx, chunk files via tokio, peer HTTP via reqwest, and the loops that
  drive discovery, replication and repair.
- `tests/` — tests of the library on concrete values.

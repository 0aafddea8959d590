# oxigraph_cloud

The verified core of a cloud-native SPARQL server: an RDF dataset with
N-Quads reading and writing, buffered HTTP transactions, a changelog with
undo, SHACL validation settings and verdicts, the key layout and scan plans
of a TiKV storage backend, and a TiKV coprocessor plugin (scan, count,
min/max, bloom filters). Every function in `src/` carries a contract that
Verus proves; the laws of the library (round trips, what undo restores,
that a pattern scan finds exactly the matching quads, ...) are public proof
functions.

Layout:

- `src/` — the library, written in Verus.
  - `store`, `nquads`: the dataset and its N-Quads text.
  - `transactions`: buffered operations, their replay, the transaction
    registry and the deltas of SPARQL updates.
  - `changelog`, `changelog_laws`: the changelog stored as quads, and its laws.
  - `shacl`: validation modes, validator, outcomes and report JSON.
  - `server`: routing and the request/response decisions of the HTTP server.
  - `cdc`: change notification settings, subscriptions and their registry.
  - `term`, `protocol`, `plugin`, `bloom`: the coprocessor plugin.
  - `tikv`, `tikv_layout`, `tikv_backend`: the TiKV key layout, scans and
    consistency checks.
  - `backend`, `memory`: the contract of a pluggable storage backend, and
    the in-memory backend that implements it.
- `tests/` — tests run against the compiled library.
- `app/` — the HTTP server program (argument handling, sockets, JSON
  bodies through serde), built on the library.

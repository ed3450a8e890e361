# rbmem

A library for RBMEM memory files (the Rust-Brain Memory Format): a
sectioned text format for agent memory with temporal data, provenance, a
section graph and per-section encryption. The library reads and writes the
format, merges and diffs documents, indexes and queries sections, assembles
context packs, syncs Markdown, applies Hermes payloads, and turns goals and
rules into SAT planning problems that it solves and orders.

Its logic is written in Verus and verified: every public function states
what it returns in `requires`/`ensures` over mathematical models of the
data, and properties that span functions (an upsert read back, append-only
memory, ordering of sections and of plan steps, encryption round trips, a
written content block read back by the section reader) are stated and
proved as proof functions. That a whole written document parses back to
the same sections is not proved; the tests check it on examples.

Layout:

- `src/` — the verified library, one module per concern (`parser`, `writer`,
  `document`, `index`, `query`, `pack`, `diff`, `hermes`, `crypto`,
  `planner`, `steps`, ...). Calls into `ring`, `base64`, `chrono`,
  `serde_json` and `petgraph` go through small trusted wrappers whose
  contracts are documented where they stand.
- `tests/` — tests of the library on concrete values.
- `app/` — the command-line program and HTTP server: argument handling,
  files, external SAT solvers, JSON and YAML output.
